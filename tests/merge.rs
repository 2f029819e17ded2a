use sa_ninja_gen::extdef::CodecError;
use sa_ninja_gen::merge::{
    expand_inputs, merge_contents, merge_to_text, response_file_of, split_lines, split_words,
};

fn strs(v: &[&str]) -> Vec<String> {
    v.iter().map(|s| s.to_string()).collect()
}

fn usr_path(text: &[&str]) -> Vec<(String, String)> {
    let files = strs(text);
    merge_contents(&files).unwrap().into_iter().map(|m| (m.usr, m.path)).collect()
}

#[test]
fn first_record_for_a_key_wins() {
    let got = usr_path(&["3:abc /one\n3:xyz /two\n", "3:abc /three\n"]);
    assert_eq!(got, vec![("abc".to_string(), "/one".to_string()), ("xyz".to_string(), "/two".to_string())]);
}

#[test]
fn duplicates_within_one_file() {
    let got = usr_path(&["1:k /a\n1:k /b\n1:k /a\n"]);
    assert_eq!(got, vec![("k".to_string(), "/a".to_string())]);
}

#[test]
fn merging_in_two_steps_matches_one_pass() {
    let a = "1:k /a\n1:m /m\n";
    let b = "1:k /b\n1:n /n\n";
    let c = "1:n /c\n1:o /o\n";
    let ab = merge_to_text(&strs(&[a, b])).unwrap();
    let two_steps = usr_path(&[ab.as_str(), c]);
    let one_pass = usr_path(&[a, b, c]);
    assert_eq!(two_steps, one_pass);
}

#[test]
fn merge_is_idempotent_on_its_output() {
    let text = merge_to_text(&strs(&["1:k /a\n1:k /b\n2:xy /c\n"])).unwrap();
    assert_eq!(text, "1:k /a\n2:xy /c\n");
    assert_eq!(merge_to_text(&strs(&[text.as_str()])).unwrap(), text);
}

#[test]
fn malformed_line_aborts_merge() {
    let files = strs(&["1:k /a\n", "bad line\n1:m /m\n"]);
    assert_eq!(merge_contents(&files).unwrap_err(), CodecError::MalformedLength);
    assert_eq!(merge_to_text(&files).unwrap_err(), CodecError::MalformedLength);
}

#[test]
fn empty_inputs_give_empty_map() {
    assert_eq!(merge_to_text(&strs(&["", ""])).unwrap(), "");
}

#[test]
fn lines_follow_read_line_rules() {
    assert_eq!(split_lines("a\r\nb\nc"), strs(&["a", "b", "c"]));
    assert_eq!(split_lines("a\n\nb\n"), strs(&["a", "", "b"]));
    assert_eq!(split_lines(""), Vec::<String>::new());
    assert_eq!(split_lines("x\r"), strs(&["x\r"]));
}

#[test]
fn words_split_at_any_white_space() {
    assert_eq!(split_words("  fileA.extdef\nfileB.extdef\t\r\n c \u{3000}d "), strs(&["fileA.extdef", "fileB.extdef", "c", "d"]));
    assert_eq!(split_words(" \n "), Vec::<String>::new());
}

#[test]
fn response_file_names() {
    assert_eq!(response_file_of("@resp.txt"), Some("resp.txt".to_string()));
    assert_eq!(response_file_of("file.extdef"), None);
    assert_eq!(response_file_of("@"), Some(String::new()));
}

#[test]
fn response_file_expands_like_direct_paths() {
    let via_file = expand_inputs(&strs(&["@resp.txt"]), &strs(&["fileA.extdef\nfileB.extdef"]));
    let direct = expand_inputs(&strs(&["fileA.extdef", "fileB.extdef"]), &strs(&["", ""]));
    assert_eq!(via_file, direct);
    assert_eq!(direct, strs(&["fileA.extdef", "fileB.extdef"]));
}

#[test]
fn expansion_keeps_order_and_is_one_level() {
    let got = expand_inputs(&strs(&["a", "@r", "b"]), &strs(&["", "@inner x", ""]));
    assert_eq!(got, strs(&["a", "@inner", "x", "b"]));
}
