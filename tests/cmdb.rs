use sa_ninja_gen::canon::RecordError;
use sa_ninja_gen::cmdb::{CompileCommand, RawCompileCommand};
use sa_ninja_gen::utils::vector_hash;

#[test]
fn cmdb_test_init() {
    let cmd = RawCompileCommand {
        directory: "/home/username/project".to_string(),
        command: Some(
            "clang -o /home/username/project/main.o -fPIC -c /home/username/project/main.c".to_string(),
        ),
        file: "/home/username/project/main.c".to_string(),
        ..Default::default()
    };
    let cmd = CompileCommand::from_raw(cmd).unwrap();
    assert_eq!(cmd.compiler, "clang");
    assert_eq!(cmd.output, "/home/username/project/main.o");
    assert_eq!(cmd.flags, vec!["-fPIC"]);
}

#[test]
fn cmdb_test_init_no_minus_c() {
    let cmd = RawCompileCommand {
        directory: "/home/username/project".to_string(),
        command: Some(
            "clang -o /home/username/project/main.o -fPIC /home/username/project/main.c".to_string(),
        ),
        file: "/home/username/project/main.c".to_string(),
        ..Default::default()
    };
    let cmd = CompileCommand::from_raw(cmd).unwrap();
    assert_eq!(cmd.compiler, "clang");
    assert_eq!(cmd.output, "/home/username/project/main.o");
    assert_eq!(cmd.flags, vec!["-fPIC"]);
}

fn raw(command: Option<&str>, arguments: Option<Vec<&str>>, file: &str) -> RawCompileCommand {
    RawCompileCommand {
        directory: "/src".to_string(),
        command: command.map(|c| c.to_string()),
        arguments: arguments.map(|a| a.into_iter().map(|s| s.to_string()).collect()),
        file: file.to_string(),
    }
}

#[test]
fn canonical_flags_keep_order() {
    let cmd = CompileCommand::from_raw(raw(Some("gcc -o out.o -c in.c -fPIC"), None, "in.c")).unwrap();
    assert_eq!(cmd.compiler, "gcc");
    assert_eq!(cmd.output, "out.o");
    assert_eq!(cmd.flags, vec!["-fPIC"]);
    assert_eq!(cmd.directory, "/src");
    assert_eq!(cmd.file, "in.c");
}

#[test]
fn bare_file_removed_without_compile_flag() {
    let cmd = CompileCommand::from_raw(raw(Some("cc -o out.o -fPIC in.c"), None, "in.c")).unwrap();
    assert_eq!(cmd.flags, vec!["-fPIC"]);
    assert_eq!(cmd.output, "out.o");
}

#[test]
fn arguments_used_verbatim() {
    let args = vec!["clang++", "-I", "a b", "-c", "x.cpp", "-O2"];
    let cmd = CompileCommand::from_raw(raw(Some("ignored"), Some(args), "x.cpp")).unwrap();
    assert_eq!(cmd.compiler, "clang++");
    assert_eq!(cmd.flags, vec!["-I", "a b", "-O2"]);
    assert_eq!(cmd.output, "");
}

#[test]
fn only_first_markers_removed() {
    let cmd = CompileCommand::from_raw(raw(Some("cc -o a.o -o b.o -c x.c -c y.c"), None, "x.c")).unwrap();
    assert_eq!(cmd.output, "a.o");
    assert_eq!(cmd.flags, vec!["-o", "b.o", "-c", "y.c"]);
}

#[test]
fn double_space_gives_empty_flag() {
    let cmd = CompileCommand::from_raw(raw(Some("cc  -Wall"), None, "x.c")).unwrap();
    assert_eq!(cmd.flags, vec!["", "-Wall"]);
}

#[test]
fn missing_command_is_an_error() {
    assert_eq!(CompileCommand::from_raw(raw(None, None, "x.c")), Err(RecordError::MissingCommand));
}

#[test]
fn empty_arguments_is_an_error() {
    assert_eq!(CompileCommand::from_raw(raw(None, Some(vec![]), "x.c")), Err(RecordError::EmptyCommand));
}

#[test]
fn dangling_output_flag_is_an_error() {
    assert_eq!(CompileCommand::from_raw(raw(Some("cc x.c -o"), None, "x.c")), Err(RecordError::MissingFlagValue));
    assert_eq!(CompileCommand::from_raw(raw(Some("cc -o x.o -c"), None, "x.c")), Err(RecordError::MissingFlagValue));
}

#[test]
fn command_hash_is_flag_hash() {
    let cmd = CompileCommand::from_raw(raw(None, Some(vec!["cc", "a", "b", "c"]), "x.c")).unwrap();
    assert_eq!(cmd.hash(), "78af5f94892f3950");
    let flags = vec!["a".to_string(), "b".to_string(), "c".to_string()];
    assert_eq!(cmd.hash(), vector_hash(&flags));
}
