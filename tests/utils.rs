use sa_ninja_gen::utils::{absolutize, get_output_filename, mirror_path, vector_hash, PathError};

#[test]
fn test_vector_hash() {
    let data = vec!["a".to_string(), "b".to_string(), "c".to_string()];
    assert_eq!(vector_hash(&data), "78af5f94892f3950");
}

#[test]
fn test_get_output_filename() {
    let output_dir = "/tmp";
    let input_file = "/tmp/foo/bar/baz.cpp";
    let prefix = "/tmp/foo";
    let extension = "ast";
    let filename = get_output_filename(output_dir, input_file, prefix, extension).unwrap();
    assert_eq!(filename, "/tmp/bar/baz.ast");

    let prefix = "/home";
    let filename = get_output_filename(output_dir, input_file, prefix, extension);
    assert!(filename.is_err());
}

#[test]
fn path_not_under_repo_names_both_paths() {
    let r = get_output_filename("/tmp", "/tmp/foo/bar/baz.cpp", "/home", "ast");
    assert_eq!(
        r,
        Err(PathError::PathNotUnderRepo { file: "/tmp/foo/bar/baz.cpp".to_string(), root: "/home".to_string() })
    );
}

#[test]
fn prefix_is_component_wise() {
    assert!(get_output_filename("/out", "/tmp/foobar/x.c", "/tmp/foo", "ast").is_err());
    assert!(get_output_filename("/out", "/tmp/foo/x.c", "/tmp/foo/", "ast").is_ok());
}

#[test]
fn output_is_normalized() {
    assert_eq!(get_output_filename("/out/./a/../b", "/r/s/x.c", "/r", "plist").unwrap(), "/out/b/s/x.plist");
    assert_eq!(get_output_filename("/out/", "/r//s/./x.tar.gz", "/r", "ast").unwrap(), "/out/s/x.tar.ast");
}

#[test]
fn extension_rules() {
    assert_eq!(mirror_path("/o", "/r/.bashrc", "/r", "ast"), Some("/o/.bashrc.ast".to_string()));
    assert_eq!(mirror_path("/o", "/r/noext", "/r", "ast"), Some("/o/noext.ast".to_string()));
    assert_eq!(mirror_path("/o", "/r/a.c", "/r", ""), Some("/o/a".to_string()));
    assert_eq!(mirror_path("o", "/r/d/a.c", "/r", "e"), Some("o/d/a.e".to_string()));
    assert_eq!(mirror_path("/o", "r/a.c", "/r", "e"), None);
}

#[test]
fn absolutize_normalizes_absolute_paths() {
    assert_eq!(absolutize("/a/b/../c/./d"), Some("/a/c/d".to_string()));
    assert_eq!(absolutize("/a//b/"), Some("/a/b".to_string()));
}

#[test]
fn hash_is_order_sensitive() {
    let ab = vec!["-a".to_string(), "-b".to_string()];
    let ba = vec!["-b".to_string(), "-a".to_string()];
    assert_ne!(vector_hash(&ab), vector_hash(&ba));
    assert_eq!(vector_hash(&ab), vector_hash(&ab.clone()));
}
