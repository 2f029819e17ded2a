use sa_ninja_gen::types::CompileCommand;

#[test]
fn types_test_init() {
    let mut cmd = CompileCommand {
        directory: "/home/username/project".to_string(),
        command: "clang -o /home/username/project/main.o -fPIC -c /home/username/project/main.c"
            .to_string(),
        file: "/home/username/project/main.c".to_string(),
        ..Default::default()
    };
    cmd.init();
    assert_eq!(cmd.compiler, "clang");
    assert_eq!(cmd.output, "/home/username/project/main.o");
    assert_eq!(cmd.flags, vec!["-fPIC"]);
}

#[test]
fn types_test_init_no_minus_c() {
    let mut cmd = CompileCommand {
        directory: "/home/username/project".to_string(),
        command: "clang -o /home/username/project/main.o -fPIC /home/username/project/main.c"
            .to_string(),
        file: "/home/username/project/main.c".to_string(),
        ..Default::default()
    };
    cmd.init();
    assert_eq!(cmd.compiler, "clang");
    assert_eq!(cmd.output, "/home/username/project/main.o");
    assert_eq!(cmd.flags, vec!["-fPIC"]);
}

#[test]
fn types_hash_depends_on_order() {
    let mut a = CompileCommand { command: "cc -O2 -g".to_string(), ..Default::default() };
    let mut b = CompileCommand { command: "cc -g -O2".to_string(), ..Default::default() };
    a.init();
    b.init();
    assert_ne!(a.hash(), b.hash());
}
