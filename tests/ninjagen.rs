use sa_ninja_gen::cli::{ConfigError, Opts, OptsClean};
use sa_ninja_gen::cmdb::{CompileCommand, RawCompileCommand};
use sa_ninja_gen::ninjagen::NinjaGen;
use sa_ninja_gen::utils::{vector_hash, PathError};

fn opts(ctu: bool, detect_pch: bool) -> OptsClean {
    OptsClean {
        ctu,
        detect_pch,
        repo: "/repo".to_string(),
        compile_commands: "/repo/compile_commands.json".to_string(),
        output_dir: "/out".to_string(),
        output_file: "/out/ctu.ninja".to_string(),
        ctu_pool: 2,
    }
}

fn command(file: &str, command: &str) -> CompileCommand {
    CompileCommand::from_raw(RawCompileCommand {
        directory: "/repo".to_string(),
        command: Some(command.to_string()),
        arguments: None,
        file: file.to_string(),
    })
    .unwrap()
}

fn two_files() -> Vec<CompileCommand> {
    vec![
        command("/repo/src/a.c", "clang -o a.o -c /repo/src/a.c -O2"),
        command("/repo/lib/b.cpp", "clang++ -o b.o -c /repo/lib/b.cpp -O2"),
    ]
}

#[test]
fn two_files_make_the_expected_graph() {
    let mut g = NinjaGen::new(opts(false, true), two_files(), "/bin/cem".to_string(), "/bin/merge".to_string());
    g.generate().unwrap();
    let rule_of = |r: &str| g.builds.iter().filter(|b| b.rule.starts_with(r)).count();
    assert_eq!(g.builds.len(), 7);
    assert_eq!(rule_of("ast_"), 2);
    assert_eq!(rule_of("cem"), 2);
    assert_eq!(rule_of("analyze_"), 2);
    assert_eq!(rule_of("merge"), 1);
    let merge = &g.builds[6];
    assert_eq!(merge.rule, "merge");
    assert_eq!(merge.outputs, vec!["/out/externalDefMap.txt"]);
    assert_eq!(merge.inputs, vec!["/out/extdefs/src/a.extdef", "/out/extdefs/lib/b.extdef"]);
    for b in g.builds.iter().filter(|b| b.rule.starts_with("analyze_")) {
        assert_eq!(b.implicit, vec!["/out/externalDefMap.txt"]);
    }
    assert_eq!(g.builds[0].outputs, vec!["/out/ASTs/src/a.ast"]);
    assert_eq!(g.builds[0].inputs, vec!["/repo/src/a.c"]);
    assert_eq!(g.builds[1].inputs, vec!["/out/ASTs/src/a.ast"]);
    assert_eq!(g.builds[2].outputs, vec!["/out/reports/src/a.plist"]);
}

#[test]
fn identical_flags_share_rules() {
    let mut g = NinjaGen::new(opts(false, true), two_files(), "c".to_string(), "m".to_string());
    g.generate().unwrap();
    // cem, merge, one AST rule and one analysis rule for the shared flags
    assert_eq!(g.rules.len(), 4);
    assert_eq!(g.builds[0].rule, g.builds[3].rule);
    let mut flags = vec!["-O2".to_string()];
    flags.extend(["-emit-ast", "-c", "$in", "-o", "$out"].map(|s| s.to_string()));
    assert_eq!(g.builds[0].rule, format!("ast_{}", vector_hash(&flags)));
    let ast = g.rules.iter().find(|r| r.name == g.builds[0].rule).unwrap();
    assert_eq!(ast.command, "clang -O2 -emit-ast -c $in -o $out");
    assert_eq!(ast.description, "AST $in");
}

#[test]
fn differing_flags_get_different_rules() {
    let cmds = vec![
        command("/repo/a.c", "clang -c /repo/a.c -O2 -g"),
        command("/repo/b.c", "clang -c /repo/b.c -g -O2"),
    ];
    let mut g = NinjaGen::new(opts(false, true), cmds, "c".to_string(), "m".to_string());
    g.generate().unwrap();
    assert_ne!(g.builds[0].rule, g.builds[3].rule);
    assert_ne!(g.builds[2].rule, g.builds[5].rule);
}

#[test]
fn ctu_adds_the_artifact_root() {
    let mut g = NinjaGen::new(opts(true, true), two_files(), "c".to_string(), "m".to_string());
    g.generate().unwrap();
    let analyze = g.rules.iter().find(|r| r.name == g.builds[2].rule).unwrap();
    assert!(analyze.command.contains("-Xclang ctu-dir=/out -o $out $in"));
    assert!(analyze.command.starts_with("clang -O2 --analyze"));
    assert_eq!(analyze.pool, Some("analyze".to_string()));
    let mut plain = NinjaGen::new(opts(false, true), two_files(), "c".to_string(), "m".to_string());
    plain.generate().unwrap();
    assert_ne!(g.builds[2].rule, plain.builds[2].rule);
}

#[test]
fn pch_steps_come_first() {
    let cmds = vec![
        command("/repo/pch.h", "clang -x c-header -Xclang -emit-pch -o /out/pch.pch -c /repo/pch.h"),
        command("/repo/a.c", "clang -Xclang -include-pch -Xclang /out/pch.pch -c /repo/a.c"),
    ];
    let mut g = NinjaGen::new(opts(false, true), cmds.clone(), "c".to_string(), "m".to_string());
    assert_eq!(g.pch_commands.len(), 1);
    g.generate().unwrap();
    assert_eq!(g.builds.len(), 1 + 6 + 1);
    assert!(g.builds[0].rule.starts_with("pch_"));
    assert_eq!(g.builds[0].outputs, vec!["/out/pch.pch"]);
    assert_eq!(g.builds[0].inputs, vec!["/repo/pch.h"]);
    assert_eq!(g.builds[4].implicit, vec!["/out/pch.pch"]);
    let without = NinjaGen::new(opts(false, false), cmds, "c".to_string(), "m".to_string());
    assert_eq!(without.pch_commands.len(), 0);
}

#[test]
fn later_record_for_a_file_replaces_earlier() {
    let cmds = vec![
        command("/repo/a.c", "clang -c /repo/a.c -O0"),
        command("/repo/b.c", "clang -c /repo/b.c"),
        command("/repo/a.c", "clang -c /repo/a.c -O3"),
    ];
    let g = NinjaGen::new(opts(false, true), cmds, "c".to_string(), "m".to_string());
    assert_eq!(g.commands.len(), 2);
    assert_eq!(g.commands[0].flags, vec!["-O3"]);
    assert_eq!(g.variables[0].value, "/repo");
    assert_eq!(g.variables[2].name, "merge_extdefs");
}

#[test]
fn file_outside_repo_fails_generation() {
    let cmds = vec![command("/elsewhere/a.c", "clang -c /elsewhere/a.c")];
    let mut g = NinjaGen::new(opts(false, true), cmds, "c".to_string(), "m".to_string());
    assert_eq!(
        g.generate(),
        Err(PathError::PathNotUnderRepo { file: "/elsewhere/a.c".to_string(), root: "/repo".to_string() })
    );
}

#[test]
fn options_are_completed() {
    let mut o = Opts {
        ctu: true,
        detect_pch: true,
        repo: None,
        compile_commands: "/w/cc.json".to_string(),
        output_dir: None,
        output_file: "/w/build/./ctu.ninja".to_string(),
        ctu_pool: 4,
    };
    o.init(Some("/w".to_string())).unwrap();
    assert_eq!(o.output_file, "/w/build/ctu.ninja");
    assert_eq!(o.output_dir, Some("/w/build".to_string()));
    assert_eq!(o.repo, Some("/w".to_string()));
    let clean = OptsClean::from_opts(o.clone(), None).unwrap();
    assert_eq!(clean.repo, "/w");
    assert_eq!(clean.output_dir, "/w/build");
    let no_repo = Opts { repo: None, ..o };
    assert_eq!(OptsClean::from_opts(no_repo, None).unwrap_err(), ConfigError::RepoNotFound);
}
