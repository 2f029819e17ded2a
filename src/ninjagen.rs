//! The build graph: rules deduplicated by the hash of their flags, and per
//! source file an AST step, an external-definition step and an analysis
//! step, followed by one step that merges all external definitions.
use vstd::prelude::*;
use crate::cli::OptsClean;
use crate::canon::{first_index, lemma_first_index, position_of};
use crate::cmdb::CompileCommand;
use crate::text::views;
use crate::utils::{
    absolutize, flags_hash, get_output_filename, is_rooted, join_under, mirrored_path,
    normalized_absolute, separator_after, vector_hash, PathError,
};

verus! {

/// A named command template.
#[derive(Debug, Clone, PartialEq)]
pub struct Rule {
    pub name: String,
    pub command: String,
    pub description: String,
    pub pool: Option<String>,
    pub rspfile: Option<String>,
    pub rspfile_content: Option<String>,
}

/// One step of the graph: outputs made by a rule from inputs, after the
/// implicit inputs exist.
#[derive(Debug, Clone, PartialEq)]
pub struct Build {
    pub outputs: Vec<String>,
    pub rule: String,
    pub inputs: Vec<String>,
    pub implicit: Vec<String>,
}

/// A top-level variable of the build file.
#[derive(Debug, Clone, PartialEq)]
pub struct Variable {
    pub name: String,
    pub value: String,
}

/// The generator: options, the rules made so far, the build steps made so
/// far, the file's variables, and the compile commands (one per source
/// file) with those that emit a precompiled header.
pub struct NinjaGen {
    pub opts: OptsClean,
    pub rules: Vec<Rule>,
    pub builds: Vec<Build>,
    pub variables: Vec<Variable>,
    pub commands: Vec<CompileCommand>,
    pub pch_commands: Vec<CompileCommand>,
}

/// The flags joined by single spaces.
pub open spec fn space_joined(fs: Seq<Seq<char>>) -> Seq<char>
    decreases fs.len(),
{
    if fs.len() == 0 {
        Seq::<char>::empty()
    } else if fs.len() == 1 {
        fs[0]
    } else {
        space_joined(fs.drop_last()) + seq![' '] + fs.last()
    }
}

/// The command line of a rule: the compiler, a space, and the flags.
pub open spec fn rule_command(compiler: Seq<char>, flags: Seq<Seq<char>>) -> Seq<char> {
    compiler + seq![' '] + space_joined(flags)
}

/// The flags of the AST-emission rule of a command.
pub open spec fn ast_flags(flags: Seq<Seq<char>>) -> Seq<Seq<char>> {
    flags + seq!["-emit-ast"@, "-c"@, "$in"@, "-o"@, "$out"@]
}

/// The analyzer configuration flags.
pub open spec fn analyzer_config() -> Seq<Seq<char>> {
    seq![
        "--analyze"@,
        "-Xclang"@,
        "-analyzer-config"@,
        "-Xclang"@,
        "expand-macros=true"@,
        "-Xclang"@,
        "-analyzer-config"@,
        "-Xclang"@,
        "aggressive-binary-operation-simplification=true"@,
        "-Xclang"@,
        "-analyzer-output=plist-multi-file"@,
    ]
}

/// The cross-translation-unit flags, pointing the analyzer at `outdir`.
pub open spec fn ctu_config(outdir: Seq<char>) -> Seq<Seq<char>> {
    seq![
        "-Xclang"@,
        "-analyzer-config"@,
        "-Xclang"@,
        "experimental-enable-naive-ctu-analysis=true"@,
        "-Xclang"@,
        "-analyzer-config"@,
        "-Xclang"@,
        "ctu-dir="@ + outdir,
    ]
}

/// The flags of the analysis rule of a command.
pub open spec fn analyze_flags(flags: Seq<Seq<char>>, outdir: Seq<char>, ctu: bool) -> Seq<Seq<char>> {
    flags + analyzer_config() + (if ctu {
        ctu_config(outdir)
    } else {
        Seq::<Seq<char>>::empty()
    }) + seq!["-o"@, "$out"@, "$in"@]
}

pub open spec fn ast_rule_name(c: CompileCommand) -> Seq<char> {
    "ast_"@ + flags_hash(ast_flags(views(c.flags@)))
}

pub open spec fn pch_rule_name(c: CompileCommand) -> Seq<char> {
    "pch_"@ + flags_hash(views(c.flags@))
}

pub open spec fn analyze_rule_name(c: CompileCommand, outdir: Seq<char>, ctu: bool) -> Seq<char> {
    "analyze_"@ + flags_hash(analyze_flags(views(c.flags@), outdir, ctu))
}

/// A rule as values: name, command, description and pool.
pub open spec fn rule_view(r: Rule) -> (Seq<char>, Seq<char>, Seq<char>, Option<Seq<char>>) {
    (
        r.name@,
        r.command@,
        r.description@,
        match r.pool {
            Some(p) => Some(p@),
            None => None,
        },
    )
}

pub open spec fn rules_view(rs: Seq<Rule>) -> Seq<(Seq<char>, Seq<char>, Seq<char>, Option<Seq<char>>)> {
    rs.map_values(|r: Rule| rule_view(r))
}

/// Whether a rule named `name` is among `rs`.
pub open spec fn has_rule(rs: Seq<Rule>, name: Seq<char>) -> bool {
    exists|i: int| 0 <= i < rs.len() && (#[trigger] rs[i]).name@ == name
}

/// The rules after looking up `r` by name and adding it when absent.
pub open spec fn with_rule(rs: Seq<Rule>, r: Rule) -> Seq<Rule> {
    if has_rule(rs, r.name@) {
        rs
    } else {
        rs.push(r)
    }
}

/// Adds `rule` unless a rule of that name is present.
fn ensure_rule(rules: &mut Vec<Rule>, rule: Rule)
    ensures
        final(rules)@ == with_rule(old(rules)@, rule),
{
    let mut i: usize = 0;
    while i < rules.len()
        invariant
            i <= rules@.len(),
            forall|j: int| 0 <= j < i ==> (#[trigger] rules@[j]).name@ != rule.name@,
        decreases rules@.len() - i,
    {
        if rules[i].name == rule.name {
            assert(has_rule(rules@, rule.name@));
            return;
        }
        i = i + 1;
    }
    rules.push(rule);
}

/// Joins the flags with single spaces.
fn join_space(fs: &Vec<String>) -> (r: String)
    ensures
        r@ == space_joined(views(fs@)),
{
    let mut r = String::new();
    let mut i: usize = 0;
    assert(views(fs@).subrange(0, 0) =~= Seq::<Seq<char>>::empty());
    while i < fs.len()
        invariant
            i <= fs@.len(),
            r@ == space_joined(views(fs@).subrange(0, i as int)),
        decreases fs@.len() - i,
    {
        let ghost done = views(fs@).subrange(0, i + 1);
        assert(done.drop_last() =~= views(fs@).subrange(0, i as int));
        if i > 0 {
            r.append(" ");
            proof {
                reveal_strlit(" ");
            }
        }
        r.append(fs[i].as_str());
        proof {
            if i == 0 {
                assert(r@ =~= done[0]);
            }
        }
        i = i + 1;
    }
    assert(views(fs@).subrange(0, i as int) =~= views(fs@));
    r
}

/// `compiler`, a space, and the flags joined by spaces.
fn command_line(compiler: &String, flags: &Vec<String>) -> (r: String)
    ensures
        r@ == rule_command(compiler@, views(flags@)),
{
    let mut r = compiler.clone();
    r.append(" ");
    let joined = join_space(flags);
    r.append(joined.as_str());
    proof {
        reveal_strlit(" ");
    }
    r
}

/// `prefix` followed by `text`.
fn prefixed(prefix: &str, text: &String) -> (r: String)
    ensures
        r@ == prefix@ + text@,
{
    let mut r = prefix.to_owned();
    r.append(text.as_str());
    r
}

/// Appends the owned strings of `items` to `v`.
fn push_all(v: &mut Vec<String>, items: &[&str])
    ensures
        views(final(v)@) == views(old(v)@) + items@.map_values(|s: &str| s@),
{
    let ghost start = views(v@);
    let mut i: usize = 0;
    while i < items.len()
        invariant
            i <= items@.len(),
            views(v@) == start + items@.map_values(|s: &str| s@).subrange(0, i as int),
        decreases items@.len() - i,
    {
        let ghost before = v@;
        v.push(items[i].to_owned());
        assert(views(v@) =~= views(before).push(items@[i as int]@));
        assert(items@.map_values(|s: &str| s@).subrange(0, i + 1) =~= items@.map_values(|s: &str| s@).subrange(0, i as int).push(items@[i as int]@));
        i = i + 1;
    }
    assert(items@.map_values(|s: &str| s@).subrange(0, i as int) =~= items@.map_values(|s: &str| s@));
}

/// A vector holding `s` alone.
fn single(s: String) -> (r: Vec<String>)
    ensures
        views(r@) == seq![s@],
        r@.len() == 1,
        r@[0]@ == s@,
{
    let mut r: Vec<String> = Vec::new();
    r.push(s);
    assert(views(r@) =~= seq![s@]);
    r
}

/// A copy of the strings of `v`.
fn copy_strings(v: &Vec<String>) -> (r: Vec<String>)
    ensures
        views(r@) == views(v@),
{
    let mut r: Vec<String> = Vec::new();
    let mut i: usize = 0;
    while i < v.len()
        invariant
            i <= v@.len(),
            views(r@) == views(v@).subrange(0, i as int),
        decreases v@.len() - i,
    {
        let ghost before = r@;
        r.push(v[i].clone());
        assert(views(r@) =~= views(before).push(v@[i as int]@));
        assert(views(v@).subrange(0, i + 1) =~= views(v@).subrange(0, i as int).push(v@[i as int]@));
        i = i + 1;
    }
    assert(views(v@).subrange(0, i as int) =~= views(v@));
    r
}

/// The rules after looking up a rule by name and adding it when absent, as
/// values.
pub open spec fn rules_after(
    old_rules: Seq<Rule>,
    new_rules: Seq<Rule>,
    name: Seq<char>,
    command: Seq<char>,
    description: Seq<char>,
    pool: Option<Seq<char>>,
) -> bool {
    if has_rule(old_rules, name) {
        new_rules == old_rules
    } else {
        &&& new_rules.len() == old_rules.len() + 1
        &&& new_rules.subrange(0, old_rules.len() as int) == old_rules
        &&& rule_view(new_rules.last()) == (name, command, description, pool)
    }
}

fn plain_rule(name: &String, command: String, description: &str, pool: Option<String>) -> (r: Rule)
    ensures
        r.name == name,
        r.command == command,
        r.description@ == description@,
        r.pool == pool,
        r.rspfile is None,
        r.rspfile_content is None,
{
    Rule {
        name: name.clone(),
        command,
        description: description.to_owned(),
        pool,
        rspfile: None,
        rspfile_content: None,
    }
}

impl NinjaGen {
    /// The AST-emission rule of `cmd`, added to `rules` on first use.
    fn ast_rule(rules: &mut Vec<Rule>, cmd: &CompileCommand) -> (r: String)
        ensures
            r@ == ast_rule_name(*cmd),
            rules_after(old(rules)@, final(rules)@, r@, rule_command(cmd.compiler@, ast_flags(views(cmd.flags@))), "AST $in"@, None),
    {
        let mut flags = copy_strings(&cmd.flags);
        push_all(&mut flags, &["-emit-ast", "-c", "$in", "-o", "$out"]);
        assert(views(flags@) =~= ast_flags(views(cmd.flags@)));
        let hash = vector_hash(flags.as_slice());
        let name = prefixed("ast_", &hash);
        let command = command_line(&cmd.compiler, &flags);
        let rule = plain_rule(&name, command, "AST $in", None);
        let ghost before = rules@;
        ensure_rule(rules, rule);
        proof {
            if !has_rule(before, name@) {
                assert(rules@.subrange(0, before.len() as int) =~= before);
            }
        }
        name
    }

    /// The precompiled-header rule of `cmd`, added to `rules` on first use.
    fn pch_rule(rules: &mut Vec<Rule>, cmd: &CompileCommand) -> (r: String)
        ensures
            r@ == pch_rule_name(*cmd),
            rules_after(old(rules)@, final(rules)@, r@, rule_command(cmd.compiler@, views(cmd.flags@)) + " -o $out -c $in"@, "PCH $in"@, None),
    {
        let hash = cmd.hash();
        let name = prefixed("pch_", &hash);
        let mut command = command_line(&cmd.compiler, &cmd.flags);
        command.append(" -o $out -c $in");
        let rule = plain_rule(&name, command, "PCH $in", None);
        let ghost before = rules@;
        ensure_rule(rules, rule);
        proof {
            if !has_rule(before, name@) {
                assert(rules@.subrange(0, before.len() as int) =~= before);
            }
        }
        name
    }

    /// The analysis rule of `cmd`, added to `rules` on first use; with `ctu`
    /// the analyzer is pointed at `outdir`.
    fn analyze_rule(rules: &mut Vec<Rule>, cmd: &CompileCommand, outdir: &String, ctu: bool) -> (r: String)
        ensures
            r@ == analyze_rule_name(*cmd, outdir@, ctu),
            rules_after(old(rules)@, final(rules)@, r@, rule_command(cmd.compiler@, analyze_flags(views(cmd.flags@), outdir@, ctu)), "ANALYZE $in"@, Some("analyze"@)),
    {
        let mut flags = copy_strings(&cmd.flags);
        push_all(&mut flags, &[
            "--analyze",
            "-Xclang",
            "-analyzer-config",
            "-Xclang",
            "expand-macros=true",
            "-Xclang",
            "-analyzer-config",
            "-Xclang",
            "aggressive-binary-operation-simplification=true",
            "-Xclang",
            "-analyzer-output=plist-multi-file",
        ]);
        let ghost with_config = views(flags@);
        if ctu {
            push_all(&mut flags, &[
                "-Xclang",
                "-analyzer-config",
                "-Xclang",
                "experimental-enable-naive-ctu-analysis=true",
                "-Xclang",
                "-analyzer-config",
                "-Xclang",
            ]);
            let dir_flag = prefixed("ctu-dir=", outdir);
            let ghost before = flags@;
            flags.push(dir_flag);
            assert(views(flags@) =~= views(before).push(dir_flag@));
            assert(views(flags@) =~= with_config + ctu_config(outdir@));
        } else {
            assert(views(flags@) =~= with_config + Seq::<Seq<char>>::empty());
        }
        push_all(&mut flags, &["-o", "$out", "$in"]);
        assert(views(flags@) =~= analyze_flags(views(cmd.flags@), outdir@, ctu));
        let hash = vector_hash(flags.as_slice());
        let name = prefixed("analyze_", &hash);
        let command = command_line(&cmd.compiler, &flags);
        let rule = plain_rule(&name, command, "ANALYZE $in", Some("analyze".to_owned()));
        let ghost before = rules@;
        ensure_rule(rules, rule);
        proof {
            if !has_rule(before, name@) {
                assert(rules@.subrange(0, before.len() as int) =~= before);
            }
        }
        name
    }
}

/// A compile command as values: directory, file, flags, compiler, output.
pub open spec fn command_view(c: CompileCommand) -> (Seq<char>, Seq<char>, Seq<Seq<char>>, Seq<char>, Seq<char>) {
    (c.directory@, c.file@, views(c.flags@), c.compiler@, c.output@)
}

pub open spec fn commands_view(cs: Seq<CompileCommand>) -> Seq<(Seq<char>, Seq<char>, Seq<Seq<char>>, Seq<char>, Seq<char>)> {
    cs.map_values(|c: CompileCommand| command_view(c))
}

/// The files of the commands.
pub open spec fn files_of(cs: Seq<(Seq<char>, Seq<char>, Seq<Seq<char>>, Seq<char>, Seq<char>)>) -> Seq<Seq<char>> {
    cs.map_values(|x: (Seq<char>, Seq<char>, Seq<Seq<char>>, Seq<char>, Seq<char>)| x.1)
}

/// `cs` with `c` in the place of the command for the same file, or added
/// at the end.
pub open spec fn insert_by_file(
    cs: Seq<(Seq<char>, Seq<char>, Seq<Seq<char>>, Seq<char>, Seq<char>)>,
    c: (Seq<char>, Seq<char>, Seq<Seq<char>>, Seq<char>, Seq<char>),
) -> Seq<(Seq<char>, Seq<char>, Seq<Seq<char>>, Seq<char>, Seq<char>)> {
    let k = first_index(files_of(cs), c.1);
    if k >= 0 {
        cs.update(k, c)
    } else {
        cs.push(c)
    }
}

/// Whether a command emits a precompiled header.
pub open spec fn emits_pch(flags: Seq<Seq<char>>) -> bool {
    first_index(flags, "-emit-pch"@) >= 0
}

/// The commands of a compilation database, one per source file: a later
/// command for a file replaces an earlier one in its place. With `pch_only`,
/// only the commands that emit a precompiled header are taken.
pub open spec fn by_file(
    cs: Seq<(Seq<char>, Seq<char>, Seq<Seq<char>>, Seq<char>, Seq<char>)>,
    pch_only: bool,
) -> Seq<(Seq<char>, Seq<char>, Seq<Seq<char>>, Seq<char>, Seq<char>)>
    decreases cs.len(),
{
    if cs.len() == 0 {
        cs
    } else {
        let prev = by_file(cs.drop_last(), pch_only);
        if pch_only && !emits_pch(cs.last().2) {
            prev
        } else {
            insert_by_file(prev, cs.last())
        }
    }
}

/// Adds `c` in the place of the command for the same file, or at the end.
fn insert_command(cs: &mut Vec<CompileCommand>, c: CompileCommand)
    ensures
        commands_view(final(cs)@) == insert_by_file(commands_view(old(cs)@), command_view(c)),
{
    let ghost files = files_of(commands_view(cs@));
    proof {
        lemma_first_index(files, c.file@);
    }
    assert(files.len() == cs@.len());
    let mut i: usize = 0;
    while i < cs.len()
        invariant
            i <= cs@.len(),
            files == files_of(commands_view(cs@)),
            cs@ == old(cs)@,
            files.len() == cs@.len(),
            forall|j: int| 0 <= j < i ==> (#[trigger] cs@[j]).file@ != c.file@,
            -1 <= first_index(files, c.file@) < files.len(),
            first_index(files, c.file@) >= 0 ==> files[first_index(files, c.file@)] == c.file@,
            forall|j: int| 0 <= j < files.len() && (first_index(files, c.file@) < 0 || j < first_index(files, c.file@)) ==> files[j] != c.file@,
        decreases cs@.len() - i,
    {
        if cs[i].file == c.file {
            assert(files[i as int] == c.file@);
            assert(forall|j: int| 0 <= j < i ==> files[j] != c.file@);
            assert(first_index(files, c.file@) == i);
            let ghost before = commands_view(cs@);
            cs.set(i, c);
            assert(commands_view(cs@) =~= before.update(i as int, command_view(c)));
            return;
        }
        assert(files[i as int] == cs@[i as int].file@);
        i = i + 1;
    }
    assert(forall|j: int| 0 <= j < files.len() ==> files[j] != c.file@);
    assert(first_index(files, c.file@) == -1);
    let ghost before = commands_view(cs@);
    cs.push(c);
    assert(commands_view(cs@) =~= before.push(command_view(c)));
}

/// A copy of a compile command.
fn copy_command(c: &CompileCommand) -> (r: CompileCommand)
    ensures
        command_view(r) == command_view(*c),
{
    CompileCommand {
        directory: c.directory.clone(),
        file: c.file.clone(),
        flags: copy_strings(&c.flags),
        compiler: c.compiler.clone(),
        output: c.output.clone(),
    }
}

/// The rule that extracts external definitions from an AST.
pub open spec fn cem_rule_view() -> (Seq<char>, Seq<char>, Seq<char>, Option<Seq<char>>) {
    ("cem"@, "$cem $in > $out"@, "CEM $in"@, None)
}

/// The rule that merges external-definition files through a response file.
pub open spec fn merge_rule_view() -> (Seq<char>, Seq<char>, Seq<char>, Option<Seq<char>>) {
    ("merge"@, "$merge_extdefs @extdefs.rsp $out"@, "MERGE $in"@, None)
}

fn variable(name: &str, value: &String) -> (r: Variable)
    ensures
        r.name@ == name@,
        r.value@ == value@,
{
    Variable { name: name.to_owned(), value: value.clone() }
}

impl NinjaGen {
    /// A generator over the compile commands `cmdb`, with the external
    /// definition extractor at `cem_command` and the merge tool at
    /// `merge_command`.
    pub fn new(opts: OptsClean, cmdb: Vec<CompileCommand>, cem_command: String, merge_command: String) -> (r: NinjaGen)
        ensures
            r.opts == opts,
            commands_view(r.commands@) == by_file(commands_view(cmdb@), false),
            commands_view(r.pch_commands@) == (if opts.detect_pch {
                by_file(commands_view(cmdb@), true)
            } else {
                Seq::empty()
            }),
            r.builds@.len() == 0,
            rules_view(r.rules@) == seq![cem_rule_view(), merge_rule_view()],
            r.rules@[1].rspfile matches Some(f) && f@ == "extdefs.rsp"@,
            r.rules@[1].rspfile_content matches Some(f) && f@ == "$in"@,
            r.variables@.len() == 3,
            r.variables@[0].name@ == "root"@ && r.variables@[0].value@ == opts.repo@,
            r.variables@[1].name@ == "cem"@ && r.variables@[1].value@ == cem_command@,
            r.variables@[2].name@ == "merge_extdefs"@ && r.variables@[2].value@ == merge_command@,
    {
        let mut variables: Vec<Variable> = Vec::new();
        variables.push(variable("root", &opts.repo));
        variables.push(variable("cem", &cem_command));
        variables.push(variable("merge_extdefs", &merge_command));
        let mut rules: Vec<Rule> = Vec::new();
        rules.push(Rule {
            name: "cem".to_owned(),
            command: "$cem $in > $out".to_owned(),
            description: "CEM $in".to_owned(),
            pool: None,
            rspfile: None,
            rspfile_content: None,
        });
        rules.push(Rule {
            name: "merge".to_owned(),
            command: "$merge_extdefs @extdefs.rsp $out".to_owned(),
            description: "MERGE $in".to_owned(),
            pool: None,
            rspfile: Some("extdefs.rsp".to_owned()),
            rspfile_content: Some("$in".to_owned()),
        });
        assert(rules_view(rules@) =~= seq![cem_rule_view(), merge_rule_view()]);
        let emit_pch = "-emit-pch".to_owned();
        let mut commands: Vec<CompileCommand> = Vec::new();
        let mut pch_commands: Vec<CompileCommand> = Vec::new();
        let ghost all = commands_view(cmdb@);
        let mut i: usize = 0;
        assert(all.subrange(0, 0) =~= Seq::<(Seq<char>, Seq<char>, Seq<Seq<char>>, Seq<char>, Seq<char>)>::empty());
        assert(commands_view(commands@) =~= Seq::<(Seq<char>, Seq<char>, Seq<Seq<char>>, Seq<char>, Seq<char>)>::empty());
        assert(commands_view(pch_commands@) =~= Seq::<(Seq<char>, Seq<char>, Seq<Seq<char>>, Seq<char>, Seq<char>)>::empty());
        while i < cmdb.len()
            invariant
                i <= cmdb@.len(),
                all == commands_view(cmdb@),
                emit_pch@ == "-emit-pch"@,
                commands_view(commands@) == by_file(all.subrange(0, i as int), false),
                commands_view(pch_commands@) == (if opts.detect_pch {
                    by_file(all.subrange(0, i as int), true)
                } else {
                    Seq::empty()
                }),
            decreases cmdb@.len() - i,
        {
            let ghost done = all.subrange(0, i + 1);
            assert(done.drop_last() =~= all.subrange(0, i as int));
            assert(done.last() == command_view(cmdb@[i as int]));
            let cmd = &cmdb[i];
            if opts.detect_pch && position_of(&cmd.flags, &emit_pch).is_some() {
                insert_command(&mut pch_commands, copy_command(cmd));
            }
            insert_command(&mut commands, copy_command(cmd));
            i = i + 1;
        }
        assert(all.subrange(0, i as int) =~= all);
        NinjaGen { opts, rules, builds: Vec::new(), variables, commands, pch_commands }
    }
}

/// The precompiled headers that the flags include: the flag two places
/// after each `-include-pch` (past the `-Xclang` that passes it on).
pub open spec fn pch_deps(flags: Seq<Seq<char>>) -> Seq<Seq<char>> {
    pch_deps_upto(flags, flags.len() as int)
}

pub open spec fn pch_deps_upto(flags: Seq<Seq<char>>, n: int) -> Seq<Seq<char>>
    decreases n,
{
    if n <= 0 {
        Seq::<Seq<char>>::empty()
    } else {
        let d = pch_deps_upto(flags, n - 1);
        if flags[n - 1] == "-include-pch"@ && n + 1 < flags.len() {
            d.push(flags[n + 1])
        } else {
            d
        }
    }
}

/// Collects the precompiled headers that the flags include.
fn collect_pch_deps(flags: &Vec<String>) -> (r: Vec<String>)
    ensures
        views(r@) == pch_deps(views(flags@)),
{
    let marker = "-include-pch".to_owned();
    let mut r: Vec<String> = Vec::new();
    let mut i: usize = 0;
    assert(views(r@) =~= pch_deps_upto(views(flags@), 0));
    while i < flags.len()
        invariant
            i <= flags@.len(),
            marker@ == "-include-pch"@,
            views(r@) == pch_deps_upto(views(flags@), i as int),
        decreases flags@.len() - i,
    {
        if flags[i] == marker && flags.len() > 2 && i < flags.len() - 2 {
            let ghost before = r@;
            r.push(flags[i + 2].clone());
            assert(views(r@) =~= views(before).push(flags@[i + 2]@));
        }
        i = i + 1;
    }
    r
}

/// `dir` joined with the relative path `name`.
pub open spec fn joined_path(dir: Seq<char>, name: Seq<char>) -> Seq<char> {
    dir + separator_after(dir) + name
}

/// The artifact of `file` in the output tree `category` with extension
/// `ext`, for an absolute output directory.
pub open spec fn artifact(o: OptsClean, file: Seq<char>, category: Seq<char>, ext: Seq<char>) -> Seq<char> {
    normalized_absolute(
        mirrored_path(joined_path(o.output_dir@, category), file, o.repo@, ext)->Some_0,
    )
}

/// Whether `file` lies under the repository root.
pub open spec fn under_repo(o: OptsClean, file: Seq<char>) -> bool {
    mirrored_path(joined_path(o.output_dir@, "ASTs"@), file, o.repo@, "ast"@) is Some
}

/// Whether `b` has one output, rule `rule`, and the given inputs.
pub open spec fn build_shape(b: Build, rule: Seq<char>, inputs: Seq<Seq<char>>, implicit: Seq<Seq<char>>) -> bool {
    &&& b.outputs@.len() == 1
    &&& b.rule@ == rule
    &&& views(b.inputs@) == inputs
    &&& views(b.implicit@) == implicit
}

/// The step that builds the precompiled header of `c`.
pub open spec fn pch_step(b: Build, c: CompileCommand) -> bool {
    &&& build_shape(b, pch_rule_name(c), seq![c.file@], Seq::empty())
    &&& is_rooted(c.output@) ==> b.outputs@[0]@ == normalized_absolute(c.output@)
}

/// The three steps of `c` at `at`: its AST from its source (after the
/// precompiled headers it includes), its external definitions from that
/// AST, and its analysis from its source after the merged map `merged`.
pub open spec fn file_steps(bs: Seq<Build>, at: int, c: CompileCommand, o: OptsClean, merged: Seq<char>) -> bool {
    let a = bs[at];
    let e = bs[at + 1];
    let r = bs[at + 2];
    &&& 0 <= at && at + 3 <= bs.len()
    &&& build_shape(a, ast_rule_name(c), seq![c.file@], pch_deps(views(c.flags@)))
    &&& build_shape(e, "cem"@, seq![a.outputs@[0]@], Seq::empty())
    &&& build_shape(r, analyze_rule_name(c, o.output_dir@, o.ctu), seq![c.file@], seq![merged])
    &&& is_rooted(o.output_dir@) ==> {
        &&& a.outputs@[0]@ == artifact(o, c.file@, "ASTs"@, "ast"@)
        &&& e.outputs@[0]@ == artifact(o, c.file@, "extdefs"@, "extdef"@)
        &&& r.outputs@[0]@ == artifact(o, c.file@, "reports"@, "plist"@)
    }
}

proof fn lemma_file_steps_stable(bs: Seq<Build>, bs2: Seq<Build>, at: int, c: CompileCommand, o: OptsClean, m: Seq<char>)
    requires
        file_steps(bs, at, c, o, m),
        bs.len() <= bs2.len(),
        bs2.subrange(0, bs.len() as int) == bs,
    ensures
        file_steps(bs2, at, c, o, m),
{
    assert(bs2[at] == bs[at] && bs2[at + 1] == bs[at + 1] && bs2[at + 2] == bs[at + 2]) by {
        assert(bs2.subrange(0, bs.len() as int)[at] == bs2[at]);
        assert(bs2.subrange(0, bs.len() as int)[at + 1] == bs2[at + 1]);
        assert(bs2.subrange(0, bs.len() as int)[at + 2] == bs2[at + 2]);
    }
}

proof fn lemma_has_rule_grows(a: Seq<Rule>, b: Seq<Rule>, name: Seq<char>)
    requires
        has_rule(a, name),
        a.len() <= b.len(),
        b.subrange(0, a.len() as int) == a,
    ensures
        has_rule(b, name),
{
    let w = choose|w: int| 0 <= w < a.len() && (#[trigger] a[w]).name@ == name;
    assert(b.subrange(0, a.len() as int)[w] == b[w]);
}

/// Whether `b` extends `a`.
pub open spec fn extends(a: Seq<Rule>, b: Seq<Rule>) -> bool {
    a.len() <= b.len() && b.subrange(0, a.len() as int) == a
}

proof fn lemma_extends_trans(a: Seq<Rule>, b: Seq<Rule>, c: Seq<Rule>)
    requires
        extends(a, b),
        extends(b, c),
    ensures
        extends(a, c),
{
    assert(c.subrange(0, a.len() as int) =~= a) by {
        assert forall|x: int| 0 <= x < a.len() implies c[x] == a[x] by {
            assert(c.subrange(0, b.len() as int)[x] == c[x]);
            assert(b.subrange(0, a.len() as int)[x] == b[x]);
        }
    }
}

proof fn lemma_rules_after_extends(
    a: Seq<Rule>,
    b: Seq<Rule>,
    name: Seq<char>,
    command: Seq<char>,
    description: Seq<char>,
    pool: Option<Seq<char>>,
)
    requires
        rules_after(a, b, name, command, description, pool),
    ensures
        extends(a, b),
        has_rule(b, name),
{
    if has_rule(a, name) {
        assert(b.subrange(0, a.len() as int) =~= a);
    } else {
        assert(b[b.len() - 1].name@ == name);
    }
}

fn make_build(output: String, rule: String, inputs: Vec<String>, implicit: Vec<String>) -> (r: Build)
    ensures
        views(r.outputs@) == seq![output@],
        r.outputs@.len() == 1,
        r.outputs@[0]@ == output@,
        r.rule == rule,
        r.inputs == inputs,
        r.implicit == implicit,
{
    Build { outputs: single(output), rule, inputs, implicit }
}

impl NinjaGen {
    /// Adds the three steps of the command at `i`; returns the path of its
    /// external definitions.
    fn file_steps(&mut self, i: usize, merged: &String) -> (r: Result<String, PathError>)
        requires
            i < old(self).commands@.len(),
        ensures
            final(self).opts == old(self).opts,
            final(self).commands == old(self).commands,
            final(self).pch_commands == old(self).pch_commands,
            final(self).variables == old(self).variables,
            extends(old(self).rules@, final(self).rules@),
            r matches Ok(e) ==> {
                &&& has_rule(final(self).rules@, ast_rule_name(old(self).commands@[i as int]))
                &&& has_rule(final(self).rules@, analyze_rule_name(old(self).commands@[i as int], old(self).opts.output_dir@, old(self).opts.ctu))
                &&& final(self).builds@.len() == old(self).builds@.len() + 3
                &&& final(self).builds@.subrange(0, old(self).builds@.len() as int) == old(self).builds@
                &&& file_steps(final(self).builds@, old(self).builds@.len() as int, old(self).commands@[i as int], old(self).opts, merged@)
                &&& final(self).builds@[old(self).builds@.len() + 1int].outputs@[0]@ == e@
                &&& under_repo(old(self).opts, old(self).commands@[i as int].file@)
            },
            r matches Err(PathError::PathNotUnderRepo { file, root }) ==> !under_repo(old(self).opts, old(self).commands@[i as int].file@)
                && file@ == old(self).commands@[i as int].file@ && root@ == old(self).opts.repo@,
            r matches Err(PathError::CurrentDirUnavailable) ==> !is_rooted(old(self).opts.output_dir@),
    {
        let ghost b0 = self.builds@;
        let ghost c = self.commands@[i as int];
        let ghost r0 = self.rules@;
        let ast_rule = Self::ast_rule(&mut self.rules, &self.commands[i]);
        proof {
            lemma_rules_after_extends(r0, self.rules@, ast_rule@, rule_command(c.compiler@, ast_flags(views(c.flags@))), "AST $in"@, None);
        }
        let ghost r1 = self.rules@;
        let ast_root = join_under(self.opts.output_dir.as_str(), &single("ASTs".to_owned()));
        assert(ast_root@ == joined_path(self.opts.output_dir@, "ASTs"@));
        let ast_filename = match get_output_filename(ast_root.as_str(), self.commands[i].file.as_str(), self.opts.repo.as_str(), "ast") {
            Ok(p) => p,
            Err(e) => {
                return Err(e);
            },
        };
        let deps = collect_pch_deps(&self.commands[i].flags);
        let a = make_build(ast_filename.clone(), ast_rule, single(self.commands[i].file.clone()), deps);
        let ghost ga = a;
        assert(build_shape(ga, ast_rule_name(c), seq![c.file@], pch_deps(views(c.flags@))));
        self.builds.push(a);
        let extdef_root = join_under(self.opts.output_dir.as_str(), &single("extdefs".to_owned()));
        assert(extdef_root@ == joined_path(self.opts.output_dir@, "extdefs"@));
        let extdef = match get_output_filename(extdef_root.as_str(), self.commands[i].file.as_str(), self.opts.repo.as_str(), "extdef") {
            Ok(p) => p,
            Err(e) => {
                return Err(e);
            },
        };
        let e = make_build(extdef.clone(), "cem".to_owned(), single(ast_filename), Vec::new());
        let ghost ge = e;
        assert(views(ge.implicit@) =~= Seq::<Seq<char>>::empty());
        assert(build_shape(ge, "cem"@, seq![ga.outputs@[0]@], Seq::empty()));
        self.builds.push(e);
        let analyze_rule = Self::analyze_rule(&mut self.rules, &self.commands[i], &self.opts.output_dir, self.opts.ctu);
        proof {
            lemma_rules_after_extends(r1, self.rules@, analyze_rule@, rule_command(c.compiler@, analyze_flags(views(c.flags@), self.opts.output_dir@, self.opts.ctu)), "ANALYZE $in"@, Some("analyze"@));
            lemma_extends_trans(r0, r1, self.rules@);
            lemma_has_rule_grows(r1, self.rules@, ast_rule_name(c));
        }
        let reports_root = join_under(self.opts.output_dir.as_str(), &single("reports".to_owned()));
        assert(reports_root@ == joined_path(self.opts.output_dir@, "reports"@));
        let report = match get_output_filename(reports_root.as_str(), self.commands[i].file.as_str(), self.opts.repo.as_str(), "plist") {
            Ok(p) => p,
            Err(e) => {
                return Err(e);
            },
        };
        let r = make_build(report, analyze_rule, single(self.commands[i].file.clone()), single(merged.clone()));
        self.builds.push(r);
        assert(self.builds@.subrange(0, b0.len() as int) =~= b0);
        let ghost bs = self.builds@;
        let ghost at = b0.len() as int;
        assert(bs[at] == ga && bs[at + 1] == ge);
        assert(build_shape(bs[at], ast_rule_name(c), seq![c.file@], pch_deps(views(c.flags@))));
        assert(build_shape(bs[at + 1], "cem"@, seq![bs[at].outputs@[0]@], Seq::empty()));
        assert(build_shape(bs[at + 2], analyze_rule_name(c, self.opts.output_dir@, self.opts.ctu), seq![c.file@], seq![merged@]));
        assert(file_steps(bs, at, c, self.opts, merged@));
        Ok(extdef)
    }
}

/// The graph that `generate` adds to the steps `b0` of generator `g`,
/// giving `bs`: a step per precompiled header, three steps per source file,
/// and the merge of all external definitions into the merged map.
pub open spec fn graph_built(b0: Seq<Build>, bs: Seq<Build>, g: NinjaGen) -> bool {
    let p = g.pch_commands@.len() as int;
    let n = g.commands@.len() as int;
    let s = b0.len() + p;
    let last = bs[s + 3 * n];
    let merged = last.outputs@[0]@;
    &&& bs.len() == s + 3 * n + 1
    &&& bs.subrange(0, b0.len() as int) == b0
    &&& forall|k: int| 0 <= k < p ==> pch_step(bs[b0.len() + k], #[trigger] g.pch_commands@[k])
    &&& forall|i: int| 0 <= i < n ==> file_steps(bs, s + 3 * i, #[trigger] g.commands@[i], g.opts, merged)
    &&& build_shape(last, "merge"@, Seq::new(n as nat, |i: int| bs[s + 3 * i + 1].outputs@[0]@), Seq::empty())
    &&& is_rooted(g.opts.output_dir@) ==> merged == normalized_absolute(joined_path(g.opts.output_dir@, "externalDefMap.txt"@))
}

/// Whether the rules `rs` define every rule that the steps of `g` name.
pub open spec fn rules_defined(rs: Seq<Rule>, g: NinjaGen) -> bool {
    &&& forall|k: int| 0 <= k < g.pch_commands@.len() ==> has_rule(rs, pch_rule_name(#[trigger] g.pch_commands@[k]))
    &&& forall|i: int| 0 <= i < g.commands@.len() ==> has_rule(rs, ast_rule_name(#[trigger] g.commands@[i]))
        && has_rule(rs, analyze_rule_name(g.commands@[i], g.opts.output_dir@, g.opts.ctu))
    &&& has_rule(rs, "cem"@) && has_rule(rs, "merge"@)
}

impl NinjaGen {
    /// Adds the build graph: the precompiled headers, the three steps of
    /// every source file, and the final merge step.
    pub fn generate(&mut self) -> (r: Result<(), PathError>)
        ensures
            final(self).opts == old(self).opts,
            final(self).commands == old(self).commands,
            final(self).pch_commands == old(self).pch_commands,
            final(self).variables == old(self).variables,
            r is Ok ==> graph_built(old(self).builds@, final(self).builds@, *old(self)),
            extends(old(self).rules@, final(self).rules@),
            r is Ok && has_rule(old(self).rules@, "cem"@) && has_rule(old(self).rules@, "merge"@) ==> rules_defined(final(self).rules@, *old(self)),
            r matches Err(PathError::PathNotUnderRepo { file, root }) ==> exists|i: int| 0 <= i < old(self).commands@.len()
                && !under_repo(old(self).opts, (#[trigger] old(self).commands@[i]).file@) && file@ == old(self).commands@[i].file@
                && root@ == old(self).opts.repo@,
            r matches Err(PathError::CurrentDirUnavailable) ==> !is_rooted(old(self).opts.output_dir@) || exists|k: int|
                0 <= k < old(self).pch_commands@.len() && !is_rooted((#[trigger] old(self).pch_commands@[k]).output@),
            (is_rooted(old(self).opts.output_dir@)
                && (forall|k: int| 0 <= k < old(self).pch_commands@.len() ==> is_rooted((#[trigger] old(self).pch_commands@[k]).output@))
                && (forall|i: int| 0 <= i < old(self).commands@.len() ==> under_repo(old(self).opts, (#[trigger] old(self).commands@[i]).file@)))
                ==> r is Ok,
    {
        let ghost g = *self;
        let ghost b0 = self.builds@;
        assert(self.rules@.subrange(0, self.rules@.len() as int) =~= self.rules@);
        let mut k: usize = 0;
        while k < self.pch_commands.len()
            invariant
                self.opts == g.opts,
                self.commands == g.commands,
                self.pch_commands == g.pch_commands,
                self.variables == g.variables,
                g == *old(self),
                b0 == g.builds@,
                k <= g.pch_commands@.len(),
                self.builds@.len() == b0.len() + k,
                self.builds@.subrange(0, b0.len() as int) == b0,
                forall|j: int| 0 <= j < k ==> pch_step(self.builds@[b0.len() + j], #[trigger] g.pch_commands@[j]),
                extends(g.rules@, self.rules@),
                forall|j: int| 0 <= j < k ==> has_rule(self.rules@, pch_rule_name(#[trigger] g.pch_commands@[j])),
                has_rule(g.rules@, "cem"@) ==> has_rule(self.rules@, "cem"@),
                has_rule(g.rules@, "merge"@) ==> has_rule(self.rules@, "merge"@),
            decreases g.pch_commands@.len() - k,
        {
            let ghost r0 = self.rules@;
            let rule = Self::pch_rule(&mut self.rules, &self.pch_commands[k]);
            proof {
                let c = g.pch_commands@[k as int];
                lemma_rules_after_extends(r0, self.rules@, rule@, rule_command(c.compiler@, views(c.flags@)) + " -o $out -c $in"@, "PCH $in"@, None);
                lemma_extends_trans(g.rules@, r0, self.rules@);
                assert forall|j: int| 0 <= j < k implies has_rule(self.rules@, pch_rule_name(#[trigger] g.pch_commands@[j])) by {
                    lemma_has_rule_grows(r0, self.rules@, pch_rule_name(g.pch_commands@[j]));
                }
                if has_rule(g.rules@, "cem"@) {
                    lemma_has_rule_grows(r0, self.rules@, "cem"@);
                }
                if has_rule(g.rules@, "merge"@) {
                    lemma_has_rule_grows(r0, self.rules@, "merge"@);
                }
            }
            let out = match absolutize(self.pch_commands[k].output.as_str()) {
                Some(o) => o,
                None => {
                    return Err(PathError::CurrentDirUnavailable);
                },
            };
            let b = make_build(out, rule, single(self.pch_commands[k].file.clone()), Vec::new());
            let ghost gb = b;
            assert(views(gb.implicit@) =~= Seq::<Seq<char>>::empty());
            assert(pch_step(gb, g.pch_commands@[k as int]));
            let ghost before = self.builds@;
            self.builds.push(b);
            assert(self.builds@.subrange(0, b0.len() as int) =~= b0);
            assert forall|j: int| 0 <= j < k + 1 implies pch_step(self.builds@[b0.len() + j], #[trigger] g.pch_commands@[j]) by {
                if j < k {
                    assert(self.builds@[b0.len() + j] == before[b0.len() + j]);
                }
            }
            k = k + 1;
        }
        let merged_path = join_under(self.opts.output_dir.as_str(), &single("externalDefMap.txt".to_owned()));
        assert(merged_path@ == joined_path(self.opts.output_dir@, "externalDefMap.txt"@));
        let merged = match absolutize(merged_path.as_str()) {
            Some(m) => m,
            None => {
                return Err(PathError::CurrentDirUnavailable);
            },
        };
        let ghost s = b0.len() + g.pch_commands@.len();
        let mut extdefs: Vec<String> = Vec::new();
        let mut i: usize = 0;
        while i < self.commands.len()
            invariant
                self.opts == g.opts,
                self.commands == g.commands,
                self.pch_commands == g.pch_commands,
                self.variables == g.variables,
                g == *old(self),
                b0 == g.builds@,
                s == b0.len() + g.pch_commands@.len(),
                i <= g.commands@.len(),
                self.builds@.len() == s + 3 * i,
                self.builds@.subrange(0, b0.len() as int) == b0,
                forall|j: int| 0 <= j < g.pch_commands@.len() ==> pch_step(self.builds@[b0.len() + j], #[trigger] g.pch_commands@[j]),
                forall|j: int| 0 <= j < i ==> file_steps(self.builds@, s + 3 * j, #[trigger] g.commands@[j], g.opts, merged@),
                extdefs@.len() == i,
                forall|j: int| 0 <= j < i ==> (#[trigger] extdefs@[j])@ == self.builds@[s + 3 * j + 1].outputs@[0]@,
                is_rooted(g.opts.output_dir@) ==> merged@ == normalized_absolute(joined_path(g.opts.output_dir@, "externalDefMap.txt"@)),
                extends(g.rules@, self.rules@),
                forall|j: int| 0 <= j < g.pch_commands@.len() ==> has_rule(self.rules@, pch_rule_name(#[trigger] g.pch_commands@[j])),
                forall|j: int| 0 <= j < i ==> has_rule(self.rules@, ast_rule_name(#[trigger] g.commands@[j]))
                    && has_rule(self.rules@, analyze_rule_name(g.commands@[j], g.opts.output_dir@, g.opts.ctu)),
                has_rule(g.rules@, "cem"@) ==> has_rule(self.rules@, "cem"@),
                has_rule(g.rules@, "merge"@) ==> has_rule(self.rules@, "merge"@),
            decreases g.commands@.len() - i,
        {
            let ghost before = self.builds@;
            let ghost r0 = self.rules@;
            match self.file_steps(i, &merged) {
                Ok(e) => {
                    proof {
                        lemma_extends_trans(g.rules@, r0, self.rules@);
                        assert forall|j: int| 0 <= j < g.pch_commands@.len() implies has_rule(self.rules@, pch_rule_name(#[trigger] g.pch_commands@[j])) by {
                            lemma_has_rule_grows(r0, self.rules@, pch_rule_name(g.pch_commands@[j]));
                        }
                        assert forall|j: int| 0 <= j < i implies has_rule(self.rules@, ast_rule_name(#[trigger] g.commands@[j]))
                            && has_rule(self.rules@, analyze_rule_name(g.commands@[j], g.opts.output_dir@, g.opts.ctu)) by {
                            lemma_has_rule_grows(r0, self.rules@, ast_rule_name(g.commands@[j]));
                            lemma_has_rule_grows(r0, self.rules@, analyze_rule_name(g.commands@[j], g.opts.output_dir@, g.opts.ctu));
                        }
                        if has_rule(g.rules@, "cem"@) {
                            lemma_has_rule_grows(r0, self.rules@, "cem"@);
                        }
                        if has_rule(g.rules@, "merge"@) {
                            lemma_has_rule_grows(r0, self.rules@, "merge"@);
                        }
                        assert forall|j: int| 0 <= j < i implies file_steps(self.builds@, s + 3 * j, #[trigger] g.commands@[j], g.opts, merged@) by {
                            lemma_file_steps_stable(before, self.builds@, s + 3 * j, g.commands@[j], g.opts, merged@);
                        }
                        assert forall|j: int| 0 <= j < g.pch_commands@.len() implies pch_step(self.builds@[b0.len() + j], #[trigger] g.pch_commands@[j]) by {
                            assert(self.builds@[b0.len() + j] == before[b0.len() + j]);
                        }
                        assert forall|j: int| 0 <= j < i implies (#[trigger] extdefs@[j])@ == self.builds@[s + 3 * j + 1].outputs@[0]@ by {
                            assert(self.builds@[s + 3 * j + 1] == before[s + 3 * j + 1]);
                        }
                        assert(self.builds@.subrange(0, b0.len() as int) =~= b0) by {
                            assert(self.builds@.subrange(0, before.len() as int) == before);
                            assert forall|x: int| 0 <= x < b0.len() implies self.builds@[x] == b0[x] by {
                                assert(self.builds@[x] == before[x]);
                                assert(before[x] == before.subrange(0, b0.len() as int)[x]);
                            }
                        }
                    }
                    extdefs.push(e);
                },
                Err(e) => {
                    proof {
                        lemma_extends_trans(g.rules@, r0, self.rules@);
                    }
                    return Err(e);
                },
            }
            i = i + 1;
        }
        let ghost n = g.commands@.len() as int;
        let ghost before = self.builds@;
        let m = make_build(merged, "merge".to_owned(), extdefs, Vec::new());
        let ghost gm = m;
        self.builds.push(m);
        proof {
            let bs = self.builds@;
            assert(bs[s + 3 * n] == gm);
            assert(bs.subrange(0, before.len() as int) =~= before);
            assert(views(gm.implicit@) =~= Seq::<Seq<char>>::empty());
            assert(views(gm.inputs@) =~= Seq::new(n as nat, |i: int| bs[s + 3 * i + 1].outputs@[0]@)) by {
                assert forall|j: int| 0 <= j < n implies #[trigger] views(gm.inputs@)[j] == bs[s + 3 * j + 1].outputs@[0]@ by {
                    assert(bs[s + 3 * j + 1] == before[s + 3 * j + 1]);
                }
            }
            assert(bs.subrange(0, b0.len() as int) =~= b0) by {
                assert forall|x: int| 0 <= x < b0.len() implies bs[x] == b0[x] by {
                    assert(bs[x] == before[x]);
                    assert(before[x] == before.subrange(0, b0.len() as int)[x]);
                }
            }
            assert forall|k: int| 0 <= k < g.pch_commands@.len() implies pch_step(bs[b0.len() + k], #[trigger] g.pch_commands@[k]) by {
                assert(bs[b0.len() + k] == before[b0.len() + k]);
            }
            assert forall|j: int| 0 <= j < n implies file_steps(bs, s + 3 * j, #[trigger] g.commands@[j], g.opts, merged@) by {
                lemma_file_steps_stable(before, bs, s + 3 * j, g.commands@[j], g.opts, merged@);
            }
        }
        Ok(())
    }
}

/// Rule names depend on the flags alone: two commands whose canonical flags
/// are equal get the same AST, precompiled-header and analysis rules.
pub proof fn lemma_same_flags_same_rules(c1: CompileCommand, c2: CompileCommand, outdir: Seq<char>, ctu: bool)
    requires
        views(c1.flags@) == views(c2.flags@),
    ensures
        ast_rule_name(c1) == ast_rule_name(c2),
        pch_rule_name(c1) == pch_rule_name(c2),
        analyze_rule_name(c1, outdir, ctu) == analyze_rule_name(c2, outdir, ctu),
{
}

} // verus!
