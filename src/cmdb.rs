//! Compilation-database records and their canonical compile commands.
use vstd::prelude::*;
use crate::canon::{
    canonical_parts, canonicalize, lemma_bare_file_removed, lemma_markers_removed, RecordError,
};
use crate::text::{
    lacks, lemma_split_on_single, lemma_split_on_spaced, spaced, split_char, split_on, views,
};
use crate::utils::{flags_hash, vector_hash};

verus! {

/// One record of a compilation database, as it is stored.
#[derive(Debug, Clone, PartialEq)]
pub struct RawCompileCommand {
    pub directory: String,
    pub command: Option<String>,
    pub arguments: Option<Vec<String>>,
    pub file: String,
}

impl Default for RawCompileCommand {
    fn default() -> (r: Self)
        ensures
            r.directory@.len() == 0,
            r.command is None,
            r.arguments is None,
            r.file@.len() == 0,
    {
        RawCompileCommand {
            directory: String::new(),
            command: None,
            arguments: None,
            file: String::new(),
        }
    }
}

/// A compile command in canonical form: the flags hold neither the output
/// marker and its value nor the compile-only marker and its value (or, with
/// no compile-only marker, the first bare occurrence of the source file).
#[derive(Debug, Clone, PartialEq)]
pub struct CompileCommand {
    pub directory: String,
    pub file: String,
    pub flags: Vec<String>,
    pub compiler: String,
    pub output: String,
}

impl Default for CompileCommand {
    fn default() -> (r: Self)
        ensures
            r.directory@.len() == 0,
            r.file@.len() == 0,
            r.flags@.len() == 0,
            r.compiler@.len() == 0,
            r.output@.len() == 0,
    {
        CompileCommand {
            directory: String::new(),
            file: String::new(),
            flags: Vec::new(),
            compiler: String::new(),
            output: String::new(),
        }
    }
}

/// The tokens of a record: its argument list verbatim, else its command
/// split at every single space.
pub open spec fn raw_tokens(cmd: RawCompileCommand) -> Option<Seq<Seq<char>>> {
    match cmd.arguments {
        Some(args) => Some(views(args@)),
        None => match cmd.command {
            Some(c) => Some(split_on(c@, ' ')),
            None => None,
        },
    }
}

/// The compiler, flags and output of a record, or why there are none.
pub open spec fn canonical_record(cmd: RawCompileCommand) -> Result<
    (Seq<char>, Seq<Seq<char>>, Seq<char>),
    RecordError,
> {
    match raw_tokens(cmd) {
        Some(tokens) => canonicalize(tokens, cmd.file@),
        None => Err(RecordError::MissingCommand),
    }
}

impl CompileCommand {
    /// Brings a compilation-database record into canonical form.
    pub fn from_raw(cmd: RawCompileCommand) -> (r: Result<Self, RecordError>)
        ensures
            match canonical_record(cmd) {
                Ok((c, f, o)) => r matches Ok(cc) && cc.directory == cmd.directory && cc.file
                    == cmd.file && cc.compiler@ == c && views(cc.flags@) == f && cc.output@ == o,
                Err(e) => r matches Err(x) && x == e,
            },
    {
        let tokens = match cmd.arguments {
            Some(args) => args,
            None => match &cmd.command {
                Some(c) => split_char(c.as_str(), ' '),
                None => {
                    return Err(RecordError::MissingCommand);
                },
            },
        };
        match canonical_parts(tokens, &cmd.file) {
            Ok((compiler, flags, output)) => Ok(
                CompileCommand { directory: cmd.directory, file: cmd.file, flags, compiler, output },
            ),
            Err(e) => Err(e),
        }
    }

    /// The hash of the canonical flags.
    pub fn hash(&self) -> (r: String)
        ensures
            r@ == flags_hash(views(self.flags@)),
    {
        vector_hash(self.flags.as_slice())
    }
}

/// A record whose command is `<cc> -o out.o -c in.c -fPIC`, for any
/// compiler `cc` without spaces, compiles with `cc`, names output `out.o`,
/// and keeps the flag `-fPIC` alone: both markers and their values go.
pub proof fn lemma_command_markers_removed(cmd: RawCompileCommand, cc: Seq<char>)
    requires
        lacks(cc, ' '),
        cmd.arguments is None,
        cmd.command matches Some(c) && c@ == cc + " -o out.o -c in.c -fPIC"@,
    ensures
        canonical_record(cmd) == Ok::<(Seq<char>, Seq<Seq<char>>, Seq<char>), RecordError>(
            (cc, seq!["-fPIC"@], "out.o"@),
        ),
{
    reveal_strlit(" -o out.o -c in.c -fPIC");
    reveal_strlit("-fPIC");
    reveal_strlit("out.o");
    let ts = seq![
        seq!['-', 'o'],
        seq!['o', 'u', 't', '.', 'o'],
        seq!['-', 'c'],
        seq!['i', 'n', '.', 'c'],
        seq!['-', 'f', 'P', 'I', 'C'],
    ];
    reveal_with_fuel(spaced, 6);
    assert(ts.drop_last() =~= seq![ts[0], ts[1], ts[2], ts[3]]);
    assert(ts.drop_last().drop_last() =~= seq![ts[0], ts[1], ts[2]]);
    assert(ts.drop_last().drop_last().drop_last() =~= seq![ts[0], ts[1]]);
    assert(ts.drop_last().drop_last().drop_last().drop_last() =~= seq![ts[0]]);
    assert(ts.drop_last().drop_last().drop_last().drop_last().drop_last() =~= Seq::<Seq<char>>::empty());
    assert(spaced(ts, ' ') =~= " -o out.o -c in.c -fPIC"@);
    lemma_split_on_single(cc, ' ');
    lemma_split_on_spaced(cc, ts, ' ');
    assert(seq![cc] + ts =~= seq![cc, ts[0], ts[1], ts[2], ts[3], ts[4]]);
    lemma_markers_removed(cc, cmd.file@);
    assert("-fPIC"@ =~= seq!['-', 'f', 'P', 'I', 'C']);
    assert("out.o"@ =~= seq!['o', 'u', 't', '.', 'o']);
    assert(seq!["-fPIC"@] =~= seq![seq!['-', 'f', 'P', 'I', 'C']]);
}

/// A record whose command is `<cc> -o out.o -fPIC in.c` and whose file is
/// `in.c` keeps the flag `-fPIC` alone: without a compile-only marker the
/// bare source file goes instead.
pub proof fn lemma_command_bare_file_removed(cmd: RawCompileCommand, cc: Seq<char>)
    requires
        lacks(cc, ' '),
        cmd.arguments is None,
        cmd.command matches Some(c) && c@ == cc + " -o out.o -fPIC in.c"@,
        cmd.file@ == "in.c"@,
    ensures
        canonical_record(cmd) == Ok::<(Seq<char>, Seq<Seq<char>>, Seq<char>), RecordError>(
            (cc, seq!["-fPIC"@], "out.o"@),
        ),
{
    reveal_strlit(" -o out.o -fPIC in.c");
    reveal_strlit("-fPIC");
    reveal_strlit("out.o");
    reveal_strlit("in.c");
    let ts = seq![
        seq!['-', 'o'],
        seq!['o', 'u', 't', '.', 'o'],
        seq!['-', 'f', 'P', 'I', 'C'],
        seq!['i', 'n', '.', 'c'],
    ];
    reveal_with_fuel(spaced, 5);
    assert(ts.drop_last() =~= seq![ts[0], ts[1], ts[2]]);
    assert(ts.drop_last().drop_last() =~= seq![ts[0], ts[1]]);
    assert(ts.drop_last().drop_last().drop_last() =~= seq![ts[0]]);
    assert(ts.drop_last().drop_last().drop_last().drop_last() =~= Seq::<Seq<char>>::empty());
    assert(spaced(ts, ' ') =~= " -o out.o -fPIC in.c"@);
    lemma_split_on_single(cc, ' ');
    lemma_split_on_spaced(cc, ts, ' ');
    assert(seq![cc] + ts =~= seq![cc, ts[0], ts[1], ts[2], ts[3]]);
    assert(cmd.file@ =~= seq!['i', 'n', '.', 'c']);
    lemma_bare_file_removed(cc);
    assert("-fPIC"@ =~= seq!['-', 'f', 'P', 'I', 'C']);
    assert("out.o"@ =~= seq!['o', 'u', 't', '.', 'o']);
    assert(seq!["-fPIC"@] =~= seq![seq!['-', 'f', 'P', 'I', 'C']]);
}

} // verus!
