//! Canonical form of a compiler invocation: the compiler, the remaining flags
//! without the output and compile-only markers, and the declared output.
use vstd::prelude::*;
use crate::text::views;

verus! {

/// Why a compilation-database record cannot be turned into a compile command.
#[derive(Debug, Clone, Copy, PartialEq, Eq, Structural)]
pub enum RecordError {
    /// Neither a command string nor an argument list is present.
    MissingCommand,
    /// The argument list is empty, so there is no compiler.
    EmptyCommand,
    /// The output marker or the compile-only marker is the last token.
    MissingFlagValue,
}

pub open spec fn output_marker() -> Seq<char> {
    seq!['-', 'o']
}

pub open spec fn compile_marker() -> Seq<char> {
    seq!['-', 'c']
}

/// Index of the first token equal to `t`, or -1 when there is none.
pub open spec fn first_index(toks: Seq<Seq<char>>, t: Seq<char>) -> int
    decreases toks.len(),
{
    if toks.len() == 0 {
        -1
    } else if toks[0] == t {
        0
    } else {
        let k = first_index(toks.drop_first(), t);
        if k < 0 {
            -1
        } else {
            k + 1
        }
    }
}

/// `toks` without the two tokens at `i` and `i + 1`.
pub open spec fn remove_pair(toks: Seq<Seq<char>>, i: int) -> Seq<Seq<char>> {
    toks.subrange(0, i) + toks.subrange(i + 2, toks.len() as int)
}

/// The compiler, the canonical flags and the output named by an invocation
/// whose tokens are `tokens`, compiling `file`.
pub open spec fn canonicalize(tokens: Seq<Seq<char>>, file: Seq<char>) -> Result<
    (Seq<char>, Seq<Seq<char>>, Seq<char>),
    RecordError,
> {
    if tokens.len() == 0 {
        Err(RecordError::EmptyCommand)
    } else {
        let rest = tokens.drop_first();
        let o = first_index(rest, output_marker());
        if o >= 0 && o + 1 >= rest.len() {
            Err(RecordError::MissingFlagValue)
        } else {
            let output = if o >= 0 {
                rest[o + 1]
            } else {
                Seq::<char>::empty()
            };
            let rest1 = if o >= 0 {
                remove_pair(rest, o)
            } else {
                rest
            };
            let c = first_index(rest1, compile_marker());
            if c >= 0 && c + 1 >= rest1.len() {
                Err(RecordError::MissingFlagValue)
            } else {
                let flags = if c >= 0 {
                    remove_pair(rest1, c)
                } else {
                    let k = first_index(rest1, file);
                    if k >= 0 {
                        rest1.remove(k)
                    } else {
                        rest1
                    }
                };
                Ok((tokens[0], flags, output))
            }
        }
    }
}

pub proof fn lemma_first_index(toks: Seq<Seq<char>>, t: Seq<char>)
    ensures
        -1 <= first_index(toks, t) < toks.len(),
        first_index(toks, t) >= 0 ==> toks[first_index(toks, t)] == t,
        forall|j: int| 0 <= j < toks.len() && (first_index(toks, t) < 0 || j < first_index(toks, t)) ==> toks[j] != t,
    decreases toks.len(),
{
    if toks.len() > 0 && toks[0] != t {
        lemma_first_index(toks.drop_first(), t);
        assert forall|j: int| 0 < j < toks.len() implies toks[j] == toks.drop_first()[j - 1] by {}
    }
}

/// Position of the first element of `v` equal to `t`.
pub fn position_of(v: &Vec<String>, t: &String) -> (r: Option<usize>)
    ensures
        match r {
            Some(i) => i < v.len() && first_index(views(v@), t@) == i,
            None => first_index(views(v@), t@) == -1,
        },
{
    proof {
        lemma_first_index(views(v@), t@);
    }
    let mut i: usize = 0;
    while i < v.len()
        invariant
            i <= v.len(),
            forall|j: int| 0 <= j < i ==> v@[j]@ != t@,
            -1 <= first_index(views(v@), t@) < v.len(),
            first_index(views(v@), t@) >= 0 ==> views(v@)[first_index(views(v@), t@)] == t@,
            forall|j: int| 0 <= j < v.len() && (first_index(views(v@), t@) < 0 || j < first_index(views(v@), t@)) ==> views(v@)[j] != t@,
        decreases v.len() - i,
    {
        if v[i] == *t {
            assert(views(v@)[i as int] == t@);
            assert(forall|j: int| 0 <= j < i ==> views(v@)[j] != t@);
            return Some(i);
        }
        i = i + 1;
    }
    None
}

/// Removes the two elements at `i` and `i + 1`.
fn remove_two(v: &mut Vec<String>, i: usize)
    requires
        i + 1 < old(v).len(),
    ensures
        views(final(v)@) == remove_pair(views(old(v)@), i as int),
{
    let ghost before = views(v@);
    v.remove(i);
    v.remove(i);
    assert(views(v@) =~= remove_pair(before, i as int));
}

/// Splits an invocation into its compiler, canonical flags and output.
pub fn canonical_parts(tokens: Vec<String>, file: &String) -> (r: Result<
    (String, Vec<String>, String),
    RecordError,
>)
    ensures
        match canonicalize(views(tokens@), file@) {
            Ok((c, f, o)) => r matches Ok((rc, rf, ro)) && rc@ == c && views(rf@) == f && ro@ == o,
            Err(e) => r == Err::<(String, Vec<String>, String), RecordError>(e),
        },
{
    if tokens.len() == 0 {
        return Err(RecordError::EmptyCommand);
    }
    let ghost toks = views(tokens@);
    let mut flags = tokens;
    let compiler = flags.remove(0);
    assert(views(flags@) =~= toks.drop_first());
    let out_marker = "-o".to_owned();
    let cc_marker = "-c".to_owned();
    proof {
        reveal_strlit("-o");
        reveal_strlit("-c");
        assert(out_marker@ =~= output_marker());
        assert(cc_marker@ =~= compile_marker());
    }
    let mut output = String::new();
    match position_of(&flags, &out_marker) {
        Some(i) => {
            if i == flags.len() - 1 {
                return Err(RecordError::MissingFlagValue);
            }
            output = flags[i + 1].clone();
            remove_two(&mut flags, i);
        },
        None => {},
    }
    match position_of(&flags, &cc_marker) {
        Some(i) => {
            if i == flags.len() - 1 {
                return Err(RecordError::MissingFlagValue);
            }
            remove_two(&mut flags, i);
        },
        None => {
            match position_of(&flags, file) {
                Some(k) => {
                    let ghost before = views(flags@);
                    flags.remove(k);
                    assert(views(flags@) =~= before.remove(k as int));
                },
                None => {},
            }
        },
    }
    Ok((compiler, flags, output))
}

/// With both markers present, the compiler is the first token, the output
/// is the token after `-o`, and the flags are the rest without `-o out.o`
/// and `-c in.c`, in order.
pub proof fn lemma_markers_removed(cc: Seq<char>, file: Seq<char>)
    ensures
        canonicalize(
            seq![cc, seq!['-', 'o'], seq!['o', 'u', 't', '.', 'o'], seq!['-', 'c'], seq!['i', 'n', '.', 'c'], seq!['-', 'f', 'P', 'I', 'C']],
            file,
        ) == Ok::<(Seq<char>, Seq<Seq<char>>, Seq<char>), RecordError>(
            (cc, seq![seq!['-', 'f', 'P', 'I', 'C']], seq!['o', 'u', 't', '.', 'o']),
        ),
{
    let o = seq!['-', 'o'];
    let out = seq!['o', 'u', 't', '.', 'o'];
    let c = seq!['-', 'c'];
    let inc = seq!['i', 'n', '.', 'c'];
    let f = seq!['-', 'f', 'P', 'I', 'C'];
    let tokens = seq![cc, o, out, c, inc, f];
    let rest = tokens.drop_first();
    assert(rest =~= seq![o, out, c, inc, f]);
    assert(rest[0] == output_marker());
    assert(first_index(rest, output_marker()) == 0);
    let rest1 = remove_pair(rest, 0);
    assert(rest1 =~= seq![c, inc, f]);
    assert(rest1[0] == compile_marker());
    assert(first_index(rest1, compile_marker()) == 0);
    assert(remove_pair(rest1, 0) =~= seq![f]);
}

/// Without a compile-only marker, the first bare occurrence of the source
/// file is removed instead.
pub proof fn lemma_bare_file_removed(cc: Seq<char>)
    ensures
        canonicalize(
            seq![cc, seq!['-', 'o'], seq!['o', 'u', 't', '.', 'o'], seq!['-', 'f', 'P', 'I', 'C'], seq!['i', 'n', '.', 'c']],
            seq!['i', 'n', '.', 'c'],
        ) == Ok::<(Seq<char>, Seq<Seq<char>>, Seq<char>), RecordError>(
            (cc, seq![seq!['-', 'f', 'P', 'I', 'C']], seq!['o', 'u', 't', '.', 'o']),
        ),
{
    let o = seq!['-', 'o'];
    let out = seq!['o', 'u', 't', '.', 'o'];
    let inc = seq!['i', 'n', '.', 'c'];
    let f = seq!['-', 'f', 'P', 'I', 'C'];
    let tokens = seq![cc, o, out, f, inc];
    let rest = tokens.drop_first();
    assert(rest =~= seq![o, out, f, inc]);
    assert(rest[0] == output_marker());
    assert(first_index(rest, output_marker()) == 0);
    let rest1 = remove_pair(rest, 0);
    assert(rest1 =~= seq![f, inc]);
    assert(rest1[0] != compile_marker());
    assert(rest1.drop_first() =~= seq![inc]);
    assert(rest1.drop_first()[0] != compile_marker());
    assert(rest1.drop_first().drop_first() =~= Seq::<Seq<char>>::empty());
    assert(first_index(rest1.drop_first().drop_first(), compile_marker()) == -1);
    assert(first_index(rest1.drop_first(), compile_marker()) == -1);
    assert(first_index(rest1, compile_marker()) == -1);
    assert(rest1[0] != inc);
    assert(first_index(rest1.drop_first(), inc) == 0);
    assert(first_index(rest1, inc) == 1);
    assert(rest1.remove(1) =~= seq![f]);
}

} // verus!
