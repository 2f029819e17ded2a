//! Character-level helpers shared by the parsers and formatters.
use vstd::prelude::*;

verus! {

/// The character views of a sequence of strings.
pub open spec fn views(v: Seq<String>) -> Seq<Seq<char>> {
    v.map_values(|t: String| t@)
}

/// The pieces of `s` between occurrences of `sep`; always at least one piece.
pub open spec fn split_on(s: Seq<char>, sep: char) -> Seq<Seq<char>>
    decreases s.len(),
{
    if s.len() == 0 {
        seq![Seq::<char>::empty()]
    } else {
        let prev = split_on(s.drop_last(), sep);
        if s.last() == sep {
            prev.push(Seq::<char>::empty())
        } else {
            prev.update(prev.len() - 1, prev.last().push(s.last()))
        }
    }
}

pub proof fn lemma_split_on_nonempty(s: Seq<char>, sep: char)
    ensures
        split_on(s, sep).len() >= 1,
    decreases s.len(),
{
    if s.len() > 0 {
        lemma_split_on_nonempty(s.drop_last(), sep);
    }
}

/// Whether `s` holds no `c`.
pub open spec fn lacks(s: Seq<char>, c: char) -> bool {
    forall|i: int| 0 <= i < s.len() ==> s[i] != c
}

/// Appending text without separators extends the last piece.
pub proof fn lemma_split_on_extend(y: Seq<char>, l: Seq<char>, sep: char)
    requires
        lacks(l, sep),
    ensures
        split_on(y + l, sep) == split_on(y, sep).update(
            split_on(y, sep).len() - 1,
            split_on(y, sep).last() + l,
        ),
    decreases l.len(),
{
    lemma_split_on_nonempty(y, sep);
    if l.len() == 0 {
        assert(y + l =~= y);
        assert(split_on(y, sep).last() + l =~= split_on(y, sep).last());
        assert(split_on(y, sep).update(split_on(y, sep).len() - 1, split_on(y, sep).last())
            =~= split_on(y, sep));
    } else {
        let l2 = l.drop_last();
        assert(lacks(l2, sep));
        lemma_split_on_extend(y, l2, sep);
        assert((y + l).drop_last() =~= y + l2);
        assert((y + l).last() == l.last());
        let sy = split_on(y, sep);
        assert((sy.last() + l2).push(l.last()) =~= sy.last() + l);
        assert(split_on(y + l, sep) =~= sy.update(sy.len() - 1, sy.last() + l));
    }
}

/// A separator at the end starts a new, empty piece.
pub proof fn lemma_split_on_sep(y: Seq<char>, sep: char)
    ensures
        split_on(y + seq![sep], sep) == split_on(y, sep).push(Seq::<char>::empty()),
{
    assert((y + seq![sep]).drop_last() =~= y);
}

/// No piece holds the separator.
pub proof fn lemma_split_on_pieces(s: Seq<char>, sep: char)
    ensures
        forall|k: int| 0 <= k < split_on(s, sep).len() ==> lacks(#[trigger] split_on(s, sep)[k], sep),
    decreases s.len(),
{
    if s.len() > 0 {
        lemma_split_on_pieces(s.drop_last(), sep);
        lemma_split_on_nonempty(s.drop_last(), sep);
        let prev = split_on(s.drop_last(), sep);
        if s.last() != sep {
            let last = prev.last().push(s.last());
            assert(lacks(prev[prev.len() - 1], sep));
            assert(lacks(last, sep));
            assert forall|k: int| 0 <= k < split_on(s, sep).len() implies lacks(#[trigger] split_on(s, sep)[k], sep) by {
                if k < prev.len() - 1 {
                    assert(split_on(s, sep)[k] == prev[k]);
                }
            }
        } else {
            assert forall|k: int| 0 <= k < split_on(s, sep).len() implies lacks(#[trigger] split_on(s, sep)[k], sep) by {
                if k < prev.len() {
                    assert(split_on(s, sep)[k] == prev[k]);
                }
            }
        }
    }
}

/// Each token preceded by `sep`, one after the other.
pub open spec fn spaced(ts: Seq<Seq<char>>, sep: char) -> Seq<char>
    decreases ts.len(),
{
    if ts.len() == 0 {
        Seq::<char>::empty()
    } else {
        spaced(ts.drop_last(), sep) + seq![sep] + ts.last()
    }
}

/// Splitting text followed by separated tokens gives the pieces of the
/// text and then the tokens.
pub proof fn lemma_split_on_spaced(y: Seq<char>, ts: Seq<Seq<char>>, sep: char)
    requires
        forall|i: int| 0 <= i < ts.len() ==> lacks(#[trigger] ts[i], sep),
    ensures
        split_on(y + spaced(ts, sep), sep) == split_on(y, sep) + ts,
    decreases ts.len(),
{
    if ts.len() == 0 {
        assert(y + spaced(ts, sep) =~= y);
        assert(split_on(y, sep) + ts =~= split_on(y, sep));
    } else {
        let t2 = ts.drop_last();
        assert forall|i: int| 0 <= i < t2.len() implies lacks(#[trigger] t2[i], sep) by {
            assert(t2[i] == ts[i]);
        }
        lemma_split_on_spaced(y, t2, sep);
        let z = y + spaced(t2, sep);
        assert(y + spaced(ts, sep) =~= (z + seq![sep]) + ts.last());
        assert(lacks(ts[ts.len() - 1], sep));
        lemma_split_on_extend(z + seq![sep], ts.last(), sep);
        lemma_split_on_sep(z, sep);
        let sz = split_on(z, sep);
        assert(Seq::<char>::empty() + ts.last() =~= ts.last());
        assert(sz.push(Seq::<char>::empty()).update(sz.len() as int, ts.last()) =~= sz.push(ts.last()));
        assert((split_on(y, sep) + t2).push(ts.last()) =~= split_on(y, sep) + ts);
    }
}

/// Text without separators is a single piece.
pub proof fn lemma_split_on_single(y: Seq<char>, sep: char)
    requires
        lacks(y, sep),
    ensures
        split_on(y, sep) == seq![y],
{
    let e = Seq::<char>::empty();
    lemma_split_on_extend(e, y, sep);
    assert(e + y =~= y);
    assert(split_on(e, sep) == seq![e]);
    assert(e + y =~= y);
    assert(seq![e].update(0, e + y) =~= seq![y]);
}

/// The characters of `s`, in order.
pub fn chars_of(s: &str) -> (r: Vec<char>)
    ensures
        r@ == s@,
{
    let mut r: Vec<char> = Vec::new();
    for c in it: s.chars()
        invariant
            it.seq() == s@,
            r@ == it.seq().subrange(0, it.index() as int),
    {
        r.push(c);
    }
    r
}

/// An owned copy of the characters `from..to` of `s`.
pub fn substring(s: &str, from: usize, to: usize) -> (r: String)
    requires
        from <= to <= s@.len(),
    ensures
        r@ == s@.subrange(from as int, to as int),
{
    let piece = s.substring_char(from, to);
    piece.to_owned()
}

/// Splits `s` at every occurrence of `sep`, keeping empty pieces.
pub fn split_char(s: &str, sep: char) -> (r: Vec<String>)
    ensures
        views(r@) == split_on(s@, sep),
{
    let cs = chars_of(s);
    let n = cs.len();
    let mut r: Vec<String> = Vec::new();
    let mut start: usize = 0;
    let mut i: usize = 0;
    assert(views(r@) =~= Seq::<Seq<char>>::empty());
    assert(s@.subrange(0, 0) =~= Seq::<char>::empty());
    assert(split_on(Seq::<char>::empty(), sep) == seq![Seq::<char>::empty()]);
    assert(views(r@).push(s@.subrange(0, 0)) =~= split_on(s@.subrange(0, 0), sep));
    while i < n
        invariant
            cs@ == s@,
            n == cs.len(),
            start <= i <= n,
            views(r@).push(s@.subrange(start as int, i as int)) == split_on(
                s@.subrange(0, i as int),
                sep,
            ),
        decreases n - i,
    {
        let ghost prefix = s@.subrange(0, i as int);
        let ghost next = s@.subrange(0, i + 1);
        assert(next.drop_last() == prefix);
        if cs[i] == sep {
            let piece = substring(s, start, i);
            let ghost before = r@;
            r.push(piece);
            assert(views(r@) =~= views(before).push(piece@));
            start = i + 1;
            assert(s@.subrange(start as int, i + 1) =~= Seq::<char>::empty());
        } else {
            assert(s@.subrange(start as int, i + 1) =~= s@.subrange(start as int, i as int).push(
                cs@[i as int],
            ));
        }
        i = i + 1;
    }
    let last = substring(s, start, n);
    r.push(last);
    assert(s@.subrange(0, n as int) == s@);
    assert(views(r@) =~= views(r@.drop_last()).push(last@));
    r
}

} // verus!

verus! {

/// The digits of bases up to sixteen, lower case.
pub open spec fn digit_alphabet() -> Seq<char> {
    seq!['0', '1', '2', '3', '4', '5', '6', '7', '8', '9', 'a', 'b', 'c', 'd', 'e', 'f']
}

/// `n` written in base `base` without leading zeros.
pub open spec fn digits_in_base(n: nat, base: nat) -> Seq<char>
    recommends
        2 <= base <= 16,
    decreases n,
    via digits_in_base_decreases
{
    if n < base || base < 2 {
        seq![digit_alphabet()[n as int]]
    } else {
        digits_in_base(n / base, base).push(digit_alphabet()[(n % base) as int])
    }
}

#[via_fn]
proof fn digits_in_base_decreases(n: nat, base: nat) {
    if !(n < base || base < 2) {
        assert(n / base < n) by (nonlinear_arith)
            requires
                n >= base,
                base >= 2,
        ;
    }
}

/// `n` in decimal, as `{}` formats it.
pub open spec fn decimal(n: nat) -> Seq<char> {
    digits_in_base(n, 10)
}

/// `n` in lower-case hexadecimal, as `{:x}` formats it.
pub open spec fn hexadecimal(n: nat) -> Seq<char> {
    digits_in_base(n, 16)
}

/// The one-character string of digit `d`.
fn digit_str(d: u64) -> (r: &'static str)
    requires
        d < 16,
    ensures
        r@ == seq![digit_alphabet()[d as int]],
{
    let alphabet = "0123456789abcdef";
    proof {
        reveal_strlit("0123456789abcdef");
    }
    let r = alphabet.substring_char(d as usize, (d + 1) as usize);
    assert(r@ =~= seq![digit_alphabet()[d as int]]);
    r
}

/// Formats `n` in base `base` without leading zeros.
pub fn format_in_base(n: u64, base: u64) -> (r: String)
    requires
        2 <= base <= 16,
    ensures
        r@ == digits_in_base(n as nat, base as nat),
    decreases n,
{
    if n < base {
        digit_str(n).to_owned()
    } else {
        assert(n / base < n) by (nonlinear_arith)
            requires
                n >= base,
                base >= 2,
        ;
        let mut r = format_in_base(n / base, base);
        r.append(digit_str(n % base));
        r
    }
}

} // verus!
