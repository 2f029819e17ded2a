//! Merging external-definition maps: response-file expansion, line
//! splitting, parsing and first-wins deduplication by key.
use vstd::prelude::*;
use vstd::hash_set::StringHashSet;
use crate::extdef::{
    is_blank, is_digits, lemma_decimal_digits, lemma_parsed_length, lemma_parsed_parts, lemma_round_trip,
    line_spec, parse_line, parse_spec, utf8_len, CodecError, ExtDefMapping,
};
use crate::text::{
    chars_of, lacks, lemma_split_on_extend, lemma_split_on_nonempty, lemma_split_on_pieces,
    lemma_split_on_sep, split_char, split_on, substring, views,
};
use crate::extdef::decimal_of_length;

verus! {

/// Whether `c` has the Unicode White_Space property.
pub open spec fn is_white_space(c: char) -> bool {
    let v = c as u32;
    (0x9 <= v <= 0xd) || v == 0x20 || v == 0x85 || v == 0xa0 || v == 0x1680 || (0x2000 <= v
        <= 0x200a) || v == 0x2028 || v == 0x2029 || v == 0x202f || v == 0x205f || v == 0x3000
}

/// Whether `c` has the Unicode White_Space property.
fn white_space(c: char) -> (r: bool)
    ensures
        r == is_white_space(c),
{
    let v = c as u32;
    (0x9 <= v && v <= 0xd) || v == 0x20 || v == 0x85 || v == 0xa0 || v == 0x1680 || (0x2000 <= v
        && v <= 0x200a) || v == 0x2028 || v == 0x2029 || v == 0x202f || v == 0x205f || v == 0x3000
}

/// The maximal runs of non-white-space characters of `s`, in order.
pub open spec fn words(s: Seq<char>) -> Seq<Seq<char>>
    decreases s.len(),
{
    if s.len() == 0 {
        Seq::<Seq<char>>::empty()
    } else {
        let w = words(s.drop_last());
        if is_white_space(s.last()) {
            w
        } else if s.len() >= 2 && !is_white_space(s[s.len() - 2]) {
            w.update(w.len() - 1, w.last().push(s.last()))
        } else {
            w.push(seq![s.last()])
        }
    }
}

/// Splits `text` into the words between white space.
pub fn split_words(text: &str) -> (r: Vec<String>)
    ensures
        views(r@) == words(text@),
{
    let cs = chars_of(text);
    let n = cs.len();
    let mut r: Vec<String> = Vec::new();
    let mut start: usize = 0;
    let mut i: usize = 0;
    assert(text@.subrange(0, 0) =~= Seq::<char>::empty());
    assert(views(r@) =~= Seq::<Seq<char>>::empty());
    while i < n
        invariant
            cs@ == text@,
            n == cs@.len(),
            start <= i <= n,
            (i > 0 && !is_white_space(text@[i - 1])) ==> start < i,
            !(i > 0 && !is_white_space(text@[i - 1])) ==> start == i,
            words(text@.subrange(0, i as int)) == (if start < i {
                views(r@).push(text@.subrange(start as int, i as int))
            } else {
                views(r@)
            }),
        decreases n - i,
    {
        let ghost prefix = text@.subrange(0, i + 1);
        assert(prefix.drop_last() =~= text@.subrange(0, i as int));
        assert(prefix.last() == text@[i as int]);
        if white_space(cs[i]) {
            if start < i {
                let piece = substring(text, start, i);
                let ghost before = r@;
                r.push(piece);
                assert(views(r@) =~= views(before).push(piece@));
            }
            start = i + 1;
        } else {
            if start < i {
                assert(prefix[i - 1] == text@[i - 1]);
                assert(text@.subrange(start as int, i + 1) =~= text@.subrange(start as int, i as int).push(text@[i as int]));
            } else {
                assert(text@.subrange(start as int, i + 1) =~= seq![text@[i as int]]);
            }
        }
        i = i + 1;
    }
    if start < n {
        let piece = substring(text, start, n);
        let ghost before = r@;
        r.push(piece);
        assert(views(r@) =~= views(before).push(piece@));
    }
    assert(text@.subrange(0, n as int) =~= text@);
    r
}

/// `t` without one trailing carriage return.
pub open spec fn strip_cr(t: Seq<char>) -> Seq<char> {
    if t.len() > 0 && t.last() == '\r' {
        t.drop_last()
    } else {
        t
    }
}

/// The lines of `s`: split at each line feed, a carriage return before the
/// line feed removed, and no empty line after a final line feed.
pub open spec fn lines(s: Seq<char>) -> Seq<Seq<char>> {
    let parts = split_on(s, '\n');
    let n = parts.len();
    let kept = if n > 0 && parts[n - 1].len() == 0 {
        n - 1
    } else {
        n as int
    };
    Seq::new(kept as nat, |i: int| if i < n - 1 { strip_cr(parts[i]) } else { parts[i] })
}

/// Splits `text` into lines.
pub fn split_lines(text: &str) -> (r: Vec<String>)
    ensures
        views(r@) == lines(text@),
{
    let parts = split_char(text, '\n');
    proof {
        crate::text::lemma_split_on_nonempty(text@, '\n');
    }
    let n = parts.len();
    let last_empty = chars_of(parts[n - 1].as_str()).len() == 0;
    let kept = if last_empty {
        n - 1
    } else {
        n
    };
    let mut r: Vec<String> = Vec::new();
    let mut i: usize = 0;
    while i < kept
        invariant
            kept <= n == parts@.len(),
            n > 0,
            views(parts@) == split_on(text@, '\n'),
            kept == lines(text@).len(),
            i <= kept,
            views(r@) == lines(text@).subrange(0, i as int),
        decreases kept - i,
    {
        let part = parts[i].as_str();
        assert(views(parts@)[i as int] == part@);
        let line = if i < n - 1 {
            let cs = chars_of(part);
            if cs.len() > 0 && cs[cs.len() - 1] == '\r' {
                let l = substring(part, 0, cs.len() - 1);
                assert(l@ =~= part@.drop_last());
                l
            } else {
                part.to_owned()
            }
        } else {
            part.to_owned()
        };
        assert(line@ == lines(text@)[i as int]);
        let ghost before = r@;
        r.push(line);
        assert(views(r@) =~= views(before).push(line@));
        assert(views(r@) =~= lines(text@).subrange(0, i + 1));
        i = i + 1;
    }
    assert(lines(text@).subrange(0, i as int) =~= lines(text@));
    r
}

/// The name of the response file that `t` refers to, when it starts with `@`.
pub open spec fn response_name(t: Seq<char>) -> Option<Seq<char>> {
    if t.len() > 0 && t[0] == '@' {
        Some(t.drop_first())
    } else {
        None
    }
}

/// The response file that an input token refers to, if any.
pub fn response_file_of(token: &str) -> (r: Option<String>)
    ensures
        match response_name(token@) {
            Some(n) => r matches Some(s) && s@ == n,
            None => r is None,
        },
{
    let cs = chars_of(token);
    if cs.len() > 0 && cs[0] == '@' {
        let name = substring(token, 1, cs.len());
        assert(name@ =~= token@.drop_first());
        Some(name)
    } else {
        None
    }
}

/// The input files that `tokens` name: a token `@f` stands for the words of
/// `contents[i]`, the text of response file `f`; any other token names itself.
pub open spec fn expand_spec(tokens: Seq<Seq<char>>, contents: Seq<Seq<char>>) -> Seq<Seq<char>>
    decreases tokens.len(),
{
    if tokens.len() == 0 {
        Seq::<Seq<char>>::empty()
    } else {
        let prev = expand_spec(tokens.drop_last(), contents);
        if response_name(tokens.last()) is Some {
            prev + words(contents[tokens.len() - 1])
        } else {
            prev.push(tokens.last())
        }
    }
}

/// Expands response-file tokens, one level deep; `contents[i]` is the text
/// of the response file that `tokens[i]` names (unused for other tokens).
pub fn expand_inputs(tokens: &Vec<String>, contents: &Vec<String>) -> (r: Vec<String>)
    requires
        tokens@.len() == contents@.len(),
    ensures
        views(r@) == expand_spec(views(tokens@), views(contents@)),
{
    let mut r: Vec<String> = Vec::new();
    let mut i: usize = 0;
    assert(views(tokens@).subrange(0, 0) =~= Seq::<Seq<char>>::empty());
    assert(views(r@) =~= Seq::<Seq<char>>::empty());
    while i < tokens.len()
        invariant
            tokens@.len() == contents@.len(),
            i <= tokens@.len(),
            views(r@) == expand_spec(views(tokens@).subrange(0, i as int), views(contents@)),
        decreases tokens@.len() - i,
    {
        let ghost done = views(tokens@).subrange(0, i + 1);
        assert(done.drop_last() =~= views(tokens@).subrange(0, i as int));
        assert(done.last() == tokens@[i as int]@);
        match response_file_of(tokens[i].as_str()) {
            Some(_) => {
                let ws = split_words(contents[i].as_str());
                let ghost before = views(r@);
                let mut j: usize = 0;
                while j < ws.len()
                    invariant
                        j <= ws@.len(),
                        views(r@) == before + views(ws@).subrange(0, j as int),
                    decreases ws@.len() - j,
                {
                    let ghost b2 = r@;
                    r.push(ws[j].clone());
                    assert(views(r@) =~= views(b2).push(ws@[j as int]@));
                    assert(views(ws@).subrange(0, j + 1) =~= views(ws@).subrange(0, j as int).push(ws@[j as int]@));
                    assert(views(r@) =~= before + views(ws@).subrange(0, j + 1));
                    j = j + 1;
                }
                assert(views(ws@).subrange(0, j as int) =~= views(ws@));
            },
            None => {
                let ghost before = r@;
                r.push(tokens[i].clone());
                assert(views(r@) =~= views(before).push(tokens@[i as int]@));
            },
        }
        i = i + 1;
    }
    assert(views(tokens@).subrange(0, i as int) =~= views(tokens@));
    r
}

/// A record as a value: length, key and path.
pub open spec fn record_of(m: ExtDefMapping) -> (nat, Seq<char>, Seq<char>) {
    (m.length as nat, m.usr@, m.path@)
}

pub open spec fn records(v: Seq<ExtDefMapping>) -> Seq<(nat, Seq<char>, Seq<char>)> {
    v.map_values(|m: ExtDefMapping| record_of(m))
}

/// The lines of all files, file after file.
pub open spec fn all_lines(files: Seq<Seq<char>>) -> Seq<Seq<char>>
    decreases files.len(),
{
    if files.len() == 0 {
        Seq::<Seq<char>>::empty()
    } else {
        all_lines(files.drop_last()) + lines(files.last())
    }
}

/// The records of the lines, or the error of the first line that holds none.
pub open spec fn parse_all(ls: Seq<Seq<char>>) -> Result<Seq<(nat, Seq<char>, Seq<char>)>, CodecError>
    decreases ls.len(),
{
    if ls.len() == 0 {
        Ok(Seq::<(nat, Seq<char>, Seq<char>)>::empty())
    } else {
        match parse_all(ls.drop_last()) {
            Err(e) => Err(e),
            Ok(rs) => match parse_spec(ls.last()) {
                Err(e) => Err(e),
                Ok(r) => Ok(rs.push(r)),
            },
        }
    }
}

/// Whether some record of `rs` has key `u`.
pub open spec fn has_key(rs: Seq<(nat, Seq<char>, Seq<char>)>, u: Seq<char>) -> bool {
    exists|i: int| 0 <= i < rs.len() && (#[trigger] rs[i]).1 == u
}

/// The records of `rs` whose key no earlier record has, in order.
pub open spec fn dedup_first(rs: Seq<(nat, Seq<char>, Seq<char>)>) -> Seq<(nat, Seq<char>, Seq<char>)>
    decreases rs.len(),
{
    if rs.len() == 0 {
        rs
    } else {
        let d = dedup_first(rs.drop_last());
        if has_key(d, rs.last().1) {
            d
        } else {
            d.push(rs.last())
        }
    }
}

/// The merge of the files whose texts are `files`.
pub open spec fn merge_spec(files: Seq<Seq<char>>) -> Result<Seq<(nat, Seq<char>, Seq<char>)>, CodecError> {
    match parse_all(all_lines(files)) {
        Ok(rs) => Ok(dedup_first(rs)),
        Err(e) => Err(e),
    }
}

proof fn lemma_parse_all_err(ls: Seq<Seq<char>>, j: int, e: CodecError)
    requires
        0 <= j <= ls.len(),
        parse_all(ls.subrange(0, j)) == Err::<Seq<(nat, Seq<char>, Seq<char>)>, CodecError>(e),
    ensures
        parse_all(ls) == Err::<Seq<(nat, Seq<char>, Seq<char>)>, CodecError>(e),
    decreases ls.len() - j,
{
    if j < ls.len() {
        assert(ls.subrange(0, j + 1).drop_last() =~= ls.subrange(0, j));
        lemma_parse_all_err(ls, j + 1, e);
    } else {
        assert(ls.subrange(0, j) =~= ls);
    }
}

/// Merges the external-definition maps whose texts are `files`: every line
/// of every file is parsed, and of the records with one key only the first,
/// in file order and then line order, is kept.
pub fn merge_contents(files: &Vec<String>) -> (r: Result<Vec<ExtDefMapping>, CodecError>)
    ensures
        match merge_spec(views(files@)) {
            Ok(rs) => r matches Ok(v) && records(v@) == rs,
            Err(e) => r matches Err(x) && x == e,
        },
{
    let mut all: Vec<String> = Vec::new();
    let mut i: usize = 0;
    assert(views(files@).subrange(0, 0) =~= Seq::<Seq<char>>::empty());
    assert(views(all@) =~= Seq::<Seq<char>>::empty());
    while i < files.len()
        invariant
            i <= files@.len(),
            views(all@) == all_lines(views(files@).subrange(0, i as int)),
        decreases files@.len() - i,
    {
        let ghost done = views(files@).subrange(0, i + 1);
        assert(done.drop_last() =~= views(files@).subrange(0, i as int));
        let ls = split_lines(files[i].as_str());
        let ghost before = views(all@);
        let mut j: usize = 0;
        while j < ls.len()
            invariant
                j <= ls@.len(),
                views(all@) == before + views(ls@).subrange(0, j as int),
            decreases ls@.len() - j,
        {
            let ghost b2 = all@;
            all.push(ls[j].clone());
            assert(views(all@) =~= views(b2).push(ls@[j as int]@));
            assert(views(ls@).subrange(0, j + 1) =~= views(ls@).subrange(0, j as int).push(ls@[j as int]@));
            j = j + 1;
        }
        assert(views(ls@).subrange(0, j as int) =~= views(ls@));
        i = i + 1;
    }
    assert(views(files@).subrange(0, i as int) =~= views(files@));
    let ghost lines_all = views(all@);
    let mut out: Vec<ExtDefMapping> = Vec::new();
    let mut seen = StringHashSet::new();
    let ghost mut parsed = Seq::<(nat, Seq<char>, Seq<char>)>::empty();
    let mut k: usize = 0;
    assert(lines_all.subrange(0, 0) =~= Seq::<Seq<char>>::empty());
    assert(records(out@) =~= Seq::<(nat, Seq<char>, Seq<char>)>::empty());
    while k < all.len()
        invariant
            k <= all@.len(),
            lines_all == views(all@),
            lines_all == all_lines(views(files@)),
            parse_all(lines_all.subrange(0, k as int)) == Ok::<Seq<(nat, Seq<char>, Seq<char>)>, CodecError>(parsed),
            records(out@) == dedup_first(parsed),
            forall|u: Seq<char>| seen@.contains(u) <==> has_key(records(out@), u),
        decreases all@.len() - k,
    {
        let ghost upto = lines_all.subrange(0, k + 1);
        assert(upto.drop_last() =~= lines_all.subrange(0, k as int));
        assert(upto.last() == all@[k as int]@);
        match parse_line(all[k].as_str()) {
            Err(e) => {
                proof {
                    lemma_parse_all_err(lines_all, k + 1, e);
                }
                return Err(e);
            },
            Ok(m) => {
                let ghost rec = record_of(m);
                let ghost old_parsed = parsed;
                proof {
                    parsed = parsed.push(rec);
                    assert(parsed.drop_last() =~= old_parsed);
                    assert(parsed.last() == rec);
                }
                let ghost before = out@;
                if seen.insert(m.usr.clone()) {
                    assert(!has_key(records(before), rec.1));
                    out.push(m);
                    assert(records(out@) =~= records(before).push(rec));
                    assert forall|u: Seq<char>| seen@.contains(u) <==> has_key(records(out@), u) by {
                        if has_key(records(before), u) {
                            let w = choose|w: int| 0 <= w < records(before).len() && (#[trigger] records(before)[w]).1 == u;
                            assert(records(out@)[w] == records(before)[w]);
                        }
                        if u == rec.1 {
                            assert(records(out@)[records(before).len() as int] == rec);
                        }
                        if has_key(records(out@), u) && u != rec.1 {
                            let w = choose|w: int| 0 <= w < records(out@).len() && (#[trigger] records(out@)[w]).1 == u;
                            assert(records(before)[w] == records(out@)[w]);
                        }
                    }
                } else {
                    assert(has_key(records(out@), rec.1));
                }
            },
        }
        k = k + 1;
    }
    assert(lines_all.subrange(0, k as int) =~= lines_all);
    Ok(out)
}

/// Whether no two records of `rs` share a key.
pub open spec fn keys_unique(rs: Seq<(nat, Seq<char>, Seq<char>)>) -> bool {
    forall|i: int, j: int| 0 <= i < j < rs.len() ==> (#[trigger] rs[i]).1 != (#[trigger] rs[j]).1
}

/// Whether `rs[i]` has a key that no earlier record of `rs` has.
pub open spec fn first_at(rs: Seq<(nat, Seq<char>, Seq<char>)>, i: int) -> bool {
    forall|j: int| 0 <= j < i ==> (#[trigger] rs[j]).1 != rs[i].1
}

/// Whether `r` is a record of `rs` that no earlier record shares a key with.
pub open spec fn is_first_of_key(rs: Seq<(nat, Seq<char>, Seq<char>)>, r: (nat, Seq<char>, Seq<char>)) -> bool {
    exists|i: int| 0 <= i < rs.len() && rs[i] == r && #[trigger] first_at(rs, i)
}

/// Deduplication keeps exactly one record per key, and the record kept for a
/// key is the first record with that key in input order.
pub proof fn lemma_dedup_first(rs: Seq<(nat, Seq<char>, Seq<char>)>)
    ensures
        keys_unique(dedup_first(rs)),
        forall|u: Seq<char>| has_key(rs, u) <==> has_key(dedup_first(rs), u),
        forall|k: int| 0 <= k < dedup_first(rs).len() ==> is_first_of_key(rs, #[trigger] dedup_first(rs)[k]),
    decreases rs.len(),
{
    if rs.len() > 0 {
        let p = rs.drop_last();
        lemma_dedup_first(p);
        let d = dedup_first(p);
        let last = rs.last();
        assert forall|u: Seq<char>| has_key(rs, u) <==> has_key(p, u) || u == last.1 by {
            if has_key(rs, u) {
                let w = choose|w: int| 0 <= w < rs.len() && (#[trigger] rs[w]).1 == u;
                if w < p.len() {
                    assert(p[w] == rs[w]);
                }
            }
            if has_key(p, u) {
                let w = choose|w: int| 0 <= w < p.len() && (#[trigger] p[w]).1 == u;
                assert(rs[w] == p[w]);
            }
            if u == last.1 {
                assert(rs[rs.len() - 1].1 == u);
            }
        }
        if !has_key(d, last.1) {
            let d2 = d.push(last);
            assert(dedup_first(rs) == d2);
            assert forall|u: Seq<char>| has_key(d, u) || u == last.1 <==> has_key(d2, u) by {
                if has_key(d, u) {
                    let w = choose|w: int| 0 <= w < d.len() && (#[trigger] d[w]).1 == u;
                    assert(d2[w] == d[w]);
                }
                if u == last.1 {
                    assert(d2[d.len() as int].1 == u);
                }
                if has_key(d2, u) && u != last.1 {
                    let w = choose|w: int| 0 <= w < d2.len() && (#[trigger] d2[w]).1 == u;
                    assert(d[w] == d2[w]);
                }
            }
            assert forall|i: int, j: int| 0 <= i < j < d2.len() implies (#[trigger] d2[i]).1 != (#[trigger] d2[j]).1 by {
                if j == d.len() {
                    assert(d2[i] == d[i]);
                } else {
                    assert(d2[i] == d[i] && d2[j] == d[j]);
                }
            }
            assert forall|k: int| 0 <= k < d2.len() implies is_first_of_key(rs, #[trigger] d2[k]) by {
                if k < d.len() {
                    assert(d2[k] == d[k]);
                    assert(is_first_of_key(p, d[k]));
                    let i = choose|i: int| 0 <= i < p.len() && p[i] == d[k] && #[trigger] first_at(p, i);
                    assert(rs[i] == p[i]);
                    assert forall|j: int| 0 <= j < i implies (#[trigger] rs[j]).1 != rs[i].1 by {
                        assert(rs[j] == p[j]);
                    }
                    assert(first_at(rs, i));
                } else {
                    let i = rs.len() - 1;
                    assert forall|j: int| 0 <= j < i implies (#[trigger] rs[j]).1 != rs[i].1 by {
                        assert(rs[j] == p[j]);
                        if rs[j].1 == rs[i].1 {
                            assert(has_key(p, last.1));
                        }
                    }
                    assert(first_at(rs, i));
                }
            }
        } else {
            assert forall|k: int| 0 <= k < d.len() implies is_first_of_key(rs, #[trigger] d[k]) by {
                assert(is_first_of_key(p, d[k]));
                let i = choose|i: int| 0 <= i < p.len() && p[i] == d[k] && #[trigger] first_at(p, i);
                assert(rs[i] == p[i]);
                assert forall|j: int| 0 <= j < i implies (#[trigger] rs[j]).1 != rs[i].1 by {
                    assert(rs[j] == p[j]);
                }
                assert(first_at(rs, i));
            }
        }
    }
}

proof fn lemma_dedup_unique(rs: Seq<(nat, Seq<char>, Seq<char>)>)
    requires
        keys_unique(rs),
    ensures
        dedup_first(rs) == rs,
    decreases rs.len(),
{
    if rs.len() > 0 {
        let p = rs.drop_last();
        assert forall|i: int, j: int| 0 <= i < j < p.len() implies (#[trigger] p[i]).1 != (#[trigger] p[j]).1 by {
            assert(p[i] == rs[i] && p[j] == rs[j]);
        }
        lemma_dedup_unique(p);
        if has_key(p, rs.last().1) {
            let w = choose|w: int| 0 <= w < p.len() && (#[trigger] p[w]).1 == rs.last().1;
            assert(rs[w] == p[w]);
            assert(rs[w].1 == rs[rs.len() - 1].1);
        }
        assert(p.push(rs.last()) =~= rs);
    }
}

proof fn lemma_dedup_absorbs(x: Seq<(nat, Seq<char>, Seq<char>)>, y: Seq<(nat, Seq<char>, Seq<char>)>)
    ensures
        dedup_first(dedup_first(x) + y) == dedup_first(x + y),
    decreases y.len(),
{
    if y.len() == 0 {
        lemma_dedup_first(x);
        lemma_dedup_unique(dedup_first(x));
        assert(dedup_first(x) + y =~= dedup_first(x));
        assert(x + y =~= x);
    } else {
        lemma_dedup_absorbs(x, y.drop_last());
        assert((dedup_first(x) + y).drop_last() =~= dedup_first(x) + y.drop_last());
        assert((x + y).drop_last() =~= x + y.drop_last());
    }
}

/// Merging in two steps gives what merging in one pass gives: merging the
/// records of `a` and `b`, then the result with those of `c`, keeps the same
/// records, in the same order, as merging the records of `a`, `b` and `c`.
pub proof fn lemma_merge_associative(
    a: Seq<(nat, Seq<char>, Seq<char>)>,
    b: Seq<(nat, Seq<char>, Seq<char>)>,
    c: Seq<(nat, Seq<char>, Seq<char>)>,
)
    ensures
        dedup_first(dedup_first(a + b) + c) == dedup_first(a + b + c),
{
    lemma_dedup_absorbs(a + b, c);
}

/// Merging is idempotent: merging an already merged record list changes
/// nothing.
pub proof fn lemma_merge_idempotent(rs: Seq<(nat, Seq<char>, Seq<char>)>)
    ensures
        dedup_first(dedup_first(rs)) == dedup_first(rs),
{
    lemma_dedup_first(rs);
    lemma_dedup_unique(dedup_first(rs));
}

proof fn lemma_expand_plain(tokens: Seq<Seq<char>>, contents: Seq<Seq<char>>)
    requires
        forall|i: int| 0 <= i < tokens.len() ==> response_name(#[trigger] tokens[i]) is None,
    ensures
        expand_spec(tokens, contents) == tokens,
    decreases tokens.len(),
{
    if tokens.len() > 0 {
        let p = tokens.drop_last();
        assert forall|i: int| 0 <= i < p.len() implies response_name(#[trigger] p[i]) is None by {
            assert(p[i] == tokens[i]);
        }
        lemma_expand_plain(p, contents);
        assert(response_name(tokens[tokens.len() - 1]) is None);
        assert(p.push(tokens.last()) =~= tokens);
    }
}

/// A response file stands for the paths it lists: the token `@name` whose
/// response file holds the text `text` expands to the same input files as
/// the words of `text` given directly (when none of them starts with `@`).
pub proof fn lemma_response_file_expansion(
    token: Seq<char>,
    text: Seq<char>,
    unused: Seq<Seq<char>>,
)
    requires
        response_name(token) is Some,
        forall|i: int| 0 <= i < words(text).len() ==> response_name(#[trigger] words(text)[i]) is None,
    ensures
        expand_spec(seq![token], seq![text]) == expand_spec(words(text), unused),
        expand_spec(seq![token], seq![text]) == words(text),
{
    lemma_expand_plain(words(text), unused);
    let t = seq![token];
    assert(t.drop_last() =~= Seq::<Seq<char>>::empty());
    assert(expand_spec(t.drop_last(), seq![text]) == Seq::<Seq<char>>::empty());
    assert(Seq::<Seq<char>>::empty() + words(text) =~= words(text));
}

/// The text of a map: one line per record, each ended by a line feed.
pub open spec fn render_spec(rs: Seq<(nat, Seq<char>, Seq<char>)>) -> Seq<char>
    decreases rs.len(),
{
    if rs.len() == 0 {
        Seq::<char>::empty()
    } else {
        render_spec(rs.drop_last()) + line_spec(rs.last().1, rs.last().2) + seq!['\n']
    }
}

/// Whether every record's length is the byte length of its key.
pub open spec fn all_wf(rs: Seq<(nat, Seq<char>, Seq<char>)>) -> bool {
    forall|i: int| 0 <= i < rs.len() ==> (#[trigger] rs[i]).0 == utf8_len(rs[i].1) && rs[i].0 <= usize::MAX
}

proof fn lemma_parse_all_wf(ls: Seq<Seq<char>>)
    requires
        parse_all(ls) is Ok,
    ensures
        all_wf(parse_all(ls)->Ok_0),
    decreases ls.len(),
{
    if ls.len() > 0 {
        lemma_parse_all_wf(ls.drop_last());
        lemma_parsed_length(ls.last());
        let rs = parse_all(ls)->Ok_0;
        let prev = parse_all(ls.drop_last())->Ok_0;
        assert forall|i: int| 0 <= i < rs.len() implies (#[trigger] rs[i]).0 == utf8_len(rs[i].1) && rs[i].0 <= usize::MAX by {
            if i < prev.len() {
                assert(rs[i] == prev[i]);
            }
        }
    }
}

/// Writes the records as the text of a map.
pub fn render(recs: &Vec<ExtDefMapping>) -> (r: String)
    requires
        forall|i: int| 0 <= i < recs@.len() ==> utf8_len((#[trigger] recs@[i]).usr@) <= usize::MAX,
    ensures
        r@ == render_spec(records(recs@)),
{
    let mut r = String::new();
    let mut i: usize = 0;
    assert(records(recs@).subrange(0, 0) =~= Seq::<(nat, Seq<char>, Seq<char>)>::empty());
    while i < recs.len()
        invariant
            i <= recs@.len(),
            forall|i: int| 0 <= i < recs@.len() ==> utf8_len((#[trigger] recs@[i]).usr@) <= usize::MAX,
            r@ == render_spec(records(recs@).subrange(0, i as int)),
        decreases recs@.len() - i,
    {
        let ghost done = records(recs@).subrange(0, i + 1);
        assert(done.drop_last() =~= records(recs@).subrange(0, i as int));
        let line = recs[i].to_line();
        r.append(line.as_str());
        r.append("\n");
        proof {
            reveal_strlit("\n");
        }
        i = i + 1;
    }
    assert(records(recs@).subrange(0, i as int) =~= records(recs@));
    r
}

/// Merges the maps whose texts are `files` and writes the result as the
/// text of a map.
pub fn merge_to_text(files: &Vec<String>) -> (r: Result<String, CodecError>)
    ensures
        match merge_spec(views(files@)) {
            Ok(rs) => r matches Ok(t) && t@ == render_spec(rs),
            Err(e) => r matches Err(x) && x == e,
        },
{
    match merge_contents(files) {
        Ok(v) => {
            proof {
                let rs = parse_all(all_lines(views(files@)))->Ok_0;
                lemma_parse_all_wf(all_lines(views(files@)));
                lemma_dedup_first(rs);
                assert forall|i: int| 0 <= i < v@.len() implies utf8_len((#[trigger] v@[i]).usr@) <= usize::MAX by {
                    assert(records(v@)[i] == dedup_first(rs)[i]);
                    assert(is_first_of_key(rs, dedup_first(rs)[i]));
                    let j = choose|j: int| 0 <= j < rs.len() && rs[j] == dedup_first(rs)[i] && #[trigger] first_at(rs, j);
                    assert(rs[j].0 == utf8_len(rs[j].1));
                }
            }
            Ok(render(&v))
        },
        Err(e) => Err(e),
    }
}

/// Whether a record reads back from its own line: its length is the byte
/// length of its key, neither key nor path holds a line feed, and the path
/// does not start with a space or tab.
pub open spec fn good_record(r: (nat, Seq<char>, Seq<char>)) -> bool {
    &&& r.0 == utf8_len(r.1)
    &&& r.0 <= usize::MAX
    &&& lacks(r.1, '\n')
    &&& lacks(r.2, '\n')
    &&& !(r.2.len() > 0 && is_blank(r.2[0]))
}

pub open spec fn ends_with_cr(p: Seq<char>) -> bool {
    p.len() > 0 && p.last() == '\r'
}

/// Whether no record's path ends in a carriage return.
pub open spec fn no_path_ends_with_cr(rs: Seq<(nat, Seq<char>, Seq<char>)>) -> bool {
    forall|k: int| 0 <= k < rs.len() ==> !ends_with_cr((#[trigger] rs[k]).2)
}

/// The lines of the records, in order.
pub open spec fn line_seq(d: Seq<(nat, Seq<char>, Seq<char>)>) -> Seq<Seq<char>> {
    d.map_values(|r: (nat, Seq<char>, Seq<char>)| line_spec(r.1, r.2))
}

proof fn lemma_lines_lack_newline(s: Seq<char>)
    ensures
        forall|k: int| 0 <= k < lines(s).len() ==> lacks(#[trigger] lines(s)[k], '\n'),
{
    lemma_split_on_pieces(s, '\n');
    lemma_split_on_nonempty(s, '\n');
    let parts = split_on(s, '\n');
    assert forall|k: int| 0 <= k < lines(s).len() implies lacks(#[trigger] lines(s)[k], '\n') by {
        assert(lacks(parts[k], '\n'));
        if k < parts.len() - 1 {
            let t = parts[k];
            if t.len() > 0 && t.last() == '\r' {
                assert forall|i: int| 0 <= i < t.drop_last().len() implies t.drop_last()[i] != '\n' by {
                    assert(t.drop_last()[i] == t[i]);
                }
            }
        }
    }
}

proof fn lemma_all_lines_lack_newline(files: Seq<Seq<char>>)
    ensures
        forall|k: int| 0 <= k < all_lines(files).len() ==> lacks(#[trigger] all_lines(files)[k], '\n'),
    decreases files.len(),
{
    if files.len() > 0 {
        lemma_all_lines_lack_newline(files.drop_last());
        lemma_lines_lack_newline(files.last());
        let a = all_lines(files.drop_last());
        let b = lines(files.last());
        assert forall|k: int| 0 <= k < all_lines(files).len() implies lacks(#[trigger] all_lines(files)[k], '\n') by {
            if k < a.len() {
                assert(all_lines(files)[k] == a[k]);
            } else {
                assert(all_lines(files)[k] == b[k - a.len()]);
            }
        }
    }
}

proof fn lemma_parse_all_good(ls: Seq<Seq<char>>)
    requires
        parse_all(ls) is Ok,
        forall|k: int| 0 <= k < ls.len() ==> lacks(#[trigger] ls[k], '\n'),
    ensures
        forall|i: int| 0 <= i < parse_all(ls)->Ok_0.len() ==> good_record(#[trigger] parse_all(ls)->Ok_0[i]),
    decreases ls.len(),
{
    if ls.len() > 0 {
        let p = ls.drop_last();
        assert forall|k: int| 0 <= k < p.len() implies lacks(#[trigger] p[k], '\n') by {
            assert(p[k] == ls[k]);
        }
        lemma_parse_all_good(p);
        lemma_parsed_length(ls.last());
        lemma_parsed_parts(ls.last(), '\n');
        assert(lacks(ls[ls.len() - 1], '\n'));
        let rs = parse_all(ls)->Ok_0;
        let prev = parse_all(p)->Ok_0;
        assert forall|i: int| 0 <= i < rs.len() implies good_record(#[trigger] rs[i]) by {
            if i < prev.len() {
                assert(rs[i] == prev[i]);
            }
        }
    }
}

proof fn lemma_line_spec_shape(u: Seq<char>, p: Seq<char>)
    requires
        lacks(u, '\n'),
        lacks(p, '\n'),
    ensures
        lacks(line_spec(u, p), '\n'),
        !ends_with_cr(p) ==> !ends_with_cr(line_spec(u, p)),
{
    let d = decimal_of_length(u);
    lemma_decimal_digits(utf8_len(u));
    let l = line_spec(u, p);
    assert(l =~= d + seq![':'] + u + seq![' '] + p);
    assert forall|i: int| 0 <= i < l.len() implies l[i] != '\n' by {
        if i < d.len() {
            assert(l[i] == d[i]);
            assert(is_digits(d));
        } else if i == d.len() {
        } else if i < d.len() + 1 + u.len() {
            assert(l[i] == u[i - d.len() - 1]);
        } else if i == d.len() + 1 + u.len() {
        } else {
            assert(l[i] == p[i - d.len() - 2 - u.len()]);
        }
    }
    if p.len() > 0 {
        assert(l.last() == p.last());
    }
}

proof fn lemma_render_split(d: Seq<(nat, Seq<char>, Seq<char>)>)
    requires
        forall|i: int| 0 <= i < d.len() ==> lacks(#[trigger] line_seq(d)[i], '\n'),
    ensures
        split_on(render_spec(d), '\n') == line_seq(d).push(Seq::<char>::empty()),
    decreases d.len(),
{
    if d.len() == 0 {
        assert(line_seq(d) =~= Seq::<Seq<char>>::empty());
        assert(split_on(Seq::<char>::empty(), '\n') == seq![Seq::<char>::empty()]);
    } else {
        let d2 = d.drop_last();
        assert(line_seq(d2) =~= line_seq(d).drop_last());
        assert forall|i: int| 0 <= i < d2.len() implies lacks(#[trigger] line_seq(d2)[i], '\n') by {
            assert(line_seq(d2)[i] == line_seq(d)[i]);
        }
        lemma_render_split(d2);
        let l = line_spec(d.last().1, d.last().2);
        assert(l == line_seq(d)[d.len() - 1]);
        let y = render_spec(d2);
        assert(render_spec(d) == y + l + seq!['\n']);
        lemma_split_on_sep(y + l, '\n');
        lemma_split_on_extend(y, l, '\n');
        let sy = split_on(y, '\n');
        assert(sy.last() + l =~= l);
        assert(sy.update(sy.len() - 1, l) =~= line_seq(d));
    }
}

proof fn lemma_render_lines(d: Seq<(nat, Seq<char>, Seq<char>)>)
    requires
        forall|i: int| 0 <= i < d.len() ==> good_record(#[trigger] d[i]) && !ends_with_cr(d[i].2),
    ensures
        lines(render_spec(d)) == line_seq(d),
{
    assert forall|i: int| 0 <= i < d.len() implies lacks(#[trigger] line_seq(d)[i], '\n') && !ends_with_cr(line_seq(d)[i]) by {
        assert(good_record(d[i]));
        lemma_line_spec_shape(d[i].1, d[i].2);
    }
    lemma_render_split(d);
    let parts = split_on(render_spec(d), '\n');
    assert(lines(render_spec(d)).len() == d.len());
    assert forall|i: int| 0 <= i < d.len() implies lines(render_spec(d))[i] == line_seq(d)[i] by {
        assert(parts[i] == line_seq(d)[i]);
        assert(!ends_with_cr(line_seq(d)[i]));
    }
    assert(lines(render_spec(d)) =~= line_seq(d));
}

proof fn lemma_parse_lines_back(d: Seq<(nat, Seq<char>, Seq<char>)>)
    requires
        forall|i: int| 0 <= i < d.len() ==> good_record(#[trigger] d[i]),
    ensures
        parse_all(line_seq(d)) == Ok::<Seq<(nat, Seq<char>, Seq<char>)>, CodecError>(d),
    decreases d.len(),
{
    if d.len() > 0 {
        let d2 = d.drop_last();
        assert forall|i: int| 0 <= i < d2.len() implies good_record(#[trigger] d2[i]) by {
            assert(d2[i] == d[i]);
        }
        lemma_parse_lines_back(d2);
        assert(line_seq(d).drop_last() =~= line_seq(d2));
        let r = d.last();
        assert(good_record(d[d.len() - 1]));
        lemma_round_trip(r.1, r.2);
        assert(line_seq(d).last() == line_spec(r.1, r.2));
        assert(d2.push(r) =~= d);
    } else {
        assert(line_seq(d) =~= Seq::<Seq<char>>::empty());
        assert(d =~= Seq::<(nat, Seq<char>, Seq<char>)>::empty());
    }
}

proof fn lemma_parse_all_concat(x: Seq<Seq<char>>, y: Seq<Seq<char>>)
    requires
        parse_all(x) is Ok,
    ensures
        parse_all(x + y) == match parse_all(y) {
            Ok(py) => Ok(parse_all(x)->Ok_0 + py),
            Err(e) => Err::<Seq<(nat, Seq<char>, Seq<char>)>, CodecError>(e),
        },
    decreases y.len(),
{
    if y.len() == 0 {
        assert(x + y =~= x);
        assert(parse_all(x)->Ok_0 + Seq::<(nat, Seq<char>, Seq<char>)>::empty() =~= parse_all(x)->Ok_0);
    } else {
        lemma_parse_all_concat(x, y.drop_last());
        assert((x + y).drop_last() =~= x + y.drop_last());
        assert((x + y).last() == y.last());
        match parse_all(y.drop_last()) {
            Ok(py) => {
                match parse_spec(y.last()) {
                    Ok(r) => {
                        assert((parse_all(x)->Ok_0 + py).push(r) =~= parse_all(x)->Ok_0 + py.push(r));
                    },
                    Err(_) => {},
                }
            },
            Err(_) => {},
        }
    }
}

/// Merging in two steps gives what merging in one pass gives: the map
/// written from merging the texts `a` and `b`, merged with `c`, holds the
/// same records in the same order as the merge of `a`, `b` and `c`, and
/// fails with the same error. A path that ends in a carriage return would
/// lose it when the intermediate map is read back, so none may.
pub proof fn lemma_merge_files_associative(a: Seq<char>, b: Seq<char>, c: Seq<char>)
    requires
        merge_spec(seq![a, b]) is Ok,
        no_path_ends_with_cr(merge_spec(seq![a, b])->Ok_0),
    ensures
        merge_spec(seq![render_spec(merge_spec(seq![a, b])->Ok_0), c]) == merge_spec(seq![a, b, c]),
{
    let ab = seq![a, b];
    let abc = seq![a, b, c];
    let x = all_lines(ab);
    assert(abc.drop_last() =~= ab);
    assert(all_lines(abc) == x + lines(c));
    let pab = parse_all(x)->Ok_0;
    let d = dedup_first(pab);
    let r = render_spec(d);
    let rc = seq![r, c];
    assert(rc.drop_last() =~= seq![r]);
    assert(seq![r].drop_last() =~= Seq::<Seq<char>>::empty());
    assert(seq![r].last() == r);
    assert(all_lines(seq![r].drop_last()) == Seq::<Seq<char>>::empty());
    assert(all_lines(seq![r]) == Seq::<Seq<char>>::empty() + lines(r));
    assert(Seq::<Seq<char>>::empty() + lines(r) =~= lines(r));
    assert(all_lines(rc) == lines(r) + lines(c));
    lemma_all_lines_lack_newline(ab);
    lemma_parse_all_good(x);
    lemma_dedup_first(pab);
    assert forall|i: int| 0 <= i < d.len() implies good_record(#[trigger] d[i]) && !ends_with_cr(d[i].2) by {
        assert(is_first_of_key(pab, d[i]));
        let j = choose|j: int| 0 <= j < pab.len() && pab[j] == d[i] && #[trigger] first_at(pab, j);
        assert(good_record(pab[j]));
    }
    lemma_render_lines(d);
    lemma_parse_lines_back(d);
    lemma_parse_all_concat(line_seq(d), lines(c));
    lemma_parse_all_concat(x, lines(c));
    match parse_all(lines(c)) {
        Ok(pc) => {
            lemma_dedup_absorbs(pab, pc);
        },
        Err(_) => {},
    }
}

/// The merge of the files keeps exactly one record per key that the files
/// hold, and the record kept for a key is the first one with that key in
/// file order and then line order.
pub proof fn lemma_merge_keeps_first(files: Seq<Seq<char>>)
    requires
        merge_spec(files) is Ok,
    ensures
        ({
            let all = parse_all(all_lines(files))->Ok_0;
            let merged = merge_spec(files)->Ok_0;
            &&& keys_unique(merged)
            &&& forall|u: Seq<char>| has_key(all, u) <==> has_key(merged, u)
            &&& forall|k: int| 0 <= k < merged.len() ==> is_first_of_key(all, #[trigger] merged[k])
        }),
{
    lemma_dedup_first(parse_all(all_lines(files))->Ok_0);
}

} // verus!
