//! The external-definition record and its line format
//! `<length>:<usr> <path>`, where `<length>` is the UTF-8 byte length of
//! `<usr>`.
use vstd::prelude::*;
use crate::text::{chars_of, decimal, digit_alphabet, format_in_base, lacks, substring};

verus! {

/// One record of an external-definition map. Records are identified by
/// `usr` alone.
#[derive(Debug, Clone, PartialEq, Eq)]
pub struct ExtDefMapping {
    pub length: usize,
    pub usr: String,
    pub path: String,
}

/// Why a line is not a record.
#[derive(Debug, Clone, Copy, PartialEq, Eq, Structural)]
pub enum CodecError {
    /// The text before the first `:` is not a decimal number that fits in
    /// `usize`, or there is no `:`.
    MalformedLength,
    /// Fewer bytes follow the `:` than the length declares.
    TruncatedKey,
    /// The declared length ends inside a multi-byte character.
    SplitCharacter,
    /// No space or tab follows the key.
    MissingSeparator,
}

/// The number of bytes of the UTF-8 encoding of `c`.
pub open spec fn utf8_width(c: char) -> nat {
    let v = c as u32;
    if v <= 0x7f {
        1
    } else if v <= 0x7ff {
        2
    } else if v <= 0xffff {
        3
    } else {
        4
    }
}

/// The number of bytes of the UTF-8 encoding of `s`.
pub open spec fn utf8_len(s: Seq<char>) -> nat
    decreases s.len(),
{
    if s.len() == 0 {
        0
    } else {
        utf8_width(s[0]) + utf8_len(s.drop_first())
    }
}

/// Index of the first `c` in `s`, or -1.
pub open spec fn first_char(s: Seq<char>, c: char) -> int
    decreases s.len(),
{
    if s.len() == 0 {
        -1
    } else if s[0] == c {
        0
    } else {
        let k = first_char(s.drop_first(), c);
        if k < 0 {
            -1
        } else {
            k + 1
        }
    }
}

pub open spec fn is_digit(c: char) -> bool {
    48 <= (c as u32) <= 57
}

pub open spec fn is_digits(s: Seq<char>) -> bool {
    s.len() > 0 && forall|i: int| 0 <= i < s.len() ==> is_digit(#[trigger] s[i])
}

pub open spec fn digit_value(c: char) -> nat {
    ((c as u32) - 48) as nat
}

/// The number that the decimal digits `s` denote.
pub open spec fn digits_value(s: Seq<char>) -> nat
    decreases s.len(),
{
    if s.len() == 0 {
        0
    } else {
        digits_value(s.drop_last()) * 10 + digit_value(s.last())
    }
}

/// Where a key of `n` bytes ends in `s`: a character count, or -1 when `s`
/// is too short, or -2 when the `n`th byte falls inside a character.
pub open spec fn key_end(s: Seq<char>, n: nat) -> int
    decreases s.len(),
{
    if n == 0 {
        0
    } else if s.len() == 0 {
        -1
    } else if utf8_width(s[0]) > n {
        -2
    } else {
        let k = key_end(s.drop_first(), (n - utf8_width(s[0])) as nat);
        if k < 0 {
            k
        } else {
            k + 1
        }
    }
}

pub open spec fn is_blank(c: char) -> bool {
    c == ' ' || c == '\t'
}

/// The number of spaces and tabs that `s` starts with.
pub open spec fn blank_run(s: Seq<char>) -> nat
    decreases s.len(),
{
    if s.len() > 0 && is_blank(s[0]) {
        1 + blank_run(s.drop_first())
    } else {
        0
    }
}

/// The length, key and path that `line` holds, or why it holds none.
pub open spec fn parse_spec(line: Seq<char>) -> Result<(nat, Seq<char>, Seq<char>), CodecError> {
    let p = first_char(line, ':');
    let digits = line.subrange(0, p);
    if p < 0 || !is_digits(digits) || digits_value(digits) > usize::MAX {
        Err(CodecError::MalformedLength)
    } else {
        let n = digits_value(digits);
        let after = line.subrange(p + 1, line.len() as int);
        let k = key_end(after, n);
        if k == -1 {
            Err(CodecError::TruncatedKey)
        } else if k < 0 {
            Err(CodecError::SplitCharacter)
        } else {
            let tail = after.subrange(k, after.len() as int);
            let b = blank_run(tail);
            if b == 0 {
                Err(CodecError::MissingSeparator)
            } else {
                Ok((n, after.subrange(0, k), tail.subrange(b as int, tail.len() as int)))
            }
        }
    }
}

/// The length field of a record with key `usr`, in decimal.
pub open spec fn decimal_of_length(usr: Seq<char>) -> Seq<char> {
    decimal(utf8_len(usr))
}

/// The line of a record with key `usr` and path `path`.
pub open spec fn line_spec(usr: Seq<char>, path: Seq<char>) -> Seq<char> {
    decimal_of_length(usr) + seq![':'] + usr + seq![' '] + path
}

pub proof fn lemma_decimal_digits(n: nat)
    ensures
        is_digits(decimal(n)),
        digits_value(decimal(n)) == n,
    decreases n,
{
    let a = digit_alphabet();
    assert(a[0] == '0' && a[1] == '1' && a[2] == '2' && a[3] == '3' && a[4] == '4');
    assert(a[5] == '5' && a[6] == '6' && a[7] == '7' && a[8] == '8' && a[9] == '9');
    if n < 10 {
        let d = seq![a[n as int]];
        assert(decimal(n) == d);
        assert(d.drop_last() =~= Seq::<char>::empty());
        assert(digits_value(d.drop_last()) == 0);
        assert(digit_value(a[n as int]) == n);
        assert(digits_value(d) == n);
    } else {
        lemma_decimal_digits(n / 10);
        let prev = decimal(n / 10);
        let d = prev.push(a[(n % 10) as int]);
        assert(decimal(n) == d);
        assert(d.drop_last() =~= prev);
        assert(digit_value(a[(n % 10) as int]) == n % 10);
        assert(digits_value(d) == digits_value(prev) * 10 + n % 10);
        assert((n / 10) * 10 + n % 10 == n);
        assert forall|i: int| 0 <= i < d.len() implies is_digit(#[trigger] d[i]) by {
            if i < prev.len() {
                assert(d[i] == prev[i]);
            }
        }
    }
}

proof fn lemma_first_char_after(s: Seq<char>, t: Seq<char>, c: char)
    requires
        forall|i: int| 0 <= i < s.len() ==> s[i] != c,
        t.len() > 0,
        t[0] == c,
    ensures
        first_char(s + t, c) == s.len(),
    decreases s.len(),
{
    if s.len() == 0 {
        assert(s + t =~= t);
    } else {
        assert((s + t).drop_first() =~= s.drop_first() + t);
        lemma_first_char_after(s.drop_first(), t, c);
    }
}

proof fn lemma_key_end(usr: Seq<char>, rest: Seq<char>)
    ensures
        key_end(usr + rest, utf8_len(usr)) == usr.len(),
    decreases usr.len(),
{
    if usr.len() == 0 {
        assert(utf8_len(usr) == 0);
    } else {
        assert((usr + rest).drop_first() =~= usr.drop_first() + rest);
        assert((usr + rest)[0] == usr[0]);
        lemma_key_end(usr.drop_first(), rest);
    }
}

proof fn lemma_key_end_len(s: Seq<char>, n: nat)
    requires
        key_end(s, n) >= 0,
    ensures
        key_end(s, n) <= s.len(),
        utf8_len(s.subrange(0, key_end(s, n))) == n,
    decreases s.len(),
{
    if n == 0 {
        assert(s.subrange(0, 0).len() == 0);
    } else {
        assert(s.len() > 0);
        let w = utf8_width(s[0]);
        assert(w <= n);
        let rest = s.drop_first();
        let k = key_end(s, n);
        assert(k == key_end(rest, (n - w) as nat) + 1);
        lemma_key_end_len(rest, (n - w) as nat);
        let pre = s.subrange(0, k);
        assert(pre.drop_first() =~= rest.subrange(0, k - 1));
        assert(pre[0] == s[0]);
        assert(utf8_len(pre) == w + utf8_len(pre.drop_first()));
    }
}

/// A parsed record's length is the byte length of its key.
pub proof fn lemma_parsed_length(line: Seq<char>)
    requires
        parse_spec(line) is Ok,
    ensures
        parse_spec(line)->Ok_0.0 == utf8_len(parse_spec(line)->Ok_0.1),
        parse_spec(line)->Ok_0.0 <= usize::MAX,
{
    let p = first_char(line, ':');
    let n = digits_value(line.subrange(0, p));
    let after = line.subrange(p + 1, line.len() as int);
    lemma_key_end_len(after, n);
}

proof fn lemma_first_char_bound(s: Seq<char>, c: char)
    ensures
        -1 <= first_char(s, c) < s.len(),
    decreases s.len(),
{
    if s.len() > 0 && s[0] != c {
        lemma_first_char_bound(s.drop_first(), c);
    }
}

proof fn lemma_blank_run_stops(s: Seq<char>)
    ensures
        blank_run(s) <= s.len(),
        blank_run(s) < s.len() ==> !is_blank(s[blank_run(s) as int]),
    decreases s.len(),
{
    if s.len() > 0 && is_blank(s[0]) {
        lemma_blank_run_stops(s.drop_first());
        if blank_run(s) < s.len() {
            assert(s[blank_run(s) as int] == s.drop_first()[blank_run(s.drop_first()) as int]);
        }
    }
}

/// A parsed path does not start with a space or tab, and a line without
/// `c` gives a key and a path without `c`.
pub proof fn lemma_parsed_parts(line: Seq<char>, c: char)
    requires
        parse_spec(line) is Ok,
    ensures
        ({
            let r = parse_spec(line)->Ok_0;
            &&& !(r.2.len() > 0 && is_blank(r.2[0]))
            &&& lacks(line, c) ==> lacks(r.1, c) && lacks(r.2, c)
        }),
{
    let p = first_char(line, ':');
    let n = digits_value(line.subrange(0, p));
    let after = line.subrange(p + 1, line.len() as int);
    let k = key_end(after, n);
    lemma_key_end_len(after, n);
    let tail = after.subrange(k, after.len() as int);
    lemma_blank_run_stops(tail);
    lemma_first_char_bound(line, ':');
    let r = parse_spec(line)->Ok_0;
    assert(r.1 == after.subrange(0, k));
    assert(r.2 == tail.subrange(blank_run(tail) as int, tail.len() as int));
    if r.2.len() > 0 {
        assert(r.2[0] == tail[blank_run(tail) as int]);
    }
    if lacks(line, c) {
        assert forall|i: int| 0 <= i < r.1.len() implies r.1[i] != c by {
            assert(r.1[i] == after[i]);
            assert(after[i] == line[p + 1 + i]);
        }
        assert forall|i: int| 0 <= i < r.2.len() implies r.2[i] != c by {
            assert(r.2[i] == tail[blank_run(tail) + i]);
            assert(tail[blank_run(tail) + i] == after[k + blank_run(tail) + i]);
            assert(after[k + blank_run(tail) + i] == line[p + 1 + k + blank_run(tail) + i]);
        }
    }
}

/// A serialized record parses back to the same record: the length is the
/// byte length of the key, and the key and path come back unchanged. The
/// path must not start with a space or tab, which the separator would absorb.
pub proof fn lemma_round_trip(usr: Seq<char>, path: Seq<char>)
    requires
        utf8_len(usr) <= usize::MAX,
        !(path.len() > 0 && is_blank(path[0])),
    ensures
        parse_spec(line_spec(usr, path)) == Ok::<(nat, Seq<char>, Seq<char>), CodecError>(
            (utf8_len(usr), usr, path),
        ),
{
    let n = utf8_len(usr);
    let d = decimal(n);
    let line = line_spec(usr, path);
    let rest = usr + seq![' '] + path;
    lemma_decimal_digits(n);
    assert(line =~= d + (seq![':'] + rest));
    lemma_first_char_after(d, seq![':'] + rest, ':');
    let p = d.len() as int;
    assert(line.subrange(0, p) =~= d);
    let after = line.subrange(p + 1, line.len() as int);
    assert(after =~= usr + (seq![' '] + path));
    lemma_key_end(usr, seq![' '] + path);
    let tail = after.subrange(usr.len() as int, after.len() as int);
    assert(tail =~= seq![' '] + path);
    assert(tail.drop_first() =~= path);
    assert(blank_run(path) == 0);
    assert(blank_run(tail) == 1);
    assert(after.subrange(0, usr.len() as int) =~= usr);
    assert(tail.subrange(1, tail.len() as int) =~= path);
}

proof fn lemma_digits_value_prefix(s: Seq<char>, j: int)
    requires
        is_digits(s),
        0 < j <= s.len(),
    ensures
        digits_value(s.subrange(0, j)) <= digits_value(s),
    decreases s.len(),
{
    if j < s.len() {
        let d = s.drop_last();
        assert(d.subrange(0, j) =~= s.subrange(0, j));
        assert forall|i: int| 0 <= i < d.len() implies is_digit(#[trigger] d[i]) by {
            assert(d[i] == s[i]);
        }
        lemma_digits_value_prefix(d, j);
    } else {
        assert(s.subrange(0, j) =~= s);
    }
}

proof fn lemma_utf8_len_concat(a: Seq<char>, b: Seq<char>)
    ensures
        utf8_len(a + b) == utf8_len(a) + utf8_len(b),
    decreases a.len(),
{
    if a.len() == 0 {
        assert(a + b =~= b);
    } else {
        assert((a + b).drop_first() =~= a.drop_first() + b);
        lemma_utf8_len_concat(a.drop_first(), b);
    }
}

/// The number of bytes of the UTF-8 encoding of `c`.
fn char_width(c: char) -> (w: usize)
    ensures
        w == utf8_width(c),
{
    let v = c as u32;
    if v <= 0x7f {
        1
    } else if v <= 0x7ff {
        2
    } else if v <= 0xffff {
        3
    } else {
        4
    }
}

impl ExtDefMapping {
    /// Whether the stored length is the byte length of the key.
    pub open spec fn wf(&self) -> bool {
        self.length == utf8_len(self.usr@)
    }

    /// The record as a line: `<length>:<usr> <path>`, with the length
    /// computed from the key.
    pub fn to_line(&self) -> (r: String)
        requires
            utf8_len(self.usr@) <= usize::MAX,
        ensures
            r@ == line_spec(self.usr@, self.path@),
    {
        let cs = chars_of(self.usr.as_str());
        let mut total: usize = 0;
        let mut i: usize = 0;
        while i < cs.len()
            invariant
                i <= cs@.len(),
                cs@ == self.usr@,
                utf8_len(self.usr@) <= usize::MAX,
                total == utf8_len(cs@.subrange(0, i as int)),
            decreases cs@.len() - i,
        {
            proof {
                let head = cs@.subrange(0, i as int);
                let one = seq![cs@[i as int]];
                assert(cs@.subrange(0, i + 1) =~= head + one);
                lemma_utf8_len_concat(head, one);
                assert(one.drop_first() =~= Seq::<char>::empty());
                assert(one[0] == cs@[i as int]);
                assert(utf8_len(one.drop_first()) == 0);
                assert(utf8_len(one) == utf8_width(cs@[i as int]));
                assert(cs@ =~= cs@.subrange(0, i + 1) + cs@.subrange(i + 1, cs@.len() as int));
                lemma_utf8_len_concat(cs@.subrange(0, i + 1), cs@.subrange(i + 1, cs@.len() as int));
            }
            total = total + char_width(cs[i]);
            i = i + 1;
        }
        assert(cs@.subrange(0, i as int) =~= cs@);
        let mut r = format_in_base(total as u64, 10);
        r.append(":");
        r.append(self.usr.as_str());
        r.append(" ");
        r.append(self.path.as_str());
        proof {
            reveal_strlit(":");
            reveal_strlit(" ");
        }
        r
    }
}

/// Index of the first `:` in `cs`, or its length when there is none.
fn find_colon(cs: &Vec<char>) -> (r: usize)
    ensures
        r <= cs@.len(),
        first_char(cs@, ':') == (if r == cs@.len() {
            -1
        } else {
            r as int
        }),
{
    let len = cs.len();
    let mut p: usize = 0;
    assert(cs@.subrange(0, len as int) =~= cs@);
    while p < len && cs[p] != ':'
        invariant
            p <= len == cs@.len(),
            first_char(cs@, ':') == (if first_char(cs@.subrange(p as int, len as int), ':') < 0 {
                -1
            } else {
                first_char(cs@.subrange(p as int, len as int), ':') + p
            }),
        decreases len - p,
    {
        assert(cs@.subrange(p as int, len as int).drop_first() =~= cs@.subrange(p + 1, len as int));
        p = p + 1;
    }
    if p == len {
        assert(cs@.subrange(p as int, len as int).len() == 0);
    } else {
        assert(cs@.subrange(p as int, len as int)[0] == ':');
    }
    p
}

/// The value of the decimal digits `cs[0..to]`, if they are digits and the
/// value fits in `usize`.
fn parse_decimal(cs: &Vec<char>, to: usize) -> (r: Option<usize>)
    requires
        to <= cs@.len(),
    ensures
        match r {
            Some(v) => is_digits(cs@.subrange(0, to as int)) && v == digits_value(
                cs@.subrange(0, to as int),
            ),
            None => !is_digits(cs@.subrange(0, to as int)) || digits_value(
                cs@.subrange(0, to as int),
            ) > usize::MAX,
        },
{
    let ghost digits = cs@.subrange(0, to as int);
    if to == 0 {
        return None;
    }
    let mut value: usize = 0;
    let mut j: usize = 0;
    while j < to
        invariant
            0 < to <= cs@.len(),
            j <= to,
            digits == cs@.subrange(0, to as int),
            forall|i: int| 0 <= i < j ==> is_digit(#[trigger] cs@[i]),
            value == digits_value(cs@.subrange(0, j as int)),
        decreases to - j,
    {
        let v = cs[j] as u32;
        if v < 48 || v > 57 {
            assert(!is_digit(digits[j as int]));
            return None;
        }
        let ghost next = cs@.subrange(0, j + 1);
        assert(next.drop_last() =~= cs@.subrange(0, j as int));
        let grown = match value.checked_mul(10) {
            Some(m) => m.checked_add((v - 48) as usize),
            None => None,
        };
        match grown {
            Some(g) => {
                value = g;
            },
            None => {
                proof {
                    assert(digits_value(next) > usize::MAX);
                    if is_digits(digits) {
                        assert(digits.subrange(0, j + 1) =~= next);
                        lemma_digits_value_prefix(digits, j + 1);
                    }
                }
                return None;
            },
        }
        j = j + 1;
    }
    assert(cs@.subrange(0, j as int) =~= digits);
    Some(value)
}

/// Where a key of `n` bytes that starts at `start` ends.
fn scan_key(cs: &Vec<char>, start: usize, n: usize) -> (r: Result<usize, CodecError>)
    requires
        start <= cs@.len(),
    ensures
        ({
            let k = key_end(cs@.subrange(start as int, cs@.len() as int), n as nat);
            match r {
                Ok(e) => start <= e <= cs@.len() && k == e - start,
                Err(CodecError::TruncatedKey) => k == -1,
                Err(CodecError::SplitCharacter) => k == -2,
                Err(_) => false,
            }
        }),
{
    let len = cs.len();
    let ghost after = cs@.subrange(start as int, len as int);
    let mut k: usize = start;
    let mut rem: usize = n;
    assert(cs@.subrange(k as int, len as int) =~= after);
    while rem > 0
        invariant
            start <= k <= len == cs@.len(),
            after == cs@.subrange(start as int, len as int),
            key_end(after, n as nat) == (if key_end(cs@.subrange(k as int, len as int), rem as nat) < 0 {
                key_end(cs@.subrange(k as int, len as int), rem as nat)
            } else {
                key_end(cs@.subrange(k as int, len as int), rem as nat) + (k - start)
            }),
        decreases rem,
    {
        if k == len {
            assert(cs@.subrange(k as int, len as int).len() == 0);
            return Err(CodecError::TruncatedKey);
        }
        let w = char_width(cs[k]);
        assert(cs@.subrange(k as int, len as int)[0] == cs@[k as int]);
        if w > rem {
            assert(key_end(cs@.subrange(k as int, len as int), rem as nat) == -2);
            return Err(CodecError::SplitCharacter);
        }
        assert(cs@.subrange(k as int, len as int).drop_first() =~= cs@.subrange(k + 1, len as int));
        rem = rem - w;
        k = k + 1;
    }
    Ok(k)
}

/// The end of the run of spaces and tabs that starts at `from`.
fn skip_blanks(cs: &Vec<char>, from: usize) -> (r: usize)
    requires
        from <= cs@.len(),
    ensures
        from <= r <= cs@.len(),
        r - from == blank_run(cs@.subrange(from as int, cs@.len() as int)),
{
    let len = cs.len();
    let mut b: usize = from;
    while b < len && (cs[b] == ' ' || cs[b] == '\t')
        invariant
            from <= b <= len == cs@.len(),
            blank_run(cs@.subrange(from as int, len as int)) == (b - from) + blank_run(
                cs@.subrange(b as int, len as int),
            ),
        decreases len - b,
    {
        assert(cs@.subrange(b as int, len as int).drop_first() =~= cs@.subrange(b + 1, len as int));
        b = b + 1;
    }
    if b < len {
        assert(!is_blank(cs@.subrange(b as int, len as int)[0]));
    }
    b
}

/// Parses one line of an external-definition map.
pub fn parse_line(input: &str) -> (r: Result<ExtDefMapping, CodecError>)
    ensures
        match parse_spec(input@) {
            Ok((n, u, p)) => r matches Ok(m) && m.length == n && m.usr@ == u && m.path@ == p,
            Err(e) => r matches Err(x) && x == e,
        },
{
    let cs = chars_of(input);
    let len = cs.len();
    let ghost line = input@;
    let p = find_colon(&cs);
    if p == len {
        return Err(CodecError::MalformedLength);
    }
    let n = match parse_decimal(&cs, p) {
        Some(v) => v,
        None => {
            return Err(CodecError::MalformedLength);
        },
    };
    let start = p + 1;
    let ghost after = line.subrange(start as int, len as int);
    let k = match scan_key(&cs, start, n) {
        Ok(k) => k,
        Err(e) => {
            return Err(e);
        },
    };
    let ghost tail = after.subrange(k - start, after.len() as int);
    assert(tail =~= line.subrange(k as int, len as int));
    let b = skip_blanks(&cs, k);
    if b == k {
        return Err(CodecError::MissingSeparator);
    }
    let usr = substring(input, start, k);
    let path = substring(input, b, len);
    assert(after.subrange(0, k - start) =~= usr@);
    assert(tail.subrange((b - k) as int, tail.len() as int) =~= path@);
    Ok(ExtDefMapping { length: n, usr, path })
}

} // verus!
