//! Character and string utilities shared by the matching and parsing code.
//!
//! All case handling is ASCII-only: application identifiers and desktop-entry
//! keys are ASCII in practice, and an exact ASCII model keeps every contract
//! provable down to individual characters.

use vstd::prelude::*;
use vstd::string::*;

verus! {

/// Lower-cases an ASCII letter; leaves every other character unchanged.
pub open spec fn lower_char(c: char) -> char {
    if 'A' <= c && c <= 'Z' {
        ((c as u8) + 32) as char
    } else {
        c
    }
}

/// The sequence with `lower_char` applied to every character.
pub open spec fn lower_seq(s: Seq<char>) -> Seq<char> {
    s.map_values(|c: char| lower_char(c))
}

/// `needle` occurs in `hay` starting at index `i`.
pub open spec fn contains_at(hay: Seq<char>, needle: Seq<char>, i: int) -> bool {
    0 <= i && i + needle.len() <= hay.len() && hay.subrange(i, i + needle.len() as int)
        == needle
}

/// `needle` occurs somewhere in `hay`.
pub open spec fn contains_seq(hay: Seq<char>, needle: Seq<char>) -> bool {
    exists|i: int| contains_at(hay, needle, i)
}

/// Executable counterpart of `lower_char`.
pub fn to_lower_char(c: char) -> (r: char)
    ensures
        r == lower_char(c),
{
    if 'A' <= c && c <= 'Z' {
        ((c as u8) + 32) as char
    } else {
        c
    }
}

/// Exact character-wise string equality.
pub fn str_eq(a: &str, b: &str) -> (r: bool)
    ensures
        r == (a@ == b@),
{
    let alen: usize = a.unicode_len();
    let blen: usize = b.unicode_len();
    if alen != blen {
        return false;
    }
    let mut i: usize = 0;
    while i < alen
        invariant
            alen == a@.len(),
            alen == b@.len(),
            i <= alen,
            forall|k: int| 0 <= k < i ==> a@[k] == b@[k],
        decreases alen - i,
    {
        if a.get_char(i) != b.get_char(i) {
            return false;
        }
        i += 1;
    }
    proof {
        assert(a@ =~= b@);
    }
    true
}

/// Case-insensitive containment: does `lower(hay)` contain `lower(needle)`?
pub fn contains_lower(hay: &str, needle: &str) -> (r: bool)
    ensures
        r == contains_seq(lower_seq(hay@), lower_seq(needle@)),
{
    let hlen: usize = hay.unicode_len();
    let nlen: usize = needle.unicode_len();
    if nlen > hlen {
        proof {
            assert(forall|i: int| !contains_at(lower_seq(hay@), lower_seq(needle@), i));
        }
        return false;
    }
    if nlen == 0 {
        proof {
            assert(lower_seq(hay@).subrange(0, 0) =~= lower_seq(needle@));
            assert(contains_at(lower_seq(hay@), lower_seq(needle@), 0));
        }
        return true;
    }
    let mut i: usize = 0;
    while i <= hlen - nlen
        invariant
            hlen == hay@.len(),
            nlen == needle@.len(),
            1 <= nlen <= hlen,
            i <= hlen - nlen + 1,
            forall|k: int| 0 <= k < i ==> !contains_at(lower_seq(hay@), lower_seq(needle@), k),
        decreases hlen - i,
    {
        let mut j: usize = 0;
        let mut mismatch: bool = false;
        while j < nlen && !mismatch
            invariant
                hlen == hay@.len(),
                nlen == needle@.len(),
                i + nlen <= hlen,
                j <= nlen,
                !mismatch ==> forall|k: int|
                    0 <= k < j ==> lower_char(hay@[i + k]) == lower_char(needle@[k]),
                mismatch ==> !contains_at(lower_seq(hay@), lower_seq(needle@), i as int),
            decreases nlen - j + (if mismatch { 0int } else { 1int }),
        {
            if to_lower_char(hay.get_char(i + j)) != to_lower_char(needle.get_char(j)) {
                proof {
                    let lh = lower_seq(hay@);
                    let ln = lower_seq(needle@);
                    assert(lh.subrange(i as int, i + nlen as int)[j as int] == lh[i + j]);
                    assert(lh[i + j] == lower_char(hay@[i + j]));
                    assert(ln[j as int] == lower_char(needle@[j as int]));
                }
                mismatch = true;
            } else {
                j += 1;
            }
        }
        if !mismatch {
            proof {
                let lh = lower_seq(hay@);
                let ln = lower_seq(needle@);
                assert forall|k: int| 0 <= k < nlen implies lh.subrange(
                    i as int,
                    i + nlen as int,
                )[k] == ln[k] by {
                    assert(lh.subrange(i as int, i + nlen as int)[k] == lh[i + k]);
                    assert(lh[i + k] == lower_char(hay@[i + k]));
                    assert(ln[k] == lower_char(needle@[k]));
                }
                assert(lh.subrange(i as int, i + nlen as int) =~= ln);
                assert(contains_at(lh, ln, i as int));
            }
            return true;
        }
        i += 1;
    }
    proof {
        assert(forall|k: int| !contains_at(lower_seq(hay@), lower_seq(needle@), k));
    }
    false
}

/// The decimal digit character for a value in 0..=9.
pub open spec fn dec_digit(d: int) -> char {
    ((48 + d) as u8) as char
}

/// The decimal representation of a natural number, most significant digit
/// first, without leading zeros (zero itself is "0").
pub open spec fn dec_str_nat(n: nat) -> Seq<char>
    decreases n,
{
    if n < 10 {
        seq![dec_digit(n as int)]
    } else {
        dec_str_nat(n / 10) + seq![dec_digit((n % 10) as int)]
    }
}

/// The decimal representation of a signed integer.
pub open spec fn dec_str_i64(n: i64) -> Seq<char> {
    if n < 0 {
        seq!['-'] + dec_str_nat((0 - n as int) as nat)
    } else {
        dec_str_nat(n as nat)
    }
}

/// Relies on String::push: appends the given character to the end.
#[verifier::external_body]
pub(crate) fn push_char(s: &mut String, c: char)
    ensures
        final(s)@ == old(s)@.push(c),
{
    s.push(c);
}

/// The decimal representation of `n`, as a string.
pub fn u64_to_string(n: u64) -> (r: String)
    ensures
        r@ == dec_str_nat(n as nat),
{
    let mut digits: Vec<char> = Vec::new();
    let d0: u64 = n % 10;
    digits.push(((48 + d0) as u8) as char);
    let mut m: u64 = n / 10;
    proof {
        assert(digits@.reverse() =~= seq![dec_digit((n % 10) as int)]);
        if n >= 10 {
            assert(dec_str_nat(n as nat) == dec_str_nat((n as nat) / 10) + seq![
                dec_digit(((n as nat) % 10) as int),
            ]);
            assert(dec_str_nat(m as nat) + digits@.reverse() =~= dec_str_nat(n as nat));
        } else {
            assert(dec_str_nat(n as nat) =~= digits@.reverse());
        }
    }
    while m > 0
        invariant
            m > 0 ==> dec_str_nat(n as nat) == dec_str_nat(m as nat) + digits@.reverse(),
            m == 0 ==> dec_str_nat(n as nat) == digits@.reverse(),
        decreases m,
    {
        let ghost before = digits@;
        let d: u64 = m % 10;
        digits.push(((48 + d) as u8) as char);
        proof {
            assert(digits@.reverse() =~= seq![dec_digit(d as int)] + before.reverse());
            if m >= 10 {
                assert(dec_str_nat(m as nat) == dec_str_nat((m as nat) / 10) + seq![
                    dec_digit(((m as nat) % 10) as int),
                ]);
                assert(dec_str_nat((m / 10) as nat) + digits@.reverse() =~= dec_str_nat(
                    m as nat,
                ) + before.reverse());
            } else {
                assert(dec_str_nat(m as nat) == seq![dec_digit(m as int)]);
                assert(dec_str_nat(m as nat) + before.reverse() =~= digits@.reverse());
            }
        }
        m = m / 10;
    }
    let len: usize = digits.len();
    let mut out = String::new();
    let mut k: usize = 0;
    while k < len
        invariant
            len == digits@.len(),
            k <= len,
            out@ == digits@.reverse().take(k as int),
        decreases len - k,
    {
        let c: char = digits[len - 1 - k];
        push_char(&mut out, c);
        proof {
            assert(digits@.reverse()[k as int] == digits@[len - 1 - k]);
            assert(out@ =~= digits@.reverse().take(k + 1));
        }
        k += 1;
    }
    proof {
        assert(digits@.reverse().take(len as int) =~= digits@.reverse());
        assert(dec_str_nat(n as nat) == digits@.reverse());
    }
    out
}

/// The decimal representation of `n`, as a string, with a leading minus sign
/// for negative values.
pub fn i64_to_string(n: i64) -> (r: String)
    ensures
        r@ == dec_str_i64(n),
{
    if n >= 0 {
        u64_to_string(n as u64)
    } else {
        let mag: u64 = ((0i128 - (n as i128)) as u64);
        let digits = u64_to_string(mag);
        let mut out = String::new();
        push_char(&mut out, '-');
        out.append(digits.as_str());
        proof {
            assert(out@ =~= seq!['-'] + dec_str_nat(mag as nat));
        }
        out
    }
}

/// ASCII whitespace, as desktop files and command lines use it.
pub open spec fn is_space(c: char) -> bool {
    c == ' ' || c == '\t' || c == '\r' || c == '\n'
}

/// Executable counterpart of `is_space`.
pub fn is_space_char(c: char) -> (r: bool)
    ensures
        r == is_space(c),
{
    c == ' ' || c == '\t' || c == '\r' || c == '\n'
}

/// The sequence without its leading whitespace.
pub open spec fn trim_start(s: Seq<char>) -> Seq<char>
    decreases s.len(),
{
    if s.len() > 0 && is_space(s[0]) {
        trim_start(s.drop_first())
    } else {
        s
    }
}

/// The sequence without its trailing whitespace.
pub open spec fn trim_end(s: Seq<char>) -> Seq<char>
    decreases s.len(),
{
    if s.len() > 0 && is_space(s.last()) {
        trim_end(s.drop_last())
    } else {
        s
    }
}

/// The sequence without leading and trailing whitespace.
pub open spec fn trim_spec(s: Seq<char>) -> Seq<char> {
    trim_end(trim_start(s))
}

/// The slice of `s` without leading and trailing whitespace.
pub fn trim_str<'a>(s: &'a str) -> (r: &'a str)
    ensures
        r@ == trim_spec(s@),
{
    let len: usize = s.unicode_len();
    let mut a: usize = 0;
    proof {
        assert(s@.skip(0) =~= s@);
    }
    while a < len && is_space_char(s.get_char(a))
        invariant
            len == s@.len(),
            a <= len,
            trim_start(s@) == trim_start(s@.skip(a as int)),
        decreases len - a,
    {
        proof {
            assert(s@.skip(a as int)[0] == s@[a as int]);
            assert(s@.skip(a as int).drop_first() =~= s@.skip(a + 1));
        }
        a += 1;
    }
    proof {
        if a < len {
            assert(s@.skip(a as int)[0] == s@[a as int]);
        }
        assert(trim_start(s@) == s@.skip(a as int));
    }
    let mut b: usize = len;
    proof {
        assert(s@.skip(a as int).take(len - a) =~= s@.skip(a as int));
    }
    while b > a && is_space_char(s.get_char(b - 1))
        invariant
            len == s@.len(),
            a <= b <= len,
            trim_start(s@) == s@.skip(a as int),
            trim_end(s@.skip(a as int)) == trim_end(s@.skip(a as int).take(b - a)),
        decreases b,
    {
        proof {
            let sub = s@.skip(a as int).take(b - a);
            assert(sub.last() == s@[b - 1]);
            assert(sub.drop_last() =~= s@.skip(a as int).take(b - a - 1));
        }
        b -= 1;
    }
    proof {
        let sub = s@.skip(a as int).take(b - a);
        if b > a {
            assert(sub.last() == s@[b - 1]);
        }
        assert(trim_end(s@.skip(a as int)) == sub);
        assert(sub =~= s@.subrange(a as int, b as int));
    }
    s.substring_char(a, b)
}

/// Index of the first occurrence of `c`, or -1.
pub open spec fn find_char(s: Seq<char>, c: char) -> int
    decreases s.len(),
{
    if s.len() == 0 {
        -1
    } else if s[0] == c {
        0
    } else {
        let r = find_char(s.drop_first(), c);
        if r == -1 {
            -1
        } else {
            r + 1
        }
    }
}

/// `find_char` finds the first occurrence, and -1 means there is none.
pub proof fn lemma_find_char(s: Seq<char>, c: char)
    ensures
        find_char(s, c) == -1 ==> forall|i: int| 0 <= i < s.len() ==> s[i] != c,
        find_char(s, c) != -1 ==> 0 <= find_char(s, c) < s.len() && s[find_char(s, c)] == c
            && forall|i: int| 0 <= i < find_char(s, c) ==> s[i] != c,
    decreases s.len(),
{
    if s.len() > 0 && s[0] != c {
        let t = s.drop_first();
        lemma_find_char(t, c);
        if find_char(t, c) == -1 {
            assert forall|i: int| 0 <= i < s.len() implies s[i] != c by {
                if i > 0 {
                    assert(t[i - 1] == s[i]);
                }
            }
        } else {
            let e = find_char(s, c);
            assert(t[e - 1] == s[e]);
            assert forall|i: int| 0 <= i < e implies s[i] != c by {
                if i > 0 {
                    assert(t[i - 1] == s[i]);
                }
            }
        }
    }
}

/// The pieces of `s` between occurrences of the separator `c`: one piece
/// more than there are separators, so an empty input gives one empty piece.
pub open spec fn split_char(s: Seq<char>, c: char) -> Seq<Seq<char>>
    decreases s.len(),
    via split_char_dec
{
    if find_char(s, c) == -1 {
        seq![s]
    } else {
        seq![s.take(find_char(s, c))] + split_char(s.skip(find_char(s, c) + 1), c)
    }
}

#[via_fn]
proof fn split_char_dec(s: Seq<char>, c: char) {
    lemma_find_char(s, c);
}

/// The views of a vector of strings.
pub open spec fn strs_view(v: Seq<String>) -> Seq<Seq<char>> {
    v.map_values(|t: String| t@)
}

/// Split `s` at every occurrence of `c`.
pub fn split_by(s: &str, c: char) -> (r: Vec<String>)
    ensures
        strs_view(r@) == split_char(s@, c),
{
    let len: usize = s.unicode_len();
    let mut out: Vec<String> = Vec::new();
    let mut start: usize = 0;
    let mut i: usize = 0;
    proof {
        assert(strs_view(out@) =~= Seq::<Seq<char>>::empty());
        assert(s@.skip(0) =~= s@);
    }
    while i < len
        invariant
            len == s@.len(),
            start <= i <= len,
            split_char(s@, c) == strs_view(out@) + split_char(s@.skip(start as int), c),
            forall|k: int| start <= k < i ==> s@[k] != c,
        decreases len - i,
    {
        if s.get_char(i) == c {
            let piece = s.substring_char(start, i).to_owned();
            let ghost pv = strs_view(out@);
            out.push(piece);
            proof {
                let rest = s@.skip(start as int);
                lemma_find_char(rest, c);
                assert(rest[i - start] == s@[i as int]);
                assert forall|k: int| 0 <= k < i - start implies rest[k] != c by {
                    assert(rest[k] == s@[start + k]);
                }
                if find_char(rest, c) == -1 {
                    assert(false);
                }
                assert(find_char(rest, c) == i - start);
                assert(rest.take(i - start) =~= s@.subrange(start as int, i as int));
                assert(rest.skip(i - start + 1) =~= s@.skip(i + 1));
                assert(strs_view(out@) =~= pv.push(s@.subrange(start as int, i as int)));
                assert(strs_view(out@) + split_char(s@.skip(i + 1), c) =~= pv + split_char(
                    rest,
                    c,
                ));
            }
            start = i + 1;
        }
        i += 1;
    }
    let piece = s.substring_char(start, len).to_owned();
    let ghost pv = strs_view(out@);
    out.push(piece);
    proof {
        let rest = s@.skip(start as int);
        lemma_find_char(rest, c);
        if find_char(rest, c) != -1 {
            assert(rest[find_char(rest, c)] == s@[start + find_char(rest, c)]);
            assert(false);
        }
        assert(rest =~= s@.subrange(start as int, len as int));
        assert(strs_view(out@) =~= pv.push(rest));
        assert(strs_view(out@) =~= pv + seq![rest]);
    }
    out
}

/// Split at the first occurrence of `c`: the part before and the part after.
pub fn split_once_char<'a>(s: &'a str, c: char) -> (r: Option<(&'a str, &'a str)>)
    ensures
        match r {
            Some(p) => find_char(s@, c) >= 0 && p.0@ == s@.take(find_char(s@, c)) && p.1@
                == s@.skip(find_char(s@, c) + 1),
            None => find_char(s@, c) == -1,
        },
{
    let len: usize = s.unicode_len();
    let mut i: usize = 0;
    while i < len
        invariant
            len == s@.len(),
            i <= len,
            forall|k: int| 0 <= k < i ==> s@[k] != c,
        decreases len - i,
    {
        if s.get_char(i) == c {
            proof {
                lemma_find_char(s@, c);
                if find_char(s@, c) == -1 {
                    assert(false);
                }
                assert(find_char(s@, c) == i as int);
            }
            let before = s.substring_char(0, i);
            let after = s.substring_char(i + 1, len);
            proof {
                assert(before@ =~= s@.take(i as int));
                assert(after@ =~= s@.skip(i + 1));
            }
            return Some((before, after));
        }
        i += 1;
    }
    proof {
        lemma_find_char(s@, c);
        if find_char(s@, c) != -1 {
            assert(false);
        }
    }
    None
}

/// Length of the whitespace-free run opening `s`.
pub open spec fn token_len(s: Seq<char>) -> int
    decreases s.len(),
{
    if s.len() == 0 || is_space(s[0]) {
        0
    } else {
        1 + token_len(s.drop_first())
    }
}

/// `token_len` is a prefix length, and every character of the prefix is
/// non-space while the character after it, if any, is a space.
pub proof fn lemma_token_len(s: Seq<char>)
    ensures
        0 <= token_len(s) <= s.len(),
        forall|i: int| 0 <= i < token_len(s) ==> !is_space(s[i]),
        token_len(s) < s.len() ==> is_space(s[token_len(s)]),
    decreases s.len(),
{
    if s.len() > 0 && !is_space(s[0]) {
        let t = s.drop_first();
        lemma_token_len(t);
        assert forall|i: int| 0 <= i < token_len(s) implies !is_space(s[i]) by {
            if i > 0 {
                assert(t[i - 1] == s[i]);
            }
        }
        if token_len(s) < s.len() {
            assert(t[token_len(t)] == s[token_len(s)]);
        }
    }
}

/// The whitespace-separated words of `s`, in order.
pub open spec fn tokens_of(s: Seq<char>) -> Seq<Seq<char>>
    decreases s.len(),
    via tokens_of_dec
{
    if s.len() == 0 {
        Seq::empty()
    } else if is_space(s[0]) {
        tokens_of(s.drop_first())
    } else {
        seq![s.take(token_len(s))] + tokens_of(s.skip(token_len(s)))
    }
}

#[via_fn]
proof fn tokens_of_dec(s: Seq<char>) {
    lemma_token_len(s);
}

/// The words joined with single spaces.
pub open spec fn join_spaced(ts: Seq<Seq<char>>) -> Seq<char>
    decreases ts.len(),
{
    if ts.len() == 0 {
        Seq::empty()
    } else {
        join_spaced(ts.drop_last()) + (if ts.len() == 1 {
            Seq::empty()
        } else {
            seq![' ']
        }) + ts.last()
    }
}

/// Every occurrence of the two-character pattern `p0 p1` replaced by `rep`,
/// left to right, without overlapping.
pub open spec fn replace2(s: Seq<char>, p0: char, p1: char, rep: Seq<char>) -> Seq<char>
    decreases s.len(),
{
    if s.len() < 2 {
        s
    } else if s[0] == p0 && s[1] == p1 {
        rep + replace2(s.skip(2), p0, p1, rep)
    } else {
        seq![s[0]] + replace2(s.drop_first(), p0, p1, rep)
    }
}

/// Every occurrence of the pattern `p0 p1` replaced by `rep` (nothing, or
/// one character).
pub fn replace_pair(v: &Vec<char>, p0: char, p1: char, rep: Option<char>) -> (r: Vec<char>)
    ensures
        r@ == replace2(
            v@,
            p0,
            p1,
            match rep {
                Some(c) => seq![c],
                None => Seq::empty(),
            },
        ),
{
    let ghost rs: Seq<char> = match rep {
        Some(c) => seq![c],
        None => Seq::empty(),
    };
    let len: usize = v.len();
    let mut out: Vec<char> = Vec::new();
    let mut i: usize = 0;
    proof {
        assert(v@.skip(0) =~= v@);
        assert(out@ =~= Seq::<char>::empty());
    }
    while i < len
        invariant
            len == v@.len(),
            i <= len,
            rs == (match rep {
                Some(c) => seq![c],
                None => Seq::<char>::empty(),
            }),
            replace2(v@, p0, p1, rs) == out@ + replace2(v@.skip(i as int), p0, p1, rs),
        decreases len - i,
    {
        let ghost rest = v@.skip(i as int);
        let ghost prev = out@;
        if i + 1 < len && v[i] == p0 && v[i + 1] == p1 {
            proof {
                assert(rest[0] == v@[i as int]);
                assert(rest[1] == v@[i + 1]);
                assert(rest.skip(2) =~= v@.skip(i + 2));
            }
            match rep {
                Some(c) => {
                    out.push(c);
                },
                None => {
                },
            }
            proof {
                assert(out@ =~= prev + rs);
                assert(out@ + replace2(v@.skip(i + 2), p0, p1, rs) =~= prev + replace2(
                    rest,
                    p0,
                    p1,
                    rs,
                ));
            }
            i += 2;
        } else {
            proof {
                assert(rest[0] == v@[i as int]);
                assert(rest.drop_first() =~= v@.skip(i + 1));
            }
            out.push(v[i]);
            proof {
                assert(out@ =~= prev + seq![v@[i as int]]);
                assert(out@ + replace2(v@.skip(i + 1), p0, p1, rs) =~= prev + replace2(
                    rest,
                    p0,
                    p1,
                    rs,
                ));
            }
            i += 1;
        }
    }
    proof {
        assert(v@.skip(len as int).len() == 0);
        assert(out@ + v@.skip(len as int) =~= out@);
    }
    out
}

/// The characters of `s`, as a vector.
pub fn str_to_chars(s: &str) -> (r: Vec<char>)
    ensures
        r@ == s@,
{
    let len: usize = s.unicode_len();
    let mut out: Vec<char> = Vec::new();
    let mut i: usize = 0;
    while i < len
        invariant
            len == s@.len(),
            i <= len,
            out@ == s@.take(i as int),
        decreases len - i,
    {
        out.push(s.get_char(i));
        proof {
            assert(out@ =~= s@.take(i + 1));
        }
        i += 1;
    }
    proof {
        assert(s@.take(len as int) =~= s@);
    }
    out
}

/// The whitespace-separated words of `v`, joined with single spaces.
pub fn normalize_spaces(v: &Vec<char>) -> (r: String)
    ensures
        r@ == join_spaced(tokens_of(v@)),
{
    let len: usize = v.len();
    let mut out = String::new();
    let ghost mut toks: Seq<Seq<char>> = Seq::empty();
    let mut i: usize = 0;
    proof {
        assert(v@.skip(0) =~= v@);
        assert(tokens_of(v@) =~= toks + tokens_of(v@.skip(0)));
    }
    while i < len
        invariant
            len == v@.len(),
            i <= len,
            out@ == join_spaced(toks),
            forall|k: int| 0 <= k < toks.len() ==> toks[k].len() > 0,
            tokens_of(v@) == toks + tokens_of(v@.skip(i as int)),
        decreases len - i,
    {
        let ghost rest = v@.skip(i as int);
        if is_space_char(v[i]) {
            proof {
                assert(rest[0] == v@[i as int]);
                assert(rest.drop_first() =~= v@.skip(i + 1));
            }
            i += 1;
        } else {
            proof {
                assert(rest[0] == v@[i as int]);
                lemma_token_len(rest);
            }
            // read one token
            let tok_start: usize = i;
            let mut j: usize = i;
            let ghost prev = out@;
            let ghost prev_toks = toks;
            if !out.as_str().is_empty() {
                push_char(&mut out, ' ');
            }
            let ghost sep_out = out@;
            while j < len && !is_space_char(v[j])
                invariant
                    len == v@.len(),
                    tok_start <= j <= len,
                    tok_start < len,
                    rest == v@.skip(tok_start as int),
                    token_len(rest) == (j - tok_start) + token_len(v@.skip(j as int)),
                    out@ == sep_out + v@.subrange(tok_start as int, j as int),
                decreases len - j,
            {
                proof {
                    let rj = v@.skip(j as int);
                    assert(rj[0] == v@[j as int]);
                    assert(rj.drop_first() =~= v@.skip(j + 1));
                }
                push_char(&mut out, v[j]);
                proof {
                    assert(out@ =~= sep_out + v@.subrange(tok_start as int, j + 1));
                }
                j += 1;
            }
            proof {
                if j < len {
                    assert(v@.skip(j as int)[0] == v@[j as int]);
                }
                assert(token_len(v@.skip(j as int)) == 0);
                assert(token_len(rest) == j - tok_start);
                let tok = rest.take(token_len(rest));
                assert(tok =~= v@.subrange(tok_start as int, j as int));
                assert(tokens_of(rest) == seq![tok] + tokens_of(rest.skip(token_len(rest))));
                assert(rest.skip(token_len(rest)) =~= v@.skip(j as int));
                toks = prev_toks.push(tok);
                assert(toks.drop_last() =~= prev_toks);
                assert(tok.len() > 0);
                if prev_toks.len() == 0 {
                    assert(prev.len() == 0);
                    assert(join_spaced(toks) =~= out@);
                } else {
                    assert(prev.len() > 0) by {
                        assert(prev == join_spaced(prev_toks));
                        assert(join_spaced(prev_toks) == join_spaced(prev_toks.drop_last()) + (
                        if prev_toks.len() == 1 {
                            Seq::<char>::empty()
                        } else {
                            seq![' ']
                        }) + prev_toks.last());
                        assert(prev_toks.last().len() > 0);
                    }
                    assert(join_spaced(toks) =~= out@);
                }
                assert(tokens_of(v@) =~= toks + tokens_of(v@.skip(j as int)));
            }
            i = j;
        }
    }
    proof {
        assert(tokens_of(v@.skip(len as int)) =~= Seq::<Seq<char>>::empty());
        assert(tokens_of(v@) =~= toks);
    }
    out
}

/// The first whitespace-separated word of `s`, or all of `s` when it has
/// none (then `s` is empty or all whitespace).
pub fn first_token(s: &str) -> (r: String)
    ensures
        r@ == (if tokens_of(s@).len() > 0 {
            tokens_of(s@)[0]
        } else {
            s@
        }),
{
    let len: usize = s.unicode_len();
    let mut i: usize = 0;
    proof {
        assert(s@.skip(0) =~= s@);
    }
    while i < len && is_space_char(s.get_char(i))
        invariant
            len == s@.len(),
            i <= len,
            tokens_of(s@) == tokens_of(s@.skip(i as int)),
        decreases len - i,
    {
        proof {
            assert(s@.skip(i as int)[0] == s@[i as int]);
            assert(s@.skip(i as int).drop_first() =~= s@.skip(i + 1));
        }
        i += 1;
    }
    if i == len {
        proof {
            assert(tokens_of(s@.skip(len as int)) =~= Seq::<Seq<char>>::empty());
        }
        return s.to_owned();
    }
    let ghost rest = s@.skip(i as int);
    proof {
        assert(rest[0] == s@[i as int]);
        lemma_token_len(rest);
    }
    let tok_start: usize = i;
    let mut j: usize = i;
    while j < len && !is_space_char(s.get_char(j))
        invariant
            len == s@.len(),
            tok_start <= j <= len,
            tok_start < len,
            rest == s@.skip(tok_start as int),
            token_len(rest) == (j - tok_start) + token_len(s@.skip(j as int)),
        decreases len - j,
    {
        proof {
            let rj = s@.skip(j as int);
            assert(rj[0] == s@[j as int]);
            assert(rj.drop_first() =~= s@.skip(j + 1));
        }
        j += 1;
    }
    proof {
        if j < len {
            assert(s@.skip(j as int)[0] == s@[j as int]);
        }
        assert(token_len(s@.skip(j as int)) == 0);
        assert(token_len(rest) == j - tok_start);
        let tok = rest.take(token_len(rest));
        assert(tokens_of(rest) == seq![tok] + tokens_of(rest.skip(token_len(rest))));
        assert(tokens_of(s@)[0] == tok);
        assert(tok =~= s@.subrange(tok_start as int, j as int));
    }
    s.substring_char(tok_start, j).to_owned()
}

/// Index of the last occurrence of `c`, or -1.
pub open spec fn rfind_char(s: Seq<char>, c: char) -> int
    decreases s.len(),
{
    if s.len() == 0 {
        -1
    } else if s.last() == c {
        s.len() - 1
    } else {
        rfind_char(s.drop_last(), c)
    }
}

/// The suffix of `s` after its last `/`, or all of `s` when it has none.
pub open spec fn base_name(s: Seq<char>) -> Seq<char> {
    s.skip(rfind_char(s, '/') + 1)
}

/// The suffix of `s` after its last `/`.
pub fn base_name_str<'a>(s: &'a str) -> (r: &'a str)
    ensures
        r@ == base_name(s@),
{
    let len: usize = s.unicode_len();
    let mut b: usize = len;
    proof {
        assert(s@.take(len as int) =~= s@);
    }
    while b > 0 && s.get_char(b - 1) != '/'
        invariant
            len == s@.len(),
            b <= len,
            rfind_char(s@, '/') == rfind_char(s@.take(b as int), '/'),
            forall|i: int| b <= i < len ==> s@[i] != '/',
        decreases b,
    {
        proof {
            let sub = s@.take(b as int);
            assert(sub.last() == s@[b - 1]);
            assert(sub.drop_last() =~= s@.take(b - 1));
        }
        b -= 1;
    }
    proof {
        let sub = s@.take(b as int);
        if b > 0 {
            assert(sub.last() == s@[b - 1]);
            assert(rfind_char(sub, '/') == b - 1);
        } else {
            assert(sub.len() == 0);
        }
        assert(s@.skip(rfind_char(s@, '/') + 1) =~= s@.subrange(b as int, len as int));
    }
    s.substring_char(b, len)
}

/// The string with every character lower-cased.
pub fn to_lower_string(s: &str) -> (r: String)
    ensures
        r@ == lower_seq(s@),
{
    let len: usize = s.unicode_len();
    let mut out = String::new();
    let mut i: usize = 0;
    while i < len
        invariant
            len == s@.len(),
            i <= len,
            out@ == lower_seq(s@).take(i as int),
        decreases len - i,
    {
        push_char(&mut out, to_lower_char(s.get_char(i)));
        proof {
            assert(out@ =~= lower_seq(s@).take(i + 1));
        }
        i += 1;
    }
    proof {
        assert(lower_seq(s@).take(len as int) =~= lower_seq(s@));
    }
    out
}

/// The first whitespace-separated word of `s`, or nothing when it has none.
pub fn first_token_opt(s: &str) -> (r: Option<String>)
    ensures
        match r {
            Some(t) => tokens_of(s@).len() > 0 && t@ == tokens_of(s@)[0],
            None => tokens_of(s@).len() == 0,
        },
{
    let len: usize = s.unicode_len();
    let mut i: usize = 0;
    proof {
        assert(s@.skip(0) =~= s@);
    }
    while i < len && is_space_char(s.get_char(i))
        invariant
            len == s@.len(),
            i <= len,
            tokens_of(s@) == tokens_of(s@.skip(i as int)),
        decreases len - i,
    {
        proof {
            assert(s@.skip(i as int)[0] == s@[i as int]);
            assert(s@.skip(i as int).drop_first() =~= s@.skip(i + 1));
        }
        i += 1;
    }
    if i == len {
        proof {
            assert(tokens_of(s@.skip(len as int)) =~= Seq::<Seq<char>>::empty());
        }
        return None;
    }
    let ghost rest = s@.skip(i as int);
    proof {
        assert(rest[0] == s@[i as int]);
        lemma_token_len(rest);
    }
    let tok_start: usize = i;
    let mut j: usize = i;
    while j < len && !is_space_char(s.get_char(j))
        invariant
            len == s@.len(),
            tok_start <= j <= len,
            tok_start < len,
            rest == s@.skip(tok_start as int),
            token_len(rest) == (j - tok_start) + token_len(s@.skip(j as int)),
        decreases len - j,
    {
        proof {
            let rj = s@.skip(j as int);
            assert(rj[0] == s@[j as int]);
            assert(rj.drop_first() =~= s@.skip(j + 1));
        }
        j += 1;
    }
    proof {
        if j < len {
            assert(s@.skip(j as int)[0] == s@[j as int]);
        }
        assert(token_len(s@.skip(j as int)) == 0);
        assert(token_len(rest) == j - tok_start);
        let tok = rest.take(token_len(rest));
        assert(tokens_of(rest) == seq![tok] + tokens_of(rest.skip(token_len(rest))));
        assert(tokens_of(s@)[0] == tok);
        assert(tok =~= s@.subrange(tok_start as int, j as int));
    }
    Some(s.substring_char(tok_start, j).to_owned())
}

/// Lexicographic order on character sequences, by code point: `a` comes at
/// or before `b`. On UTF-8 text this is the same order as byte-wise string
/// comparison, since UTF-8 preserves code-point order.
pub open spec fn seq_le(a: Seq<char>, b: Seq<char>) -> bool
    decreases a.len(),
{
    if a.len() == 0 {
        true
    } else if b.len() == 0 {
        false
    } else if a[0] != b[0] {
        a[0] < b[0]
    } else {
        seq_le(a.drop_first(), b.drop_first())
    }
}

/// Lexicographic comparison of two strings: is `a` at or before `b`?
pub fn str_le(a: &str, b: &str) -> (r: bool)
    ensures
        r == seq_le(a@, b@),
{
    let alen: usize = a.unicode_len();
    let blen: usize = b.unicode_len();
    let mut i: usize = 0;
    proof {
        assert(a@.skip(0) =~= a@);
        assert(b@.skip(0) =~= b@);
    }
    while i < alen && i < blen
        invariant
            alen == a@.len(),
            blen == b@.len(),
            i <= alen,
            i <= blen,
            seq_le(a@, b@) == seq_le(a@.skip(i as int), b@.skip(i as int)),
        decreases alen - i,
    {
        let ca = a.get_char(i);
        let cb = b.get_char(i);
        proof {
            assert(a@.skip(i as int)[0] == a@[i as int]);
            assert(b@.skip(i as int)[0] == b@[i as int]);
            assert(a@.skip(i as int).drop_first() =~= a@.skip(i + 1));
            assert(b@.skip(i as int).drop_first() =~= b@.skip(i + 1));
        }
        if ca != cb {
            return ca < cb;
        }
        i += 1;
    }
    proof {
        if i == alen {
            assert(a@.skip(i as int).len() == 0);
        } else {
            assert(b@.skip(i as int).len() == 0);
            assert(a@.skip(i as int).len() > 0);
        }
    }
    i == alen
}

/// Every sequence contains itself.
pub proof fn lemma_contains_self(s: Seq<char>)
    ensures
        contains_seq(s, s),
{
    assert(s.subrange(0, s.len() as int) =~= s);
    assert(contains_at(s, s, 0));
}

/// A stored key and a query match when, after lower-casing both, either one
/// contains the other.
pub open spec fn fuzzy_matches(key: Seq<char>, query: Seq<char>) -> bool {
    contains_seq(lower_seq(key), lower_seq(query)) || contains_seq(
        lower_seq(query),
        lower_seq(key),
    )
}

/// Executable counterpart of `fuzzy_matches`.
pub fn fuzzy_match(key: &str, query: &str) -> (r: bool)
    ensures
        r == fuzzy_matches(key@, query@),
{
    if contains_lower(key, query) {
        true
    } else {
        contains_lower(query, key)
    }
}

} // verus!
