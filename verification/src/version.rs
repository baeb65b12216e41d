use vstd::prelude::*;

use crate::release::{lemma_decimal_digits, lemma_decimal_parses_back};
use crate::text::{chars_of, decimal};

verus! {

/// An ASCII decimal digit.
pub open spec fn is_digit(c: char) -> bool {
    '0' <= c && c <= '9'
}

/// The number a decimal digit stands for.
pub open spec fn digit_value(c: char) -> nat {
    (c as int - '0' as int) as nat
}

/// The number that a string of decimal digits spells, most significant first.
pub open spec fn digits_value(s: Seq<char>) -> nat
    decreases s.len(),
{
    if s.len() == 0 {
        0
    } else {
        digits_value(s.drop_last()) * 10 + digit_value(s.last())
    }
}

pub open spec fn all_digits(s: Seq<char>) -> bool {
    forall|i: int| 0 <= i < s.len() ==> is_digit(#[trigger] s[i])
}

/// The digits of a `u64` literal: the text after an optional leading `+`.
pub open spec fn unsigned_digits(s: Seq<char>) -> Seq<char> {
    if s.len() > 0 && s[0] == '+' {
        s.drop_first()
    } else {
        s
    }
}

/// What `str::parse::<u64>` accepts and gives: an optional `+`, then one or more
/// decimal digits whose value fits in a `u64`.
pub open spec fn parse_u64_spec(s: Seq<char>) -> Option<u64> {
    let digits = unsigned_digits(s);
    if digits.len() > 0 && all_digits(digits) && digits_value(digits) <= u64::MAX {
        Some(digits_value(digits) as u64)
    } else {
        None
    }
}

/// The pieces of `s` between its `.` characters, as `str::split('.')` gives them.
pub open spec fn split_dots(s: Seq<char>) -> Seq<Seq<char>>
    decreases s.len(),
{
    if s.len() == 0 {
        seq![Seq::empty()]
    } else {
        let parts = split_dots(s.drop_last());
        if s.last() == '.' {
            parts.push(Seq::empty())
        } else {
            parts.update(parts.len() - 1, parts.last().push(s.last()))
        }
    }
}

/// The number of the `k`-th piece: zero where it is missing or does not parse.
pub open spec fn segment_number(parts: Seq<Seq<char>>, k: int) -> u64 {
    if 0 <= k < parts.len() {
        match parse_u64_spec(parts[k]) {
            Some(n) => n,
            None => 0,
        }
    } else {
        0
    }
}

/// The (major, minor, patch) triple a version string stands for.
pub open spec fn version_triple(value: Seq<char>) -> (u64, u64, u64) {
    let parts = split_dots(value);
    (segment_number(parts, 0), segment_number(parts, 1), segment_number(parts, 2))
}

/// Lexicographic order on triples.
pub open spec fn triple_greater(a: (u64, u64, u64), b: (u64, u64, u64)) -> bool {
    a.0 > b.0 || (a.0 == b.0 && (a.1 > b.1 || (a.1 == b.1 && a.2 > b.2)))
}

/// `candidate` names a later release than `current`.
pub open spec fn version_newer(candidate: Seq<char>, current: Seq<char>) -> bool {
    triple_greater(version_triple(candidate), version_triple(current))
}

/// Splitting at dots always gives at least one piece.
pub proof fn lemma_split_dots_nonempty(s: Seq<char>)
    ensures
        split_dots(s).len() >= 1,
    decreases s.len(),
{
    if s.len() > 0 {
        lemma_split_dots_nonempty(s.drop_last());
    }
}

/// Parses a `u64` as `str::parse::<u64>` does.
pub fn parse_u64(chars: &Vec<char>) -> (n: Option<u64>)
    ensures
        n == parse_u64_spec(chars@),
{
    let len = chars.len();
    let mut start: usize = 0;
    if len > 0 && chars[0] == '+' {
        start = 1;
    }
    let ghost digits = chars@.subrange(start as int, len as int);
    assert(digits == unsigned_digits(chars@));
    if start == len {
        return None;
    }
    let mut value: u64 = 0;
    let mut overflow = false;
    let mut i: usize = start;
    while i < len
        invariant
            start <= i <= len,
            len == chars@.len(),
            start < len,
            digits == chars@.subrange(start as int, len as int),
            digits == unsigned_digits(chars@),
            all_digits(digits.take(i - start)),
            !overflow ==> value == digits_value(digits.take(i - start)),
            overflow ==> digits_value(digits.take(i - start)) > u64::MAX,
        decreases len - i,
    {
        let c = chars[i];
        if !('0' <= c && c <= '9') {
            assert(digits[i - start] == c);
            return None;
        }
        let d: u64 = ((c as u32) - ('0' as u32)) as u64;
        proof {
            let p = digits.take(i - start);
            let q = digits.take(i + 1 - start);
            assert(q.drop_last() == p);
            assert(q.last() == c);
            assert(all_digits(q)) by {
                assert forall|k: int| 0 <= k < q.len() implies is_digit(#[trigger] q[k]) by {
                    if k < p.len() {
                        assert(q[k] == p[k]);
                    }
                }
            }
            assert(digits_value(q) == digits_value(p) * 10 + d);
        }
        if !overflow {
            match value.checked_mul(10) {
                Some(v) => match v.checked_add(d) {
                    Some(w) => {
                        value = w;
                    },
                    None => {
                        overflow = true;
                    },
                },
                None => {
                    overflow = true;
                },
            }
        }
        i = i + 1;
    }
    proof {
        assert(digits.take(len - start) == digits);
    }
    if overflow {
        None
    } else {
        Some(value)
    }
}


/// The number of a piece as `str::parse::<u64>` gives it, zero where it does not parse.
fn piece_number(piece: &Vec<char>) -> (n: u64)
    ensures
        n == (match parse_u64_spec(piece@) {
            Some(v) => v,
            None => 0,
        }),
{
    match parse_u64(piece) {
        Some(v) => v,
        None => 0,
    }
}

/// Reads the first three `.`-separated numbers of `value`; a missing or malformed
/// one counts as zero, and pieces past the third are ignored.
pub fn parse_version(value: &str) -> (triple: (u64, u64, u64))
    ensures
        triple == version_triple(value@),
{
    let chars = chars_of(value);
    let len = chars.len();
    let mut numbers: Vec<u64> = Vec::new();
    let mut current: Vec<char> = Vec::new();
    let mut i: usize = 0;
    while i < len
        invariant
            i <= len,
            len == chars@.len(),
            chars@ == value@,
            split_dots(chars@.take(i as int)).len() == numbers@.len() + 1,
            current@ == split_dots(chars@.take(i as int)).last(),
            forall|k: int|
                0 <= k < numbers@.len() ==> #[trigger] numbers@[k] == segment_number(
                    split_dots(chars@.take(i as int)),
                    k,
                ),
        decreases len - i,
    {
        let c = chars[i];
        let ghost before = split_dots(chars@.take(i as int));
        proof {
            assert(chars@.take(i + 1).drop_last() == chars@.take(i as int));
            assert(chars@.take(i + 1).last() == c);
        }
        if c == '.' {
            let n = piece_number(&current);
            numbers.push(n);
            current = Vec::new();
            proof {
                let after = split_dots(chars@.take(i + 1));
                assert(after == before.push(Seq::empty()));
                assert forall|k: int| 0 <= k < numbers@.len() implies #[trigger] numbers@[k]
                    == segment_number(after, k) by {
                    if k < numbers@.len() - 1 {
                        assert(after[k] == before[k]);
                    }
                }
                assert(current@ == after.last());
            }
        } else {
            current.push(c);
            proof {
                let after = split_dots(chars@.take(i + 1));
                assert(after == before.update(before.len() - 1, before.last().push(c)));
                assert forall|k: int| 0 <= k < numbers@.len() implies #[trigger] numbers@[k]
                    == segment_number(after, k) by {
                    assert(after[k] == before[k]);
                }
            }
        }
        i = i + 1;
    }
    let last = piece_number(&current);
    numbers.push(last);
    proof {
        assert(chars@.take(len as int) == value@);
        let parts = split_dots(value@);
        assert forall|k: int| 0 <= k < numbers@.len() implies #[trigger] numbers@[k]
            == segment_number(parts, k) by {}
    }
    let major = numbers[0];
    let minor = if numbers.len() > 1 {
        numbers[1]
    } else {
        0
    };
    let patch = if numbers.len() > 2 {
        numbers[2]
    } else {
        0
    };
    (major, minor, patch)
}

/// Whether `candidate` names a later release than `current`, comparing their
/// (major, minor, patch) triples in order.
pub fn is_newer(candidate: &str, current: &str) -> (newer: bool)
    ensures
        newer == version_newer(candidate@, current@),
{
    let a = parse_version(candidate);
    let b = parse_version(current);
    a.0 > b.0 || (a.0 == b.0 && (a.1 > b.1 || (a.1 == b.1 && a.2 > b.2)))
}


/// No version is newer than itself.
pub proof fn lemma_newer_irreflexive(version: Seq<char>)
    ensures
        !version_newer(version, version),
{
}

/// Of two versions, at most one is newer than the other.
pub proof fn lemma_newer_asymmetric(a: Seq<char>, b: Seq<char>)
    requires
        version_newer(a, b),
    ensures
        !version_newer(b, a),
{
}

/// Newer-than is transitive.
pub proof fn lemma_newer_transitive(a: Seq<char>, b: Seq<char>, c: Seq<char>)
    requires
        version_newer(a, b),
        version_newer(b, c),
    ensures
        version_newer(a, c),
{
}

/// Any two versions either stand for the same release triple or one is newer.
pub proof fn lemma_newer_total(a: Seq<char>, b: Seq<char>)
    ensures
        version_newer(a, b) || version_newer(b, a) || version_triple(a) == version_triple(b),
{
}

/// A version of two pieces compares as if its missing patch number were written
/// out as `.0`.
pub proof fn lemma_missing_patch_is_zero(version: Seq<char>)
    requires
        split_dots(version).len() == 2,
    ensures
        version_triple(version + ".0"@) == version_triple(version),
{
    reveal_strlit(".0");
    let extended = version + ".0"@;
    let with_dot = version.push('.');
    assert(extended.drop_last() == with_dot);
    assert(with_dot.drop_last() == version);
    let parts = split_dots(version);
    let ext_parts = split_dots(extended);
    assert(split_dots(with_dot) == parts.push(Seq::empty()));
    assert(ext_parts == parts.push(seq!['0']));
    let zero: Seq<char> = seq!['0'];
    assert(unsigned_digits(zero) == zero);
    assert(zero.drop_last() =~= Seq::<char>::empty());
    assert(digits_value(zero.drop_last()) == 0);
    assert(zero.last() == '0');
    assert(digits_value(zero) == 0);
    assert(all_digits(zero));
    assert(parse_u64_spec(zero) == Some(0u64));
    assert(segment_number(ext_parts, 0) == segment_number(parts, 0));
    assert(segment_number(ext_parts, 1) == segment_number(parts, 1));
}


proof fn lemma_split_join(a: Seq<char>, b: Seq<char>)
    ensures
        split_dots(a + seq!['.'] + b) == split_dots(a) + split_dots(b),
    decreases b.len(),
{
    let joined = a + seq!['.'] + b;
    if b.len() == 0 {
        assert(joined == a.push('.'));
        assert(joined.drop_last() == a);
        assert(split_dots(b) == seq![Seq::<char>::empty()]);
    } else {
        lemma_split_join(a, b.drop_last());
        lemma_split_dots_nonempty(b.drop_last());
        lemma_split_dots_nonempty(a);
        assert(joined.drop_last() == a + seq!['.'] + b.drop_last());
        assert(joined.last() == b.last());
    }
}

proof fn lemma_split_without_dots(x: Seq<char>)
    requires
        forall|i: int| 0 <= i < x.len() ==> #[trigger] x[i] != '.',
    ensures
        split_dots(x) == seq![x],
    decreases x.len(),
{
    if x.len() > 0 {
        lemma_split_without_dots(x.drop_last());
        assert(x.drop_last().push(x.last()) == x);
    } else {
        assert(x == Seq::<char>::empty());
    }
}

proof fn lemma_decimal_piece(n: u64)
    ensures
        split_dots(decimal(n as nat)) == seq![decimal(n as nat)],
        parse_u64_spec(decimal(n as nat)) == Some(n),
{
    lemma_decimal_digits(n as nat);
    lemma_decimal_parses_back(n);
    let d = decimal(n as nat);
    assert forall|i: int| 0 <= i < d.len() implies #[trigger] d[i] != '.' by {
        assert(is_digit(d[i]));
    }
    lemma_split_without_dots(d);
}

/// Writing three numbers as `major.minor.patch` and reading the text back gives
/// the same three numbers.
pub proof fn lemma_version_round_trip(major: u64, minor: u64, patch: u64)
    ensures
        version_triple(
            decimal(major as nat) + seq!['.'] + decimal(minor as nat) + seq!['.'] + decimal(
                patch as nat,
            ),
        ) == (major, minor, patch),
{
    let a = decimal(major as nat);
    let b = decimal(minor as nat);
    let c = decimal(patch as nat);
    lemma_decimal_piece(major);
    lemma_decimal_piece(minor);
    lemma_decimal_piece(patch);
    lemma_split_join(a, b);
    lemma_split_join(a + seq!['.'] + b, c);
    let parts = split_dots(a + seq!['.'] + b + seq!['.'] + c);
    assert(parts == seq![a, b, c]);
}

} // verus!
