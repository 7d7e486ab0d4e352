//! Character-level helpers: reading a string slice as a sequence of characters
//! and parsing unsigned decimal numerals.

use vstd::prelude::*;

verus! {

/// The characters of `s`, in order.
pub fn chars_of(s: &str) -> (out: Vec<char>)
    ensures
        out@ == s@,
{
    let mut out: Vec<char> = Vec::new();
    let mut it = s.chars();
    for c in iter: it
        invariant
            out@ == iter.seq().take(iter.index() as int),
    {
        out.push(c);
    }
    out
}

/// Whether `c` is one of the ten ASCII digits.
pub open spec fn is_digit(c: char) -> bool {
    '0' <= c <= '9'
}

/// The value of the ASCII digit `c`.
pub open spec fn digit_value(c: char) -> nat {
    (c as int - '0' as int) as nat
}

/// Whether every character of `s` is an ASCII digit.
pub open spec fn all_digits(s: Seq<char>) -> bool {
    forall|i: int| 0 <= i < s.len() ==> is_digit(#[trigger] s[i])
}

/// The number that the digit string `s` denotes in base ten.
pub open spec fn decimal_value(s: Seq<char>) -> nat
    decreases s.len(),
{
    if s.len() == 0 {
        0
    } else {
        decimal_value(s.drop_last()) * 10 + digit_value(s.last())
    }
}

/// What is left of `s` once one leading `+`, if there is one, is taken off.
pub open spec fn numeral_body(s: Seq<char>) -> Seq<char> {
    if s.len() > 0 && s[0] == '+' {
        s.skip(1)
    } else {
        s
    }
}

/// The digits of an unsigned numeral: an optional `+`, then one digit or more.
pub open spec fn numeral_digits(s: Seq<char>) -> Option<Seq<char>> {
    let body = numeral_body(s);
    if body.len() > 0 && all_digits(body) {
        Some(body)
    } else {
        None
    }
}

/// The number that `s` denotes as an unsigned decimal numeral no larger than
/// `max`, if it is one.
pub open spec fn unsigned_numeral(s: Seq<char>, max: nat) -> Option<nat> {
    match numeral_digits(s) {
        Some(digits) => if decimal_value(digits) <= max {
            Some(decimal_value(digits))
        } else {
            None
        },
        None => None,
    }
}

/// A digit string denotes at least what any of its prefixes denotes.
pub proof fn lemma_decimal_value_prefix(s: Seq<char>, n: int)
    requires
        0 <= n <= s.len(),
    ensures
        decimal_value(s.take(n)) <= decimal_value(s),
    decreases s.len(),
{
    if n == s.len() {
        assert(s.take(n) == s);
    } else {
        lemma_decimal_value_prefix(s.drop_last(), n);
        assert(s.drop_last().take(n) == s.take(n));
    }
}

/// Parses `chars[from..to]` as an unsigned decimal numeral no larger than `max`.
pub fn parse_unsigned(chars: &Vec<char>, from: usize, to: usize, max: u64) -> (out: Option<u64>)
    requires
        from <= to <= chars.len(),
    ensures
        out matches Some(n) ==> unsigned_numeral(chars@.subrange(from as int, to as int), max as nat)
            == Some(n as nat),
        out is None ==> unsigned_numeral(chars@.subrange(from as int, to as int), max as nat) is None,
{
    let ghost whole = chars@.subrange(from as int, to as int);
    let start: usize = if from < to && chars[from] == '+' {
        from + 1
    } else {
        from
    };
    let ghost body = chars@.subrange(start as int, to as int);
    assert(body == numeral_body(whole));
    if start == to {
        return None;
    }
    let mut acc: u64 = 0;
    let mut i: usize = start;
    while i < to
        invariant
            start <= i <= to <= chars.len(),
            body == chars@.subrange(start as int, to as int),
            whole == chars@.subrange(from as int, to as int),
            body == numeral_body(whole),
            all_digits(body.take(i - start)),
            acc as nat == decimal_value(body.take(i - start)),
            acc <= max,
        decreases to - i,
    {
        let c: char = chars[i];
        let ghost next = body.take(i - start + 1);
        assert(next.drop_last() == body.take(i - start));
        assert(next.last() == c);
        if !(c >= '0' && c <= '9') {
            assert(!is_digit(body[i - start]));
            return None;
        }
        let d: u64 = (c as u64) - ('0' as u64);
        assert(d as nat == digit_value(c));
        if acc > max / 10 || d > max - acc * 10 {
            proof {
                lemma_decimal_value_prefix(body, i - start + 1);
            }
            return None;
        }
        acc = acc * 10 + d;
        i = i + 1;
    }
    assert(body.take(to - start) == body);
    Some(acc)
}

/// The index of the first `c` in `s`, or the length of `s` where there is none.
pub open spec fn find_char(s: Seq<char>, c: char) -> int
    decreases s.len(),
{
    if s.len() == 0 {
        0
    } else if s[0] == c {
        0
    } else {
        1 + find_char(s.drop_first(), c)
    }
}

/// `find_char` returns the least index that holds `c`.
pub proof fn lemma_find_char(s: Seq<char>, c: char)
    ensures
        0 <= find_char(s, c) <= s.len(),
        find_char(s, c) < s.len() ==> s[find_char(s, c)] == c,
        forall|i: int| 0 <= i < find_char(s, c) ==> s[i] != c,
    decreases s.len(),
{
    if s.len() > 0 && s[0] != c {
        let rest = s.drop_first();
        lemma_find_char(rest, c);
        assert forall|i: int| 0 <= i < find_char(s, c) implies s[i] != c by {
            if i > 0 {
                assert(s[i] == rest[i - 1]);
            }
        }
    }
}

/// An index that holds `c` and has no `c` before it is the one `find_char` gives.
pub proof fn lemma_find_char_unique(s: Seq<char>, c: char, at: int)
    requires
        0 <= at <= s.len(),
        at < s.len() ==> s[at] == c,
        forall|i: int| 0 <= i < at ==> s[i] != c,
    ensures
        find_char(s, c) == at,
{
    lemma_find_char(s, c);
    let found = find_char(s, c);
    if found < at {
        assert(s[found] != c);
    }
}

/// Finds the first `c` in `chars`; the length of `chars` where there is none.
pub fn find(chars: &Vec<char>, c: char) -> (at: usize)
    ensures
        at == find_char(chars@, c),
{
    let mut i: usize = 0;
    while i < chars.len()
        invariant
            i <= chars.len(),
            forall|j: int| 0 <= j < i ==> chars@[j] != c,
        decreases chars.len() - i,
    {
        if chars[i] == c {
            proof {
                lemma_find_char_unique(chars@, c, i as int);
            }
            return i;
        }
        i = i + 1;
    }
    proof {
        lemma_find_char_unique(chars@, c, i as int);
    }
    i
}

/// The texts that `strings` hold.
pub open spec fn texts_of(strings: Seq<String>) -> Seq<Seq<char>> {
    strings.map_values(|s: String| s@)
}

} // verus!
