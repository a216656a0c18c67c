//! The run's parameters as the caller types them: the extra characters, the
//! word length and threshold, and the name of the output file.

use crate::classify::is_extra_candidate;
use crate::report::{decimal, push_decimal, string_of};
use vstd::prelude::*;

verus! {

proof fn lemma_contains_push(s: Seq<char>, x: char, c: char)
    ensures
        s.push(x).contains(c) <==> s.contains(c) || c == x,
{
    if s.contains(c) {
        let k = choose|k: int| 0 <= k < s.len() && s[k] == c;
        assert(s.push(x)[k] == c);
    }
    if c == x {
        assert(s.push(x)[s.len() as int] == c);
    }
    if s.push(x).contains(c) && c != x {
        let k = choose|k: int| 0 <= k < s.len() + 1 && s.push(x)[k] == c;
        assert(s[k] == c);
    }
}

/// The characters of `input` that become extra allowed characters, each
/// once, in order of first appearance.
pub fn get_extra_chars(input: &Vec<char>) -> (r: Vec<char>)
    ensures
        r@.no_duplicates(),
        forall|c: char| #[trigger] r@.contains(c) <==> input@.contains(c) && is_extra_candidate(c),
{
    let mut r: Vec<char> = Vec::new();
    let mut i: usize = 0;
    while i < input.len()
        invariant
            i <= input.len(),
            r@.no_duplicates(),
            forall|c: char| #[trigger] r@.contains(c) <==> input@.take(i as int).contains(c) && is_extra_candidate(c),
        decreases input.len() - i,
    {
        let c = input[i];
        let code = c as u32;
        let keep = c != '\r' && c != '\n' && (code < 0x4e00 || code > 0x9fff);
        let mut seen = false;
        let mut j: usize = 0;
        while j < r.len()
            invariant
                j <= r.len(),
                seen <==> r@.take(j as int).contains(c),
            decreases r.len() - j,
        {
            if r[j] == c {
                seen = true;
            }
            assert(r@.take(j + 1) == r@.take(j as int).push(r@[j as int]));
            proof {
                lemma_contains_push(r@.take(j as int), r@[j as int], c);
            }
            j += 1;
        }
        assert(r@.take(j as int) == r@);
        assert(input@.take(i + 1) == input@.take(i as int).push(c));
        let ghost before = r@;
        if keep && !seen {
            r.push(c);
        }
        assert forall|d: char| #[trigger] r@.contains(d) <==> input@.take(i + 1).contains(d) && is_extra_candidate(d) by {
            lemma_contains_push(input@.take(i as int), c, d);
            lemma_contains_push(before, c, d);
        }
        i += 1;
    }
    assert(input@.take(i as int) == input@);
    r
}

/// The file name under which a result is saved: `<stem>_<len>字词频.txt` on the
/// first attempt, `<stem>_<len>字词频_<attempt>.txt` from the second on.
pub open spec fn output_name(stem: Seq<char>, word_len: nat, attempt: nat) -> Seq<char> {
    stem + seq!['_'] + decimal(word_len) + seq!['字', '词', '频'] + (if attempt >= 2 {
        seq!['_'] + decimal(attempt)
    } else {
        seq![]
    }) + seq!['.', 't', 'x', 't']
}

/// The output file name for a corpus file named `stem`, on the given attempt;
/// a caller tries attempts from the first upward until the name is free.
pub fn get_output_path(stem: &Vec<char>, word_len: usize, attempt: usize) -> (r: String)
    ensures
        r@ == output_name(stem@, word_len as nat, attempt as nat),
{
    let mut out: Vec<char> = Vec::new();
    let mut i: usize = 0;
    while i < stem.len()
        invariant
            i <= stem.len(),
            out@ == stem@.take(i as int),
        decreases stem.len() - i,
    {
        out.push(stem[i]);
        assert(stem@.take(i + 1) == stem@.take(i as int).push(stem@[i as int]));
        i += 1;
    }
    assert(stem@.take(i as int) == stem@);
    out.push('_');
    push_decimal(&mut out, word_len);
    out.push('字');
    out.push('词');
    out.push('频');
    let ghost mid = out@;
    if attempt >= 2 {
        out.push('_');
        push_decimal(&mut out, attempt);
    }
    let ghost tail = if attempt >= 2 { seq!['_'] + decimal(attempt as nat) } else { seq![] };
    assert(out@ == mid + tail);
    out.push('.');
    out.push('t');
    out.push('x');
    out.push('t');
    assert(out@ =~= output_name(stem@, word_len as nat, attempt as nat));
    string_of(&out)
}

pub open spec fn is_digit(c: char) -> bool {
    48 <= c as u32 && c as u32 <= 57
}

/// The value of a string of decimal digits.
pub open spec fn digits_value(s: Seq<char>) -> nat
    decreases s.len(),
{
    if s.len() == 0 {
        0
    } else {
        digits_value(s.drop_last()) * 10 + (s.last() as u32 - 48) as nat
    }
}

/// The digits of a number's text, past an optional leading `+`.
pub open spec fn unsigned_part(s: Seq<char>) -> Seq<char> {
    if s.len() > 0 && s[0] == '+' {
        s.drop_first()
    } else {
        s
    }
}

/// Whether `s` is the text of a non-negative integer that fits in `usize`.
pub open spec fn is_count_text(s: Seq<char>) -> bool {
    let d = unsigned_part(s);
    &&& d.len() > 0
    &&& forall|i: int| 0 <= i < d.len() ==> is_digit(#[trigger] d[i])
    &&& digits_value(d) <= usize::MAX
}

pub open spec fn count_text_value(s: Seq<char>) -> nat {
    digits_value(unsigned_part(s))
}

proof fn lemma_digits_prefix_le(d: Seq<char>, i: int)
    requires
        0 <= i <= d.len(),
        forall|k: int| 0 <= k < d.len() ==> is_digit(#[trigger] d[k]),
    ensures
        digits_value(d.take(i)) <= digits_value(d),
    decreases d.len(),
{
    if i < d.len() {
        let p = d.drop_last();
        assert(p.take(i) == d.take(i));
        assert forall|k: int| 0 <= k < p.len() implies is_digit(#[trigger] p[k]) by {
            assert(p[k] == d[k]);
        }
        lemma_digits_prefix_le(p, i);
    } else {
        assert(d.take(i) == d);
    }
}

/// Reads a non-negative integer, as `usize`'s `FromStr` does: an optional
/// `+`, then one or more decimal digits, the value fitting in `usize`.
pub fn parse_count(s: &Vec<char>) -> (r: Option<usize>)
    ensures
        match r {
            Some(n) => is_count_text(s@) && n == count_text_value(s@),
            None => !is_count_text(s@),
        },
{
    let ghost d = unsigned_part(s@);
    let start: usize = if s.len() > 0 && s[0] == '+' { 1 } else { 0 };
    assert(d == s@.subrange(start as int, s@.len() as int));
    if start >= s.len() {
        assert(d.len() == 0);
        return None;
    }
    let mut value: usize = 0;
    let mut i: usize = start;
    while i < s.len()
        invariant
            start <= i <= s.len(),
            d == unsigned_part(s@),
            d == s@.subrange(start as int, s@.len() as int),
            forall|k: int| 0 <= k < i - start ==> is_digit(#[trigger] d[k]),
            value == digits_value(d.take(i - start)),
        decreases s.len() - i,
    {
        let c = s[i];
        let code = c as u32;
        if code < 48 || code > 57 {
            assert(d[i - start] == c);
            return None;
        }
        let ghost k = i - start;
        assert(d.take(k + 1).drop_last() == d.take(k));
        assert(d.take(k + 1).last() == c);
        let digit = (code - 48) as usize;
        assert(digits_value(d.take(k + 1)) == value * 10 + digit);
        match value.checked_mul(10) {
            Some(tens) => match tens.checked_add(digit) {
                Some(next) => {
                    value = next;
                },
                None => {
                    proof {
                        lemma_digits_value_overflow(d, k + 1, i, s);
                    }
                    return None;
                },
            },
            None => {
                proof {
                    assert(value * 10 + digit > usize::MAX) by (nonlinear_arith)
                        requires
                            value * 10 > usize::MAX,
                            digit >= 0,
                    ;
                    lemma_digits_value_overflow(d, k + 1, i, s);
                }
                return None;
            },
        }
        i += 1;
    }
    assert(d.take(i - start) == d);
    Some(value)
}

proof fn lemma_digits_value_overflow(d: Seq<char>, n: int, i: usize, s: &Vec<char>)
    requires
        0 < n <= d.len(),
        digits_value(d.take(n)) > usize::MAX,
        d == unsigned_part(s@),
    ensures
        !is_count_text(s@),
{
    if forall|k: int| 0 <= k < d.len() ==> is_digit(#[trigger] d[k]) {
        lemma_digits_prefix_le(d, n);
    }
}

/// The word length a caller typed: a positive integer, else nothing.
pub fn parse_word_len(input: &Vec<char>) -> (r: Option<usize>)
    ensures
        match r {
            Some(n) => is_count_text(input@) && n == count_text_value(input@) && n > 0,
            None => !is_count_text(input@) || count_text_value(input@) == 0,
        },
{
    match parse_count(input) {
        Some(n) => if n > 0 {
            Some(n)
        } else {
            None
        },
        None => None,
    }
}

/// The threshold a caller typed: empty input means one, else a non-negative
/// integer, else nothing.
pub fn parse_threshold(input: &Vec<char>) -> (r: Option<usize>)
    ensures
        input@.len() == 0 ==> r == Some(1usize),
        input@.len() > 0 ==> match r {
            Some(n) => is_count_text(input@) && n == count_text_value(input@),
            None => !is_count_text(input@),
        },
{
    if input.len() == 0 {
        Some(1)
    } else {
        parse_count(input)
    }
}

} // verus!
