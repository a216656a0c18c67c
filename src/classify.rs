//! The character classifier: which characters may take part in a word.

use std::collections::HashSet;
use vstd::prelude::*;

verus! {

broadcast use vstd::std_specs::hash::group_hash_axioms;

/// First code point of the CJK Unified Ideographs block.
pub const CJK_FIRST: u32 = 0x4e00;

/// Last code point of the CJK Unified Ideographs block.
pub const CJK_LAST: u32 = 0x9fff;

pub open spec fn in_cjk_block(c: char) -> bool {
    CJK_FIRST <= c as u32 && c as u32 <= CJK_LAST
}

/// A character forms words when it is a CJK ideograph or one of the extra
/// characters the caller allowed.
pub open spec fn is_valid(extra: Set<char>, c: char) -> bool {
    in_cjk_block(c) || extra.contains(c)
}

pub open spec fn is_line_break(c: char) -> bool {
    c == '\r' || c == '\n'
}

/// Which characters of a caller's input become extra allowed characters:
/// everything but line terminators and ideographs, which are valid anyway.
pub open spec fn is_extra_candidate(c: char) -> bool {
    !is_line_break(c) && !in_cjk_block(c)
}

/// The validity predicate, with the extra characters held by code point so
/// that a lookup costs one hash probe.
pub struct Classifier {
    extra: HashSet<u32>,
}

impl View for Classifier {
    type V = Set<char>;

    closed spec fn view(&self) -> Set<char> {
        Set::new(|c: char| self.extra@.contains(c as u32))
    }
}

impl Classifier {
    /// A classifier that accepts the ideographs and every character of `extra_chars`.
    pub fn new(extra_chars: &Vec<char>) -> (r: Self)
        ensures
            forall|c: char| #[trigger] r@.contains(c) <==> extra_chars@.contains(c),
    {
        let mut r = Classifier { extra: HashSet::new() };
        let mut i: usize = 0;
        while i < extra_chars.len()
            invariant
                i <= extra_chars.len(),
                forall|c: char|
                    #![trigger r.extra@.contains(c as u32)]
                    #![trigger extra_chars@.take(i as int).contains(c)]
                    r.extra@.contains(c as u32) <==> extra_chars@.take(i as int).contains(c),
            decreases extra_chars.len() - i,
        {
            let ch = extra_chars[i];
            let ghost before = r.extra@;
            r.extra.insert(ch as u32);
            assert(extra_chars@.take(i + 1) == extra_chars@.take(i as int).push(ch));
            assert forall|c: char|
                #![trigger r.extra@.contains(c as u32)]
                #![trigger extra_chars@.take(i + 1).contains(c)]
                r.extra@.contains(c as u32) <==> extra_chars@.take(i + 1).contains(c) by {
                vstd::utf8::char_u32_cast(c, c as u32);
                vstd::utf8::char_u32_cast(ch, ch as u32);
                assert(before.contains(c as u32) <==> extra_chars@.take(i as int).contains(c));
                if extra_chars@.take(i as int).contains(c) {
                    let j = choose|j: int| 0 <= j < i && #[trigger] extra_chars@.take(i as int)[j] == c;
                    assert(extra_chars@.take(i + 1)[j] == c);
                }
                if c == ch {
                    assert(extra_chars@.take(i + 1)[i as int] == c);
                }
                if extra_chars@.take(i + 1).contains(c) && c != ch {
                    let j = choose|j: int| 0 <= j < i + 1 && #[trigger] extra_chars@.take(i + 1)[j] == c;
                    assert(extra_chars@.take(i as int)[j] == c);
                }
            }
            i += 1;
        }
        assert(extra_chars@.take(i as int) == extra_chars@);
        assert forall|c: char| #[trigger] r@.contains(c) <==> extra_chars@.contains(c) by {
            assert(r@.contains(c) == r.extra@.contains(c as u32));
            assert(r.extra@.contains(c as u32) == extra_chars@.take(i as int).contains(c));
        }
        r
    }

    /// Whether `c` may take part in a word.
    pub fn valid(&self, c: char) -> (r: bool)
        ensures
            r == is_valid(self@, c),
    {
        let code = c as u32;
        (CJK_FIRST <= code && code <= CJK_LAST) || self.extra.contains(&code)
    }
}

} // verus!
