use vstd::prelude::*;
use crate::digits::{hex_digits, Decodable};

verus! {

/// `needle` occurs in `hay` starting at position `i`.
pub open spec fn occurs_at(hay: Seq<u8>, needle: Seq<u8>, i: int) -> bool {
    0 <= i && i + needle.len() <= hay.len() && hay.subrange(i, i + needle.len()) == needle
}

/// The digits of `pattern` occur as a contiguous run among the digits of
/// `number`.
pub open spec fn contains_pattern(number: nat, pattern: nat) -> bool {
    exists|i: int| occurs_at(hex_digits(number), hex_digits(pattern), i)
}

/// The pattern `DEAD`.
pub const DEAD: u64 = 0xDEAD;

/// The mask that covers the four digits of `DEAD`.
pub const DEAD_MASK: u64 = 0xFFFF;

fn same_at(hay: &Vec<u8>, needle: &Vec<u8>, start: usize) -> (r: bool)
    requires
        start + needle@.len() <= hay@.len(),
    ensures
        r == occurs_at(hay@, needle@, start as int),
{
    let hay_len = hay.len();
    let mut j: usize = 0;
    while j < needle.len()
        invariant
            start + needle@.len() <= hay@.len(),
            hay@.len() == hay_len,
            j <= needle@.len(),
            forall|k: int| 0 <= k < j ==> hay@[start + k] == needle@[k],
        decreases needle@.len() - j,
    {
        if hay[start + j] != needle[j] {
            assert(hay@.subrange(start as int, start + needle@.len())[j as int] != needle@[j as int]);
            return false;
        }
        j = j + 1;
    }
    assert(hay@.subrange(start as int, start + needle@.len()) =~= needle@);
    true
}

/// Whether the hexadecimal digits of `pattern` occur as a contiguous run
/// among those of `number`.
pub fn has_pattern<H: Decodable, P: Decodable>(number: H, pattern: P) -> (r: bool)
    ensures
        r == contains_pattern(number.value(), pattern.value()),
{
    let nhex = number.to_hex();
    let phex = pattern.to_hex();
    if nhex.len() < phex.len() {
        assert forall|i: int| !occurs_at(nhex@, phex@, i) by {}
        return false;
    }
    assert(phex@.len() >= 1);
    let last = nhex.len() - phex.len();
    let mut i: usize = 0;
    while i <= last
        invariant
            last == nhex@.len() - phex@.len(),
            phex@.len() >= 1,
            nhex@.len() <= usize::MAX,
            nhex@ == hex_digits(number.value()),
            phex@ == hex_digits(pattern.value()),
            forall|k: int| 0 <= k < i ==> !occurs_at(nhex@, phex@, k),
        decreases last + 1 - i,
    {
        if same_at(&nhex, &phex, i) {
            return true;
        }
        i = i + 1;
    }
    assert forall|k: int| !occurs_at(nhex@, phex@, k) by {
        if 0 <= k < i {
        }
    }
    false
}

/// Whether the hexadecimal digits of `number` hold `DEAD`.
pub fn has_dead<H: Decodable>(number: H) -> (r: bool)
    ensures
        r == contains_pattern(number.value(), DEAD as nat),
{
    let dead: u64 = DEAD;
    has_pattern(number, dead)
}

} // verus!
