//! ASCII case folding on byte sequences, used for case-insensitive lookup of
//! header and query keys.

use vstd::prelude::*;

verus! {

/// The ASCII-lowercased form of one byte: `'A'..='Z'` map to `'a'..='z'`,
/// every other byte is unchanged.
pub open spec fn lower_byte(b: u8) -> u8 {
    if 65 <= b && b <= 90 {
        (b + 32) as u8
    } else {
        b
    }
}

/// A byte sequence folded to ASCII lower case.
pub open spec fn to_lower(s: Seq<u8>) -> Seq<u8> {
    Seq::new(s.len(), |i: int| lower_byte(s[i]))
}

/// Two strings are the same key when their UTF-8 bytes agree up to ASCII case.
pub open spec fn key_eq(a: Seq<char>, b: Seq<char>) -> bool {
    to_lower(vstd::utf8::encode_utf8(a)) == to_lower(vstd::utf8::encode_utf8(b))
}

/// `key_eq` is reflexive, symmetric and transitive.
pub proof fn lemma_key_eq_equivalence(a: Seq<char>, b: Seq<char>, c: Seq<char>)
    ensures
        key_eq(a, a),
        key_eq(a, b) == key_eq(b, a),
        key_eq(a, b) && key_eq(b, c) ==> key_eq(a, c),
{
}

/// ASCII case-insensitive string equality, the executable form of `key_eq`.
pub fn eq_ignore_case(a: &str, b: &str) -> (r: bool)
    ensures
        r == key_eq(a@, b@),
{
    let ab = a.as_bytes();
    let bb = b.as_bytes();
    if ab.len() != bb.len() {
        proof {
            assert(to_lower(ab@).len() != to_lower(bb@).len());
        }
        return false;
    }
    let n = ab.len();
    let mut i: usize = 0;
    while i < n
        invariant
            ab@ == vstd::utf8::encode_utf8(a@),
            bb@ == vstd::utf8::encode_utf8(b@),
            n == ab@.len() == bb@.len(),
            i <= n,
            forall|j: int| 0 <= j < i ==> lower_byte(ab@[j]) == lower_byte(bb@[j]),
        decreases n - i,
    {
        let x = lower_byte_exec(ab[i]);
        let y = lower_byte_exec(bb[i]);
        if x != y {
            proof {
                assert(to_lower(ab@)[i as int] == lower_byte(ab@[i as int]));
                assert(to_lower(bb@)[i as int] == lower_byte(bb@[i as int]));
                assert(to_lower(ab@) != to_lower(bb@));
            }
            return false;
        }
        i += 1;
    }
    proof {
        assert(to_lower(ab@) =~= to_lower(bb@));
    }
    true
}

fn lower_byte_exec(b: u8) -> (r: u8)
    ensures
        r == lower_byte(b),
{
    if 65 <= b && b <= 90 {
        b + 32
    } else {
        b
    }
}

} // verus!
