//! Byte-string helpers shared by the rule compiler and the classifier:
//! ASCII lower-casing, the separator character class of the filter
//! dialect, and the stable 64-bit hash used for rule ids and hashed
//! domain identifiers.

use vstd::prelude::*;

verus! {

/// ASCII lower-casing of one byte.
#[verifier::allow_in_spec]
pub fn lower_byte(c: u8) -> u8
    returns (if 65 <= c && c <= 90 {
        (c + 32) as u8
    } else {
        c
    }),
{
    if 65 <= c && c <= 90 {
        c + 32
    } else {
        c
    }
}

/// ASCII lower-casing of a byte string.
pub open spec fn lower_bytes(s: Seq<u8>) -> Seq<u8> {
    s.map_values(|c: u8| lower_byte(c))
}

/// Executable ASCII lower-casing; returns a fresh lowered copy.
pub fn to_lower_bytes(s: &Vec<u8>) -> (r: Vec<u8>)
    ensures
        r@ == lower_bytes(s@),
{
    let mut r: Vec<u8> = Vec::new();
    let mut i: usize = 0;
    while i < s.len()
        invariant
            i <= s@.len(),
            r@ == lower_bytes(s@.take(i as int)),
        decreases s@.len() - i,
    {
        r.push(lower_byte(s[i]));
        proof {
            assert(lower_bytes(s@.take(i + 1 as int)) == lower_bytes(s@.take(i as int)).push(
                lower_byte(s@[i as int]),
            )) by {
                assert(lower_bytes(s@.take(i + 1 as int)) =~= lower_bytes(
                    s@.take(i as int),
                ).push(lower_byte(s@[i as int])));
            }
        }
        i = i + 1;
    }
    proof {
        assert(s@.take(s@.len() as int) == s@);
    }
    r
}

/// Separator class of the filter dialect: every byte that is not a
/// letter, a digit, or one of `_`, `-`, `.`, `%` separates URL fields.
#[verifier::allow_in_spec]
pub fn is_separator(c: u8) -> bool
    returns (!(97 <= c && c <= 122 || 65 <= c && c <= 90 || 48 <= c && c <= 57 || c == 95 || c == 45
        || c == 46 || c == 37)),
{
    !(97 <= c && c <= 122 || 65 <= c && c <= 90 || 48 <= c && c <= 57 || c == 95 || c == 45 || c
        == 46 || c == 37)
}

/// One step of the 64-bit FNV-1a hash.
pub open spec fn fnv_step(h: u64, c: u8) -> u64 {
    vstd::wrapping::u64_specs::wrapping_mul(h ^ (c as u64), 0x100000001b3u64)
}

/// The 64-bit FNV-1a hash of a byte string, used for rule ids and
/// hashed domain identifiers.
pub open spec fn fnv64(s: Seq<u8>) -> u64
    decreases s.len(),
{
    if s.len() == 0 {
        0xcbf29ce484222325u64
    } else {
        fnv_step(fnv64(s.drop_last()), s.last())
    }
}

/// Executable FNV-1a over a range `[from, to)` of a byte string,
/// folded on top of an accumulator that already hashed `s[..from]`.
pub fn fnv64_range(s: &Vec<u8>, from: usize, to: usize, h0: u64) -> (h: u64)
    requires
        from <= to <= s@.len(),
        h0 == fnv64(s@.take(from as int)),
    ensures
        h == fnv64(s@.take(to as int)),
    decreases to - from,
{
    let mut h: u64 = h0;
    let mut i: usize = from;
    while i < to
        invariant
            from <= i <= to <= s@.len(),
            h == fnv64(s@.take(i as int)),
        decreases to - i,
    {
        proof {
            assert(s@.take(i + 1 as int).drop_last() == s@.take(i as int)) by {
                assert(s@.take(i + 1 as int).drop_last() =~= s@.take(i as int));
            }
            assert(s@.take(i + 1 as int).last() == s@[i as int]);
        }
        h = (h ^ (s[i] as u64)).wrapping_mul(0x100000001b3u64);
        i = i + 1;
    }
    h
}

/// Executable FNV-1a hash of a whole byte string.
pub fn fnv64_bytes(s: &Vec<u8>) -> (h: u64)
    ensures
        h == fnv64(s@),
{
    let h = fnv64_range(s, 0, s.len(), 0xcbf29ce484222325u64);
    proof {
        assert(s@.take(0) =~= Seq::<u8>::empty());
        assert(s@.take(s@.len() as int) == s@);
    }
    h
}

/// Whether a `u64` occurs in a vector; linear scan.
pub fn contains_u64(v: &Vec<u64>, x: u64) -> (r: bool)
    ensures
        r == v@.contains(x),
{
    let mut i: usize = 0;
    while i < v.len()
        invariant
            i <= v@.len(),
            forall|j: int| 0 <= j < i ==> v@[j] != x,
        decreases v@.len() - i,
    {
        if v[i] == x {
            return true;
        }
        i = i + 1;
    }
    false
}

/// A fresh copy of a byte string.
pub fn copy_bytes(s: &Vec<u8>) -> (r: Vec<u8>)
    ensures
        r@ == s@,
{
    let mut r: Vec<u8> = Vec::new();
    let mut i: usize = 0;
    while i < s.len()
        invariant
            i <= s@.len(),
            r@ == s@.take(i as int),
        decreases s@.len() - i,
    {
        r.push(s[i]);
        proof {
            assert(s@.take(i + 1 as int) =~= s@.take(i as int).push(s@[i as int]));
        }
        i = i + 1;
    }
    proof {
        assert(s@.take(s@.len() as int) == s@);
    }
    r
}

/// A fresh copy of the bytes `s[a..b]`.
pub fn sub_bytes(s: &Vec<u8>, a: usize, b: usize) -> (r: Vec<u8>)
    requires
        a <= b <= s@.len(),
    ensures
        r@ == s@.subrange(a as int, b as int),
{
    let mut r: Vec<u8> = Vec::new();
    let mut i: usize = a;
    while i < b
        invariant
            a <= i <= b <= s@.len(),
            r@ == s@.subrange(a as int, i as int),
        decreases b - i,
    {
        r.push(s[i]);
        proof {
            assert(s@.subrange(a as int, i + 1 as int) =~= s@.subrange(a as int, i as int).push(
                s@[i as int]));
        }
        i = i + 1;
    }
    r
}

/// Whether two byte strings hold the same bytes.
pub fn bytes_eq(a: &Vec<u8>, b: &Vec<u8>) -> (r: bool)
    ensures
        r == (a@ == b@),
{
    if a.len() != b.len() {
        proof {
            assert(a@.len() != b@.len());
        }
        return false;
    }
    let mut i: usize = 0;
    while i < a.len()
        invariant
            a@.len() == b@.len(),
            i <= a@.len(),
            forall|j: int| 0 <= j < i ==> a@[j] == b@[j],
        decreases a@.len() - i,
    {
        if a[i] != b[i] {
            return false;
        }
        i = i + 1;
    }
    proof {
        assert(a@ =~= b@);
    }
    true
}

} // verus!
