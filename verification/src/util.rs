//! Byte-vector helpers and the ASCII decimal codec shared by the object
//! framing, the tree codec and the commit codec.

use vstd::prelude::*;

verus! {

/// True exactly when the two vectors hold the same bytes.
pub fn bytes_eq(a: &Vec<u8>, b: &Vec<u8>) -> (r: bool)
    ensures
        r <==> a@ == b@,
{
    if a.len() != b.len() {
        return false;
    }
    let mut i: usize = 0;
    while i < a.len()
        invariant
            i <= a.len(),
            a.len() == b.len(),
            forall|j: int| 0 <= j < i ==> a@[j] == b@[j],
        decreases a.len() - i,
    {
        if a[i] != b[i] {
            return false;
        }
        i += 1;
    }
    proof {
        assert(a@ =~= b@);
    }
    true
}

/// A fresh vector holding the same bytes.
pub fn copy_bytes(v: &Vec<u8>) -> (r: Vec<u8>)
    ensures
        r@ == v@,
{
    let mut r: Vec<u8> = Vec::new();
    let mut i: usize = 0;
    while i < v.len()
        invariant
            i <= v.len(),
            r@ == v@.subrange(0, i as int),
        decreases v.len() - i,
    {
        r.push(v[i]);
        i += 1;
    }
    proof {
        assert(v@.subrange(0, v@.len() as int) =~= v@);
    }
    r
}

/// The bytes of `v` from `start` (inclusive) to `end` (exclusive).
pub fn subvec(v: &Vec<u8>, start: usize, end: usize) -> (r: Vec<u8>)
    requires
        start <= end <= v@.len(),
    ensures
        r@ == v@.subrange(start as int, end as int),
{
    let mut r: Vec<u8> = Vec::new();
    let mut i: usize = start;
    while i < end
        invariant
            start <= i <= end <= v@.len(),
            r@ == v@.subrange(start as int, i as int),
        decreases end - i,
    {
        r.push(v[i]);
        proof {
            assert(v@.subrange(start as int, i + 1) =~= v@.subrange(start as int, i as int).push(
                v@[i as int],
            ));
        }
        i += 1;
    }
    r
}

/// Appends every byte of `src` to `dst`.
pub fn append_bytes(dst: &mut Vec<u8>, src: &Vec<u8>)
    ensures
        final(dst)@ == old(dst)@ + src@,
{
    let ghost base = dst@;
    let mut i: usize = 0;
    while i < src.len()
        invariant
            i <= src.len(),
            dst@ == base + src@.subrange(0, i as int),
        decreases src.len() - i,
    {
        dst.push(src[i]);
        proof {
            assert(base + src@.subrange(0, i + 1) =~= (base + src@.subrange(0, i as int)).push(
                src@[i as int],
            ));
        }
        i += 1;
    }
    proof {
        assert(base + src@.subrange(0, src@.len() as int) =~= base + src@);
    }
}

/// The index of the first occurrence of `target` in `s` at or after `from`.
pub open spec fn spec_find_byte(s: Seq<u8>, from: int, target: u8) -> Option<int>
    decreases s.len() - from when 0 <= from <= s.len()
{
    if from >= s.len() {
        None
    } else if s[from] == target {
        Some(from)
    } else {
        spec_find_byte(s, from + 1, target)
    }
}

/// The search finds exactly the first occurrence.
pub proof fn lemma_find_byte_first(s: Seq<u8>, from: int, target: u8, i: int)
    requires
        0 <= from <= i < s.len(),
        s[i] == target,
        forall|k: int| from <= k < i ==> s[k] != target,
    ensures
        spec_find_byte(s, from, target) == Some(i),
    decreases i - from,
{
    if from < i {
        lemma_find_byte_first(s, from + 1, target, i);
    }
}

/// First occurrence of `target` in `v` at or after `from`, if any.
pub fn find_byte(v: &Vec<u8>, from: usize, target: u8) -> (r: Option<usize>)
    requires
        from <= v@.len(),
    ensures
        match r {
            Some(i) => from <= i < v@.len() && spec_find_byte(v@, from as int, target) == Some(
                i as int,
            ),
            None => spec_find_byte(v@, from as int, target) is None,
        },
{
    let mut i: usize = from;
    while i < v.len()
        invariant
            from <= i <= v@.len(),
            spec_find_byte(v@, from as int, target) == spec_find_byte(v@, i as int, target),
        decreases v.len() - i,
    {
        if v[i] == target {
            return Some(i);
        }
        i += 1;
    }
    None
}

/// True for the ASCII digits `'0'` through `'9'`.
pub open spec fn is_dec_digit(b: u8) -> bool {
    48 <= b <= 57
}

/// The canonical ASCII decimal rendering of `n`, with no leading zeros.
pub open spec fn dec_digits(n: nat) -> Seq<u8>
    decreases n,
{
    if n < 10 {
        seq![(48 + n) as u8]
    } else {
        dec_digits(n / 10).push((48 + n % 10) as u8)
    }
}

/// The numeric value of a string of ASCII digits.
pub open spec fn dec_value(s: Seq<u8>) -> int
    decreases s.len(),
{
    if s.len() == 0 {
        0
    } else {
        dec_value(s.drop_last()) * 10 + (s.last() - 48)
    }
}

/// The rendering of `n` consists of digits, is nonempty, avoids a leading
/// zero except for `"0"` itself, and evaluates back to `n`.
pub proof fn lemma_dec_digits(n: nat)
    ensures
        dec_digits(n).len() >= 1,
        forall|i: int| 0 <= i < dec_digits(n).len() ==> is_dec_digit(#[trigger] dec_digits(n)[i]),
        n > 0 ==> dec_digits(n)[0] != 48,
        n == 0 ==> dec_digits(n) =~= seq![48u8],
        dec_value(dec_digits(n)) == n,
    decreases n,
{
    if n >= 10 {
        lemma_dec_digits(n / 10);
        assert(dec_digits(n).drop_last() =~= dec_digits(n / 10));
        assert(dec_digits(n).last() == (48 + n % 10) as u8);
        assert(dec_value(dec_digits(n)) == dec_value(dec_digits(n / 10)) * 10 + n % 10);
        assert(n == (n / 10) * 10 + n % 10) by (nonlinear_arith);
        assert(dec_value(dec_digits(n)) == n);
    } else {
        assert(dec_value(dec_digits(n)) == n) by {
            reveal_with_fuel(dec_value, 2);
            assert(dec_digits(n).drop_last() =~= Seq::<u8>::empty());
        }
    }
}

/// The canonical decimal bytes of `n`.
pub fn u64_to_dec(n: u64) -> (r: Vec<u8>)
    ensures
        r@ == dec_digits(n as nat),
    decreases n,
{
    if n < 10 {
        let mut v: Vec<u8> = Vec::new();
        v.push(48 + (n as u8));
        proof {
            assert(v@ =~= dec_digits(n as nat));
        }
        v
    } else {
        let mut v = u64_to_dec(n / 10);
        v.push(48 + ((n % 10) as u8));
        proof {
            assert(v@ =~= dec_digits((n / 10) as nat).push((48 + (n as nat) % 10) as u8));
        }
        v
    }
}

} // verus!
