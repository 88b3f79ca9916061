//! Byte-string helpers: equality, lexicographic order, prefix tests and
//! copies, used for package names, source locations and feature names.

use vstd::prelude::*;

verus! {

/// Exact byte-for-byte equality of two byte vectors.
pub fn bytes_eq(a: &Vec<u8>, b: &Vec<u8>) -> (r: bool)
    ensures
        r == (a@ == b@),
{
    if a.len() != b.len() {
        proof {
            assert(a@ != b@);
        }
        return false;
    }
    let n = a.len();
    let mut i: usize = 0;
    while i < n
        invariant
            n == a@.len() && n == b@.len(),
            0 <= i <= n,
            forall|k: int| 0 <= k < i ==> a@[k] == b@[k],
        decreases n - i,
    {
        if a[i] != b[i] {
            proof {
                assert(a@[i as int] != b@[i as int]);
            }
            return false;
        }
        i = i + 1;
    }
    proof {
        assert(a@ =~= b@);
    }
    true
}

/// Lexicographic strict order on byte sequences.
pub open spec fn bytes_lt(a: Seq<u8>, b: Seq<u8>) -> bool
    decreases a.len(),
{
    if b.len() == 0 {
        false
    } else if a.len() == 0 {
        true
    } else if a[0] != b[0] {
        a[0] < b[0]
    } else {
        bytes_lt(a.drop_first(), b.drop_first())
    }
}

/// Decides `bytes_lt` on byte vectors.
pub fn bytes_less(a: &Vec<u8>, b: &Vec<u8>) -> (r: bool)
    ensures
        r == bytes_lt(a@, b@),
{
    let mut i: usize = 0;
    proof {
        assert(a@.skip(0) =~= a@);
        assert(b@.skip(0) =~= b@);
    }
    loop
        invariant
            0 <= i <= a@.len() && i <= b@.len(),
            forall|k: int| 0 <= k < i ==> a@[k] == b@[k],
            bytes_lt(a@, b@) == bytes_lt(a@.skip(i as int), b@.skip(i as int)),
        decreases a@.len() - i,
    {
        if i >= b.len() {
            proof {
                assert(b@.skip(i as int).len() == 0);
            }
            return false;
        }
        if i >= a.len() {
            proof {
                assert(a@.skip(i as int).len() == 0 && b@.skip(i as int).len() > 0);
            }
            return true;
        }
        let x = a[i];
        let y = b[i];
        if x != y {
            proof {
                assert(a@.skip(i as int)[0] == x && b@.skip(i as int)[0] == y);
            }
            return x < y;
        }
        proof {
            let ai = a@.skip(i as int);
            let bi = b@.skip(i as int);
            assert(ai[0] == bi[0]);
            assert(ai.drop_first() =~= a@.skip(i as int + 1));
            assert(bi.drop_first() =~= b@.skip(i as int + 1));
        }
        i = i + 1;
    }
}

/// Whether `p` is a prefix of `a`.
pub open spec fn is_prefix(p: Seq<u8>, a: Seq<u8>) -> bool {
    p.len() <= a.len() && a.subrange(0, p.len() as int) == p
}

/// Decides whether `p` is a prefix of `a`.
pub fn starts_with(a: &Vec<u8>, p: &Vec<u8>) -> (r: bool)
    ensures
        r == is_prefix(p@, a@),
{
    if p.len() > a.len() {
        return false;
    }
    let n = p.len();
    let mut i: usize = 0;
    while i < n
        invariant
            n == p@.len(),
            n <= a@.len(),
            0 <= i <= n,
            forall|k: int| 0 <= k < i ==> a@[k] == p@[k],
        decreases n - i,
    {
        if a[i] != p[i] {
            proof {
                assert(a@.subrange(0, n as int)[i as int] != p@[i as int]);
            }
            return false;
        }
        i = i + 1;
    }
    proof {
        assert(a@.subrange(0, n as int) =~= p@);
    }
    true
}

/// Copy of a byte vector, equal to the original in view.
pub fn clone_bytes(a: &Vec<u8>) -> (r: Vec<u8>)
    ensures
        r@ == a@,
{
    let mut r: Vec<u8> = Vec::new();
    let n = a.len();
    let mut i: usize = 0;
    while i < n
        invariant
            n == a@.len(),
            0 <= i <= n,
            r@ =~= a@.subrange(0, i as int),
        decreases n - i,
    {
        r.push(a[i]);
        i = i + 1;
    }
    proof {
        assert(r@ =~= a@);
    }
    r
}

} // verus!
