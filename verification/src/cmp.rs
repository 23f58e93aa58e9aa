//! Comparators: the byte-wise lexicographic order on user keys and the
//! derived internal-key order (user key ascending, tag descending), with the
//! order theory the binary searches and overlap proofs rest on.

use vstd::prelude::*;
use vstd::slice::slice_subrange;
use crate::key_types::{ikey_tag, ikey_ukey, decode_tag};
use core::cmp::Ordering;

verus! {

/// Three-way lexicographic comparison of byte sequences: negative when
/// `a < b`, zero when equal, positive when `a > b`. A proper prefix sorts
/// first.
pub open spec fn lex_cmp(a: Seq<u8>, b: Seq<u8>) -> int
    decreases a.len(),
{
    if a.len() == 0 && b.len() == 0 {
        0
    } else if a.len() == 0 {
        -1
    } else if b.len() == 0 {
        1
    } else if a[0] < b[0] {
        -1
    } else if a[0] > b[0] {
        1
    } else {
        lex_cmp(a.skip(1), b.skip(1))
    }
}

/// Three-way comparison of internal keys: by user key ascending, ties broken
/// by tag descending, so that for one user key the newest entry sorts first.
pub open spec fn icmp(a: Seq<u8>, b: Seq<u8>) -> int {
    let c = lex_cmp(ikey_ukey(a), ikey_ukey(b));
    if c != 0 {
        c
    } else if ikey_tag(a) > ikey_tag(b) {
        -1
    } else if ikey_tag(a) < ikey_tag(b) {
        1
    } else {
        0
    }
}

/// Three-way comparison of an internal key `a` against a query key given by
/// its user-key and tag projections alone.
pub open spec fn icmp_key(a: Seq<u8>, uk: Seq<u8>, tag: nat) -> int {
    let c = lex_cmp(ikey_ukey(a), uk);
    if c != 0 {
        c
    } else if ikey_tag(a) > tag {
        -1
    } else if ikey_tag(a) < tag {
        1
    } else {
        0
    }
}

/// `lex_cmp` as an `Ordering`.
pub open spec fn lex_ord(a: Seq<u8>, b: Seq<u8>) -> Ordering {
    if lex_cmp(a, b) < 0 {
        Ordering::Less
    } else if lex_cmp(a, b) > 0 {
        Ordering::Greater
    } else {
        Ordering::Equal
    }
}

/// `icmp` as an `Ordering`.
pub open spec fn icmp_ord(a: Seq<u8>, b: Seq<u8>) -> Ordering {
    if icmp(a, b) < 0 {
        Ordering::Less
    } else if icmp(a, b) > 0 {
        Ordering::Greater
    } else {
        Ordering::Equal
    }
}

/// The lexicographic comparison only takes the values -1, 0 and 1.
pub proof fn lemma_lex_range(a: Seq<u8>, b: Seq<u8>)
    ensures
        -1 <= lex_cmp(a, b) <= 1,
    decreases a.len(),
{
    if a.len() > 0 && b.len() > 0 && a[0] == b[0] {
        lemma_lex_range(a.skip(1), b.skip(1));
    }
}

/// Two byte sequences compare equal exactly when they are the same sequence.
pub proof fn lemma_lex_eq(a: Seq<u8>, b: Seq<u8>)
    ensures
        lex_cmp(a, b) == 0 <==> a == b,
    decreases a.len(),
{
    if a.len() > 0 && b.len() > 0 && a[0] == b[0] {
        lemma_lex_eq(a.skip(1), b.skip(1));
        if lex_cmp(a, b) == 0 {
            assert forall|i: int| 0 <= i < a.len() implies a[i] == b[i] by {
                if i > 0 {
                    assert(a[i] == a.skip(1)[i - 1]);
                    assert(b[i] == b.skip(1)[i - 1]);
                }
            }
            assert(a =~= b);
        } else {
            if a == b {
                assert(a.skip(1) =~= b.skip(1));
            }
        }
    } else {
        if a.len() == 0 && b.len() == 0 {
            assert(a =~= b);
        }
    }
}

/// Swapping the arguments negates the lexicographic comparison.
pub proof fn lemma_lex_antisym(a: Seq<u8>, b: Seq<u8>)
    ensures
        lex_cmp(b, a) == -lex_cmp(a, b),
    decreases a.len(),
{
    if a.len() > 0 && b.len() > 0 && a[0] == b[0] {
        lemma_lex_antisym(a.skip(1), b.skip(1));
    }
}

/// The lexicographic order is transitive, strictly so as soon as one of the
/// two steps is strict.
pub proof fn lemma_lex_trans(a: Seq<u8>, b: Seq<u8>, c: Seq<u8>)
    requires
        lex_cmp(a, b) <= 0,
        lex_cmp(b, c) <= 0,
    ensures
        lex_cmp(a, c) <= 0,
        lex_cmp(a, b) < 0 || lex_cmp(b, c) < 0 ==> lex_cmp(a, c) < 0,
    decreases a.len() + b.len() + c.len(),
{
    lemma_lex_range(a, b);
    lemma_lex_range(b, c);
    lemma_lex_range(a, c);
    if a.len() == 0 {
        if lex_cmp(a, b) < 0 || lex_cmp(b, c) < 0 {
            // b or c is non-empty; if b is, then c is too since b <= c.
            assert(c.len() > 0);
        }
    } else {
        // a is non-empty, so b and c are non-empty as well.
        assert(b.len() > 0);
        assert(c.len() > 0);
        if a[0] == b[0] && b[0] == c[0] {
            lemma_lex_trans(a.skip(1), b.skip(1), c.skip(1));
        }
    }
}

/// Transitivity of the internal-key order, derived from the user-key order
/// and the integer order on tags.
pub proof fn lemma_icmp_trans(a: Seq<u8>, b: Seq<u8>, c: Seq<u8>)
    requires
        icmp(a, b) <= 0,
        icmp(b, c) <= 0,
    ensures
        icmp(a, c) <= 0,
        icmp(a, b) < 0 || icmp(b, c) < 0 ==> icmp(a, c) < 0,
{
    lemma_lex_trans(ikey_ukey(a), ikey_ukey(b), ikey_ukey(c));
    lemma_lex_range(ikey_ukey(a), ikey_ukey(b));
    lemma_lex_range(ikey_ukey(b), ikey_ukey(c));
    if lex_cmp(ikey_ukey(a), ikey_ukey(b)) == 0 && lex_cmp(ikey_ukey(b), ikey_ukey(c)) == 0 {
        lemma_lex_eq(ikey_ukey(a), ikey_ukey(b));
        lemma_lex_eq(ikey_ukey(b), ikey_ukey(c));
        lemma_lex_eq(ikey_ukey(a), ikey_ukey(c));
    }
}

/// Comparing against a full internal key is comparing against its
/// projections.
pub proof fn lemma_icmp_key(a: Seq<u8>, b: Seq<u8>)
    ensures
        icmp(a, b) == icmp_key(a, ikey_ukey(b), ikey_tag(b)),
{
}

/// Transitivity of the internal-key order through a projected query key.
pub proof fn lemma_icmp_key_trans(a: Seq<u8>, b: Seq<u8>, uk: Seq<u8>, tag: nat)
    requires
        icmp(a, b) <= 0,
    ensures
        icmp_key(b, uk, tag) < 0 ==> icmp_key(a, uk, tag) < 0,
        icmp_key(b, uk, tag) <= 0 ==> icmp_key(a, uk, tag) <= 0,
        icmp_key(a, uk, tag) >= 0 ==> icmp_key(b, uk, tag) >= 0,
{
    lemma_lex_trans_mixed(ikey_ukey(a), ikey_ukey(b), uk);
    lemma_lex_range(ikey_ukey(a), ikey_ukey(b));
    lemma_lex_range(ikey_ukey(b), uk);
    lemma_lex_range(ikey_ukey(a), uk);
    if lex_cmp(ikey_ukey(a), ikey_ukey(b)) == 0 {
        lemma_lex_eq(ikey_ukey(a), ikey_ukey(b));
    }
}

/// Transitivity restated without a precondition, for use under arbitrary
/// branch conditions.
pub proof fn lemma_lex_trans_mixed(a: Seq<u8>, b: Seq<u8>, c: Seq<u8>)
    ensures
        lex_cmp(a, b) <= 0 && lex_cmp(b, c) <= 0 ==> lex_cmp(a, c) <= 0,
        lex_cmp(a, b) <= 0 && lex_cmp(b, c) < 0 ==> lex_cmp(a, c) < 0,
        lex_cmp(a, b) < 0 && lex_cmp(b, c) <= 0 ==> lex_cmp(a, c) < 0,
{
    if lex_cmp(a, b) <= 0 && lex_cmp(b, c) <= 0 {
        lemma_lex_trans(a, b, c);
    }
}

/// A strict user-key inequality forces a strict internal-key inequality,
/// whatever the tags.
pub proof fn lemma_ukey_lt_icmp(a: Seq<u8>, b: Seq<u8>)
    requires
        lex_cmp(ikey_ukey(a), ikey_ukey(b)) < 0,
    ensures
        icmp(a, b) < 0,
{
}

/// An internal-key inequality bounds the user keys the same way.
pub proof fn lemma_icmp_le_ukey(a: Seq<u8>, b: Seq<u8>)
    requires
        icmp(a, b) <= 0,
    ensures
        lex_cmp(ikey_ukey(a), ikey_ukey(b)) <= 0,
{
    lemma_lex_range(ikey_ukey(a), ikey_ukey(b));
}

/// Byte-wise three-way comparison of user keys, the default comparator.
pub fn cmp_user(a: &[u8], b: &[u8]) -> (r: Ordering)
    ensures
        r == lex_ord(a@, b@),
{
    let mut i: usize = 0;
    proof {
        assert(a@.skip(0) =~= a@);
        assert(b@.skip(0) =~= b@);
    }
    while i < a.len() && i < b.len()
        invariant
            i <= a@.len(),
            i <= b@.len(),
            lex_cmp(a@, b@) == lex_cmp(a@.skip(i as int), b@.skip(i as int)),
        decreases a@.len() - i,
    {
        let x = a[i];
        let y = b[i];
        proof {
            assert(a@.skip(i as int)[0] == a@[i as int]);
            assert(b@.skip(i as int)[0] == b@[i as int]);
            assert(a@.skip(i as int).skip(1) =~= a@.skip(i + 1));
            assert(b@.skip(i as int).skip(1) =~= b@.skip(i + 1));
        }
        if x < y {
            return Ordering::Less;
        }
        if x > y {
            return Ordering::Greater;
        }
        i = i + 1;
    }
    proof {
        assert(a@.skip(i as int).len() == a@.len() - i);
        assert(b@.skip(i as int).len() == b@.len() - i);
    }
    if a.len() == b.len() {
        Ordering::Equal
    } else if a.len() < b.len() {
        Ordering::Less
    } else {
        Ordering::Greater
    }
}

/// The byte-wise user-key comparator.
pub struct DefaultCmp;

impl DefaultCmp {
    /// Compares two user keys byte-wise.
    pub fn cmp(&self, a: &[u8], b: &[u8]) -> (r: Ordering)
        ensures
            r == lex_ord(a@, b@),
    {
        cmp_user(a, b)
    }
}

/// The internal-key comparator derived from the user-key comparator.
pub struct InternalKeyCmp;

impl InternalKeyCmp {
    /// Compares two internal keys: user key ascending, then tag descending.
    pub fn cmp(&self, a: &[u8], b: &[u8]) -> (r: Ordering)
        ensures
            r == icmp_ord(a@, b@),
    {
        let ua = if a.len() < 8 {
            slice_subrange(a, 0, 0)
        } else {
            slice_subrange(a, 0, a.len() - 8)
        };
        let ub = if b.len() < 8 {
            slice_subrange(b, 0, 0)
        } else {
            slice_subrange(b, 0, b.len() - 8)
        };
        proof {
            assert(ua@ =~= ikey_ukey(a@));
            assert(ub@ =~= ikey_ukey(b@));
        }
        let c = cmp_user(ua, ub);
        match c {
            Ordering::Equal => {
                proof {
                    lemma_lex_range(ua@, ub@);
                }
                let ta = decode_tag(a);
                let tb = decode_tag(b);
                if ta > tb {
                    Ordering::Less
                } else if ta < tb {
                    Ordering::Greater
                } else {
                    Ordering::Equal
                }
            },
            o => o,
        }
    }

    /// Compares two user keys with the underlying user-key comparator.
    pub fn cmp_inner(&self, a: &[u8], b: &[u8]) -> (r: Ordering)
        ensures
            r == lex_ord(a@, b@),
    {
        cmp_user(a, b)
    }
}

} // verus!
