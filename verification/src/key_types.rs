//! Internal keys: a user key followed by an 8-byte little-endian tag packing
//! a 56-bit sequence number and an 8-bit value type. Ordering over internal
//! keys is by user key ascending, then by tag descending (newer entries
//! first). `LookupKey` carries both views of a query key.

use vstd::prelude::*;
use vstd::slice::slice_subrange;

verus! {

/// Largest sequence number that fits in the 56-bit field of a tag.
pub const MAX_SEQUENCE_NUMBER: u64 = 0x00ff_ffff_ffff_ffff;

/// Tag byte marking an ordinary value entry.
pub const TYPE_VALUE: u64 = 1;

/// Little-endian value of a byte sequence: the first byte is least
/// significant.
pub open spec fn le64(s: Seq<u8>) -> nat
    decreases s.len(),
{
    if s.len() <= 0 {
        0
    } else {
        (s[0] as nat) + 256 * le64(s.skip(1))
    }
}

/// 256 to the power `n`.
pub open spec fn pow256(n: nat) -> nat
    decreases n,
{
    if n <= 0 {
        1
    } else {
        256 * pow256((n - 1) as nat)
    }
}

/// A byte sequence long enough to carry a trailing 8-byte tag.
pub open spec fn is_ikey(k: Seq<u8>) -> bool {
    k.len() >= 8
}

/// User-key part of an internal key: everything before the trailing tag.
/// A sequence shorter than a tag parses defensively to an empty user key.
pub open spec fn ikey_ukey(k: Seq<u8>) -> Seq<u8> {
    if k.len() >= 8 {
        k.take(k.len() - 8)
    } else {
        Seq::<u8>::empty()
    }
}

/// Tag of an internal key: the trailing 8 bytes, little endian.
/// A sequence shorter than a tag parses defensively to a zero tag.
pub open spec fn ikey_tag(k: Seq<u8>) -> nat {
    if k.len() >= 8 {
        le64(k.skip(k.len() - 8))
    } else {
        0
    }
}

/// Sequence number packed in the high 56 bits of the tag.
pub open spec fn ikey_seq(k: Seq<u8>) -> nat {
    ikey_tag(k) / 256
}

/// Value type packed in the low 8 bits of the tag.
pub open spec fn ikey_typ(k: Seq<u8>) -> nat {
    ikey_tag(k) % 256
}

/// The little-endian value of any byte sequence is below 256^length.
pub proof fn lemma_le64_bound(s: Seq<u8>)
    ensures
        le64(s) < pow256(s.len() as nat),
    decreases s.len(),
{
    if s.len() > 0 {
        lemma_le64_bound(s.skip(1));
        assert(pow256(s.len() as nat) == 256 * pow256((s.len() - 1) as nat));
        assert((s[0] as nat) + 256 * le64(s.skip(1)) < 256 * pow256((s.len() - 1) as nat))
            by (nonlinear_arith)
            requires
                le64(s.skip(1)) < pow256((s.len() - 1) as nat),
                s[0] < 256,
        ;
    }
}

/// Appending a byte at the end adds it at the most significant position.
pub proof fn lemma_le64_snoc(s: Seq<u8>, b: u8)
    ensures
        le64(s.push(b)) == le64(s) + (b as nat) * pow256(s.len() as nat),
    decreases s.len(),
{
    if s.len() == 0 {
        assert(s.push(b).skip(1) =~= Seq::<u8>::empty());
        assert(le64(Seq::<u8>::empty()) == 0);
        assert(s.push(b)[0] == b);
        assert(le64(s.push(b)) == b as nat);
    } else {
        assert(s.push(b).skip(1) =~= s.skip(1).push(b));
        lemma_le64_snoc(s.skip(1), b);
        assert(pow256(s.len() as nat) == 256 * pow256((s.len() - 1) as nat));
        assert(256 * (le64(s.skip(1)) + (b as nat) * pow256((s.len() - 1) as nat)) == 256 * le64(
            s.skip(1),
        ) + (b as nat) * (256 * pow256((s.len() - 1) as nat))) by (nonlinear_arith);
    }
}

/// Concrete powers of 256 used for tag bounds.
pub proof fn lemma_pow256_values()
    ensures
        pow256(7) == 0x0100_0000_0000_0000,
        pow256(8) == 0x1_0000_0000_0000_0000,
{
    assert(pow256(0) == 1);
    assert(pow256(1) == 256);
    assert(pow256(2) == 0x1_0000);
    assert(pow256(3) == 0x100_0000);
    assert(pow256(4) == 0x1_0000_0000);
    assert(pow256(5) == 0x100_0000_0000);
    assert(pow256(6) == 0x1_0000_0000_0000);
    assert(pow256(7) == 0x100_0000_0000_0000);
    assert(pow256(8) == 0x1_0000_0000_0000_0000);
}

/// Reads the trailing 8-byte tag of an internal key, little endian; a key
/// shorter than a tag reads as zero.
pub fn decode_tag(k: &[u8]) -> (t: u64)
    ensures
        t as nat == ikey_tag(k@),
{
    if k.len() < 8 {
        return 0;
    }
    let base: usize = k.len() - 8;
    let ghost tag_bytes: Seq<u8> = k@.skip(base as int);
    let mut t: u64 = 0;
    let mut j: usize = 8;
    proof {
        assert(tag_bytes.skip(8) =~= Seq::<u8>::empty());
        lemma_pow256_values();
    }
    while j > 0
        invariant
            j <= 8,
            base <= usize::MAX - 8,
            base + 8 == k@.len(),
            tag_bytes == k@.skip(base as int),
            t as nat == le64(tag_bytes.skip(j as int)),
            (t as nat) < pow256((8 - j) as nat),
            pow256(7) == 0x0100_0000_0000_0000,
        decreases j,
    {
        let b = k[base + j - 1];
        proof {
            assert(tag_bytes.skip(j - 1).skip(1) =~= tag_bytes.skip(j as int));
            assert(tag_bytes.skip(j - 1)[0] == k@[base + j - 1]);
            lemma_le64_bound(tag_bytes.skip(j - 1));
            assert(pow256((8 - (j - 1)) as nat) == 256 * pow256((8 - j) as nat));
            assert((t as nat) * 256 + 255 < 256 * pow256((8 - j) as nat)) by (nonlinear_arith)
                requires
                    (t as nat) < pow256((8 - j) as nat),
            ;
            assert(256 * pow256((8 - j) as nat) <= pow256(8)) by {
                lemma_pow256_mono((8 - (j - 1)) as nat, 8);
            }
            lemma_pow256_values();
        }
        t = t * 256 + (b as u64);
        j = j - 1;
    }
    proof {
        assert(tag_bytes.skip(0) =~= tag_bytes);
    }
    t
}

/// pow256 is monotone.
pub proof fn lemma_pow256_mono(m: nat, n: nat)
    requires
        m <= n,
    ensures
        pow256(m) <= pow256(n),
    decreases n,
{
    if m < n {
        lemma_pow256_mono(m, (n - 1) as nat);
        lemma_pow256_pos((n - 1) as nat);
        assert(pow256(n) == 256 * pow256((n - 1) as nat));
        assert(256 * pow256((n - 1) as nat) >= pow256((n - 1) as nat)) by (nonlinear_arith)
            requires
                pow256((n - 1) as nat) >= 1,
        ;
    }
}

/// pow256 is positive.
pub proof fn lemma_pow256_pos(n: nat)
    ensures
        pow256(n) >= 1,
    decreases n,
{
    if n > 0 {
        lemma_pow256_pos((n - 1) as nat);
    }
}

/// Splits an internal key into sequence number, value type and user key.
/// A key shorter than a tag parses to a zero tag and an empty user key.
pub fn parse_internal_key<'a>(k: &'a [u8]) -> (r: (u64, u8, &'a [u8]))
    ensures
        r.0 as nat == ikey_seq(k@),
        r.1 as nat == ikey_typ(k@),
        r.2@ == ikey_ukey(k@),
{
    if k.len() < 8 {
        let empty = slice_subrange(k, 0, 0);
        proof {
            assert(empty@ =~= ikey_ukey(k@));
        }
        return (0, 0, empty);
    }
    let tag = decode_tag(k);
    let seq = tag / 256;
    let typ = (tag % 256) as u8;
    let ukey = slice_subrange(k, 0, k.len() - 8);
    (seq, typ, ukey)
}

/// A query key: the internal key built from a user key and a snapshot
/// sequence number, with the user-key prefix recoverable.
pub struct LookupKey {
    ikey: Vec<u8>,
    ulen: usize,
}

impl LookupKey {
    /// Structural soundness: the stored buffer is a user key plus a tag.
    pub closed spec fn wf(self) -> bool {
        &&& self.ikey@.len() >= 8
        &&& self.ulen == self.ikey@.len() - 8
    }

    /// The internal-key view.
    pub closed spec fn ik(self) -> Seq<u8> {
        self.ikey@
    }

    /// The user-key view.
    pub closed spec fn uk(self) -> Seq<u8> {
        ikey_ukey(self.ikey@)
    }

    /// Builds the lookup key for `k` at snapshot sequence `s`: the internal
    /// key is `k` followed by the tag `(s << 8) | TYPE_VALUE`.
    pub fn new(k: &[u8], s: u64) -> (r: LookupKey)
        requires
            s <= MAX_SEQUENCE_NUMBER,
            k@.len() + 8 <= usize::MAX,
        ensures
            r.wf(),
            r.uk() == k@,
            r.ik().len() == k@.len() + 8,
            ikey_seq(r.ik()) == s,
            ikey_typ(r.ik()) == TYPE_VALUE,
            ikey_tag(r.ik()) == s * 256 + TYPE_VALUE,
    {
        let tag: u64 = s * 256 + TYPE_VALUE;
        let mut v: Vec<u8> = Vec::new();
        let mut i: usize = 0;
        while i < k.len()
            invariant
                i <= k@.len(),
                v@ =~= k@.take(i as int),
            decreases k@.len() - i,
        {
            v.push(k[i]);
            proof {
                assert(v@ =~= k@.take(i + 1));
            }
            i = i + 1;
        }
        proof {
            assert(v@ =~= k@);
            lemma_pow256_values();
        }
        let base: usize = v.len();
        let mut rest: u64 = tag;
        let mut j: usize = 0;
        proof {
            assert(v@.skip(base as int) =~= Seq::<u8>::empty());
            assert(le64(Seq::<u8>::empty()) == 0);
            assert(pow256(0) == 1);
        }
        while j < 8
            invariant
                j <= 8,
                base == k@.len(),
                v@.len() == base + j,
                v@.take(base as int) == k@,
                v@.skip(base as int).len() == j,
                tag as nat == le64(v@.skip(base as int)) + (rest as nat) * pow256(j as nat),
                (rest as nat) < pow256((8 - j) as nat),
            decreases 8 - j,
        {
            let b = (rest % 256) as u8;
            let ghost old_v = v@;
            let ghost old_rest = rest as nat;
            v.push(b);
            rest = rest / 256;
            j = j + 1;
            proof {
                assert(v@.take(base as int) =~= old_v.take(base as int));
                assert(v@.skip(base as int) =~= old_v.skip(base as int).push(b));
                lemma_le64_snoc(old_v.skip(base as int), b);
                assert(pow256(j as nat) == 256 * pow256((j - 1) as nat));
                assert(old_rest == (b as nat) + 256 * (rest as nat));
                assert(old_rest * pow256((j - 1) as nat) == (b as nat) * pow256((j - 1) as nat) + (
                rest as nat) * (256 * pow256((j - 1) as nat))) by (nonlinear_arith)
                    requires
                        old_rest == (b as nat) + 256 * (rest as nat),
                ;
                assert(pow256((8 - (j - 1)) as nat) == 256 * pow256((8 - j) as nat));
                assert((rest as nat) < pow256((8 - j) as nat)) by (nonlinear_arith)
                    requires
                        old_rest < 256 * pow256((8 - j) as nat),
                        rest as nat == old_rest / 256,
                ;
            }
        }
        proof {
            assert(pow256(0) == 1);
            assert(rest as nat == 0);
            assert(tag as nat == le64(v@.skip(base as int)));
            assert(ikey_ukey(v@) =~= k@);
        }
        LookupKey { ikey: v, ulen: base }
    }

    /// The two views agree: the user key is the user-key part of the
    /// internal key.
    pub proof fn lemma_views(self)
        ensures
            self.uk() == ikey_ukey(self.ik()),
    {
    }

    /// The full internal key as bytes.
    pub fn internal_key<'a>(&'a self) -> (r: &'a [u8])
        ensures
            r@ == self.ik(),
    {
        self.ikey.as_slice()
    }

    /// The user-key prefix as bytes.
    pub fn user_key<'a>(&'a self) -> (r: &'a [u8])
        requires
            self.wf(),
        ensures
            r@ == self.uk(),
    {
        slice_subrange(self.ikey.as_slice(), 0, self.ulen)
    }
}

} // verus!
