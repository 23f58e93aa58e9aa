//! The version snapshot: per-level ordered file sets, point lookup across
//! levels, overlap queries for compaction planning, seek-charge accounting,
//! and the per-level concatenating iterator.

use vstd::prelude::*;
use vstd::slice::slice_to_vec;
use core::cmp::Ordering;
use crate::cmp::{
    icmp, icmp_key, lemma_icmp_key, lemma_icmp_key_trans, lemma_icmp_le_ukey, lemma_icmp_trans,
    lemma_lex_antisym, lemma_lex_eq, lemma_lex_range, lemma_lex_trans_mixed, lemma_ukey_lt_icmp,
    lex_cmp, InternalKeyCmp,
};
use crate::error::Status;
use crate::key_types::{
    ikey_seq, ikey_tag, ikey_typ, ikey_ukey, parse_internal_key, LookupKey, MAX_SEQUENCE_NUMBER,
    TYPE_VALUE,
};
use crate::table_cache::{
    entries_sorted, entry_wf, lb_key, lemma_lb_key_agrees, lemma_lb_key_props,
    lemma_cached_run_wf, lemma_lower_bound_props, lemma_table_idx_props, lower_bound, table_idx,
    EntryV, Table, TableCache, TableIterator,
};
use crate::types::{vseq, FileMetaData, FileMetaV, GetStats, NUM_LEVELS};

verus! {

/// Tag of the lookup key built for a user key at snapshot sequence `sseq`.
pub open spec fn probe_tag(sseq: nat) -> nat {
    (sseq * 256 + TYPE_VALUE) as nat
}

/// Tag of the probe key built for a user key at the highest sequence number.
pub open spec fn max_probe_tag() -> nat {
    (MAX_SEQUENCE_NUMBER * 256 + TYPE_VALUE) as nat
}

/// The user key lies strictly after the file's largest user key. An empty
/// key is open-ended and lies after no file.
pub open spec fn spec_key_is_after_file(key: Seq<u8>, f: FileMetaV) -> bool {
    key.len() > 0 && lex_cmp(key, ikey_ukey(f.largest)) > 0
}

/// The user key lies strictly before the file's smallest user key. An empty
/// key is open-ended and lies before no file.
pub open spec fn spec_key_is_before_file(key: Seq<u8>, f: FileMetaV) -> bool {
    key.len() > 0 && lex_cmp(key, ikey_ukey(f.smallest)) < 0
}

/// Returns true when the user key lies strictly after the largest key of
/// `f`.
pub fn key_is_after_file(cmp: &InternalKeyCmp, key: &[u8], f: &FileMetaData) -> (r: bool)
    ensures
        r == spec_key_is_after_file(key@, f@),
{
    let (_, _, ulargest) = parse_internal_key(f.largest.as_slice());
    if key.len() == 0 {
        return false;
    }
    let c = cmp.cmp_inner(key, ulargest);
    match c {
        Ordering::Greater => true,
        _ => false,
    }
}

/// Returns true when the user key lies strictly before the smallest key of
/// `f`.
pub fn key_is_before_file(cmp: &InternalKeyCmp, key: &[u8], f: &FileMetaData) -> (r: bool)
    ensures
        r == spec_key_is_before_file(key@, f@),
{
    let (_, _, usmallest) = parse_internal_key(f.smallest.as_slice());
    if key.len() == 0 {
        return false;
    }
    let c = cmp.cmp_inner(key, usmallest);
    match c {
        Ordering::Less => true,
        _ => false,
    }
}

/// Index of the first file whose largest key is at least the query key
/// given by its projections, or the length when every file ends below it.
pub open spec fn fidx(files: Seq<FileMetaV>, uk: Seq<u8>, tag: nat) -> int
    decreases files.len(),
{
    if files.len() == 0 {
        0
    } else if icmp_key(files[0].largest, uk, tag) >= 0 {
        0
    } else {
        1 + fidx(files.skip(1), uk, tag)
    }
}

/// What `fidx` returns: the least index whose largest key reaches the query.
pub proof fn lemma_fidx_props(files: Seq<FileMetaV>, uk: Seq<u8>, tag: nat)
    ensures
        0 <= fidx(files, uk, tag) <= files.len(),
        forall|j: int| 0 <= j < fidx(files, uk, tag) ==> icmp_key(
            (#[trigger] files[j]).largest,
            uk,
            tag,
        ) < 0,
        fidx(files, uk, tag) < files.len() ==> icmp_key(files[fidx(files, uk, tag)].largest, uk, tag)
            >= 0,
    decreases files.len(),
{
    if files.len() > 0 && icmp_key(files[0].largest, uk, tag) < 0 {
        lemma_fidx_props(files.skip(1), uk, tag);
        assert forall|j: int| 0 <= j < fidx(files, uk, tag) implies icmp_key(
            (#[trigger] files[j]).largest,
            uk,
            tag,
        ) < 0 by {
            if j > 0 {
                assert(files.skip(1)[j - 1] == files[j]);
            }
        }
        if fidx(files, uk, tag) < files.len() {
            assert(files.skip(1)[fidx(files, uk, tag) - 1] == files[fidx(files, uk, tag)]);
        }
    }
}

/// The probe index is the unique position that can hold the query: a
/// position whose largest key reaches the query, while every earlier file
/// ends below it, is the position the binary search answers; when no file
/// reaches the query the search answers the length.
pub proof fn lemma_find_file_unique(files: Seq<FileMetaV>, uk: Seq<u8>, tag: nat, j: int)
    requires
        0 <= j < files.len(),
        icmp_key(files[j].largest, uk, tag) >= 0,
        forall|k: int| 0 <= k < j ==> icmp_key((#[trigger] files[k]).largest, uk, tag) < 0,
    ensures
        j == fidx(files, uk, tag),
{
    lemma_fidx_props(files, uk, tag);
    let r = fidx(files, uk, tag);
    if j < r {
        assert(icmp_key(files[j].largest, uk, tag) < 0);
    }
    if r < j {
        assert(icmp_key(files[r].largest, uk, tag) < 0);
    }
}

/// Files in ascending order of their largest internal key.
pub open spec fn sorted_by_largest(files: Seq<FileMetaV>) -> bool {
    forall|i: int, j: int| 0 <= i < j < files.len() ==> icmp(
        (#[trigger] files[i]).largest,
        (#[trigger] files[j]).largest,
    ) <= 0
}

/// Binary search over files ordered by largest key: the index of the first
/// file that may contain the internal key, or the length when none can.
pub fn find_file(cmp: &InternalKeyCmp, files: &[FileMetaData], key: &[u8]) -> (r: usize)
    requires
        sorted_by_largest(vseq(files@)),
    ensures
        r == fidx(vseq(files@), ikey_ukey(key@), ikey_tag(key@)),
{
    let ghost fs = vseq(files@);
    let ghost uk = ikey_ukey(key@);
    let ghost tag = ikey_tag(key@);
    proof {
        lemma_fidx_props(fs, uk, tag);
    }
    let mut left: usize = 0;
    let mut right: usize = files.len();
    while left < right
        invariant
            0 <= left <= right <= fs.len(),
            fs == vseq(files@),
            fs.len() == files@.len(),
            uk == ikey_ukey(key@),
            tag == ikey_tag(key@),
            sorted_by_largest(fs),
            forall|j: int| 0 <= j < left ==> icmp_key((#[trigger] fs[j]).largest, uk, tag) < 0,
            forall|j: int| right <= j < fs.len() ==> icmp_key((#[trigger] fs[j]).largest, uk, tag)
                >= 0,
        decreases right - left,
    {
        let mid = left + (right - left) / 2;
        let c = cmp.cmp(files[mid].largest.as_slice(), key);
        proof {
            lemma_icmp_key(fs[mid as int].largest, key@);
            assert(fs[mid as int] == files@[mid as int]@);
        }
        let below = match c {
            Ordering::Less => true,
            _ => false,
        };
        if below {
            proof {
                assert forall|j: int| 0 <= j < mid + 1 implies icmp_key(
                    (#[trigger] fs[j]).largest,
                    uk,
                    tag,
                ) < 0 by {
                    if left <= j < mid {
                        lemma_icmp_key_trans(fs[j].largest, fs[mid as int].largest, uk, tag);
                    }
                }
            }
            left = mid + 1;
        } else {
            proof {
                assert forall|j: int| mid <= j < fs.len() implies icmp_key(
                    (#[trigger] fs[j]).largest,
                    uk,
                    tag,
                ) >= 0 by {
                    if j > mid {
                        lemma_icmp_key_trans(fs[mid as int].largest, fs[j].largest, uk, tag);
                    }
                }
            }
            right = mid;
        }
    }
    proof {
        let r = fidx(fs, uk, tag);
        if r < left {
            assert(icmp_key(fs[r].largest, uk, tag) < 0);
        }
        if left < r {
            assert(icmp_key(fs[left as int].largest, uk, tag) < 0);
        }
        assert(left == r);
    }
    left
}

/// Some file of the level overlaps the closed user-key range; for level-0
/// style file lists that may overlap each other, by linear scan.
pub open spec fn spec_some_file_overlaps_range(
    files: Seq<FileMetaV>,
    smallest: Seq<u8>,
    largest: Seq<u8>,
) -> bool {
    exists|i: int|
        0 <= i < files.len() && !spec_key_is_after_file(smallest, #[trigger] files[i])
            && !spec_key_is_before_file(largest, files[i])
}

/// Linear overlap scan for possibly overlapping files.
pub fn some_file_overlaps_range(
    cmp: &InternalKeyCmp,
    files: &[FileMetaData],
    smallest: &[u8],
    largest: &[u8],
) -> (r: bool)
    ensures
        r == spec_some_file_overlaps_range(vseq(files@), smallest@, largest@),
{
    let mut i: usize = 0;
    while i < files.len()
        invariant
            i <= files@.len(),
            forall|j: int| 0 <= j < i ==> spec_key_is_after_file(smallest@, (#[trigger] vseq(
                files@,
            )[j])) || spec_key_is_before_file(largest@, vseq(files@)[j]),
        decreases files@.len() - i,
    {
        let f = &files[i];
        proof {
            assert(vseq(files@)[i as int] == files@[i as int]@);
        }
        if !(key_is_after_file(cmp, smallest, f) || key_is_before_file(cmp, largest, f)) {
            return true;
        }
        i = i + 1;
    }
    false
}

/// Some file of a disjoint ordered level overlaps the closed user-key
/// range: the binary-search probe at `(smallest, MAX_SEQUENCE_NUMBER)`
/// either runs off the end, or lands on the one file that could overlap.
pub open spec fn spec_some_file_overlaps_range_disjoint(
    files: Seq<FileMetaV>,
    smallest: Seq<u8>,
    largest: Seq<u8>,
) -> bool {
    let ix = fidx(files, smallest, max_probe_tag());
    ix < files.len() && !spec_key_is_before_file(largest, files[ix])
}

/// On a disjoint ordered level of well-formed files whose endpoint tags
/// carry value types, the single binary probe answers exactly whether some
/// file of the level overlaps the closed user-key range.
pub proof fn lemma_disjoint_overlap_agrees(fs: Seq<FileMetaV>, smallest: Seq<u8>, largest: Seq<u8>)
    requires
        forall|i: int| 0 <= i < fs.len() ==> (#[trigger] fs[i]).wf(),
        disjoint_ordered(fs),
        forall|i: int| 0 <= i < fs.len() ==> ikey_tag((#[trigger] fs[i]).largest)
            <= max_probe_tag(),
        smallest.len() > 0,
        largest.len() > 0,
        lex_cmp(smallest, largest) <= 0,
    ensures
        spec_some_file_overlaps_range_disjoint(fs, smallest, largest)
            == spec_some_file_overlaps_range(fs, smallest, largest),
{
    let tag = max_probe_tag();
    let ix = fidx(fs, smallest, tag);
    lemma_fidx_props(fs, smallest, tag);
    if spec_some_file_overlaps_range_disjoint(fs, smallest, largest) {
        // The probed file itself overlaps: its largest key reaches the
        // range's begin, and by assumption it does not begin past its end.
        lemma_lex_antisym(ikey_ukey(fs[ix].largest), smallest);
        lemma_lex_range(ikey_ukey(fs[ix].largest), smallest);
        assert(!spec_key_is_after_file(smallest, fs[ix]));
        assert(spec_some_file_overlaps_range(fs, smallest, largest));
    }
    if spec_some_file_overlaps_range(fs, smallest, largest) {
        let i = choose|i: int|
            0 <= i < fs.len() && !spec_key_is_after_file(smallest, #[trigger] fs[i])
                && !spec_key_is_before_file(largest, fs[i]);
        lemma_lex_antisym(smallest, ikey_ukey(fs[i].largest));
        lemma_lex_range(smallest, ikey_ukey(fs[i].largest));
        assert(icmp_key(fs[i].largest, smallest, tag) >= 0);
        if i < ix {
            assert(icmp_key(fs[i].largest, smallest, tag) < 0);
        }
        assert(ix <= i && ix < fs.len());
        if ix != i {
            // The probed file ends before file `i` begins, which the range
            // reaches, so the probed file begins below the range's end.
            lemma_icmp_le_ukey(fs[ix].smallest, fs[ix].largest);
            lemma_lex_antisym(largest, ikey_ukey(fs[i].smallest));
            lemma_lex_trans_mixed(
                ikey_ukey(fs[ix].smallest),
                ikey_ukey(fs[ix].largest),
                ikey_ukey(fs[i].smallest),
            );
            lemma_lex_trans_mixed(ikey_ukey(fs[ix].smallest), ikey_ukey(fs[i].smallest), largest);
            lemma_lex_antisym(ikey_ukey(fs[ix].smallest), largest);
        }
        lemma_lex_range(largest, ikey_ukey(fs[ix].smallest));
        assert(!spec_key_is_before_file(largest, fs[ix]));
        assert(spec_some_file_overlaps_range_disjoint(fs, smallest, largest));
    }
}

/// Overlap probe for a disjoint ordered level.
pub fn some_file_overlaps_range_disjoint(
    cmp: &InternalKeyCmp,
    files: &[FileMetaData],
    smallest: &[u8],
    largest: &[u8],
) -> (r: bool)
    requires
        sorted_by_largest(vseq(files@)),
        smallest@.len() + 8 <= usize::MAX,
    ensures
        r == spec_some_file_overlaps_range_disjoint(vseq(files@), smallest@, largest@),
{
    let key = LookupKey::new(smallest, MAX_SEQUENCE_NUMBER);
    let ik = key.internal_key();
    let ix = find_file(cmp, files, ik);
    proof {
        key.lemma_views();
        assert(ikey_ukey(ik@) == smallest@);
        assert(ikey_tag(ik@) == max_probe_tag());
        lemma_fidx_props(vseq(files@), smallest@, max_probe_tag());
    }
    if ix < files.len() {
        proof {
            assert(vseq(files@)[ix as int] == files@[ix as int]@);
        }
        !key_is_before_file(cmp, largest, &files[ix])
    } else {
        false
    }
}


/// Files pairwise disjoint in user-key range and ordered: each file ends
/// strictly before the next begins.
pub open spec fn disjoint_ordered(fs: Seq<FileMetaV>) -> bool {
    forall|i: int, j: int| 0 <= i < j < fs.len() ==> lex_cmp(
        ikey_ukey((#[trigger] fs[i]).largest),
        ikey_ukey((#[trigger] fs[j]).smallest),
    ) < 0
}

/// A disjoint ordered level of well-formed files is sorted by largest key.
pub proof fn lemma_disjoint_sorted_by_largest(fs: Seq<FileMetaV>)
    requires
        forall|i: int| 0 <= i < fs.len() ==> (#[trigger] fs[i]).wf(),
        disjoint_ordered(fs),
    ensures
        sorted_by_largest(fs),
{
    assert forall|i: int, j: int| 0 <= i < j < fs.len() implies icmp(
        (#[trigger] fs[i]).largest,
        (#[trigger] fs[j]).largest,
    ) <= 0 by {
        lemma_ukey_lt_icmp(fs[i].largest, fs[j].smallest);
        lemma_icmp_trans(fs[i].largest, fs[j].smallest, fs[j].largest);
    }
}

/// The user key falls inside the closed user-key interval of the file.
pub open spec fn l0_cand(f: FileMetaV, uk: Seq<u8>) -> bool {
    lex_cmp(uk, ikey_ukey(f.smallest)) >= 0 && lex_cmp(uk, ikey_ukey(f.largest)) <= 0
}

/// A snapshot of the level layout: per-level file lists over a shared table
/// cache, plus the compaction nomination produced by seek charging.
pub struct Version {
    /// The cache consulted to read candidate files.
    pub table_cache: TableCache,
    /// Per-level file lists; length `NUM_LEVELS`.
    pub files: Vec<Vec<FileMetaData>>,
    /// Number of the file nominated for compaction, if any.
    pub file_to_compact: Option<u64>,
    /// Level of the nominated file.
    pub file_to_compact_lvl: usize,
}

/// The spec values of one level's files in a level layout.
pub open spec fn level_of(fss: Seq<Vec<FileMetaData>>, l: int) -> Seq<FileMetaV> {
    vseq(fss[l]@)
}

/// Structural invariant of a level layout: `NUM_LEVELS` levels of
/// well-formed files, levels above 0 disjoint and ordered, file numbers
/// unique within each level.
pub open spec fn levels_ok(fss: Seq<Vec<FileMetaData>>) -> bool {
    &&& fss.len() == NUM_LEVELS
    &&& forall|l: int, i: int|
        #![trigger level_of(fss, l)[i]]
        0 <= l < NUM_LEVELS && 0 <= i < level_of(fss, l).len() ==> level_of(fss, l)[i].wf()
    &&& forall|l: int| 1 <= l < NUM_LEVELS ==> disjoint_ordered(#[trigger] level_of(fss, l))
    &&& forall|l: int, i: int, j: int|
        #![trigger level_of(fss, l)[i], level_of(fss, l)[j]]
        0 <= l < NUM_LEVELS && 0 <= i < j < level_of(fss, l).len() ==> level_of(fss, l)[i].num
            != level_of(fss, l)[j].num
}

/// The cache holds every file of the layout as a non-empty sorted run whose
/// first and last keys are the file's recorded endpoints.
pub open spec fn coherent_with(cache: TableCache, fss: Seq<Vec<FileMetaData>>) -> bool {
    &&& cache.wf()
    &&& forall|l: int, i: int|
        #![trigger level_of(fss, l)[i]]
        0 <= l < NUM_LEVELS && 0 <= i < level_of(fss, l).len() ==> {
            let f = level_of(fss, l)[i];
            &&& cache.has(f.num)
            &&& cache.entries_of(f.num).len() > 0
            &&& cache.entries_of(f.num)[0].key == f.smallest
            &&& cache.entries_of(f.num).last().key == f.largest
        }
}

impl Version {
    /// The spec values of one level's files.
    pub open spec fn level(self, l: int) -> Seq<FileMetaV> {
        level_of(self.files@, l)
    }

    /// Structural invariant of the level layout.
    pub open spec fn levels_wf(self) -> bool {
        levels_ok(self.files@)
    }

    /// The cache holds every file of the snapshot.
    pub open spec fn coherent(self) -> bool {
        coherent_with(self.table_cache, self.files@)
    }

    /// Full invariant: level layout plus cache coherence.
    pub open spec fn wf(self) -> bool {
        self.levels_wf() && self.coherent()
    }

    /// A fresh snapshot over the given cache, with every level empty.
    pub fn new(cache: TableCache) -> (r: Version)
        ensures
            r.table_cache == cache,
            r.files@.len() == NUM_LEVELS,
            forall|l: int| 0 <= l < NUM_LEVELS ==> (#[trigger] r.level(l)).len() == 0,
            r.file_to_compact is None,
            r.file_to_compact_lvl == 0,
            r.levels_wf(),
            cache.wf() ==> r.wf(),
    {
        let mut files: Vec<Vec<FileMetaData>> = Vec::new();
        let mut l: usize = 0;
        while l < NUM_LEVELS
            invariant
                l <= NUM_LEVELS,
                files@.len() == l,
                forall|k: int| 0 <= k < l ==> (#[trigger] files@[k])@.len() == 0,
            decreases NUM_LEVELS - l,
        {
            files.push(Vec::new());
            l = l + 1;
        }
        Version { table_cache: cache, files, file_to_compact: None, file_to_compact_lvl: 0 }
    }

    /// Returns whether any file of the level overlaps the closed user-key
    /// range `[smallest, largest]`: by linear scan at level 0, by binary
    /// probe above it.
    pub fn overlap_in_level(&self, level: usize, smallest: &[u8], largest: &[u8]) -> (r: bool)
        requires
            self.levels_wf(),
            level < NUM_LEVELS,
            smallest@.len() + 8 <= usize::MAX,
        ensures
            level == 0 ==> r == spec_some_file_overlaps_range(self.level(0), smallest@, largest@),
            level >= 1 ==> r == spec_some_file_overlaps_range_disjoint(
                self.level(level as int),
                smallest@,
                largest@,
            ),
    {
        let cmp = InternalKeyCmp;
        if level == 0 {
            some_file_overlaps_range(&cmp, self.files[0].as_slice(), smallest, largest)
        } else {
            proof {
                lemma_disjoint_sorted_by_largest(self.level(level as int));
            }
            some_file_overlaps_range_disjoint(&cmp, self.files[level].as_slice(), smallest, largest)
        }
    }
}


/// The level-0 candidate predicate for one user key, as a function value.
pub open spec fn l0_pred(uk: Seq<u8>) -> spec_fn(FileMetaV) -> bool {
    |f: FileMetaV| l0_cand(f, uk)
}

/// Mapping to spec values commutes with push.
pub proof fn lemma_vseq_push(s: Seq<FileMetaData>, f: FileMetaData)
    ensures
        vseq(s.push(f)) =~= vseq(s).push(f@),
{
}

/// Filtering a sequence extended by one element.
pub proof fn lemma_filter_one(s: Seq<FileMetaV>, x: FileMetaV, pred: spec_fn(FileMetaV) -> bool)
    ensures
        (s.push(x)).filter(pred) == (if pred(x) {
            s.filter(pred).push(x)
        } else {
            s.filter(pred)
        }),
{
    reveal(Seq::filter);
    assert(s.push(x).drop_last() =~= s);
    assert(s.push(x).last() == x);
}

/// Sorts files into strictly descending file-number order. File numbers
/// must be pairwise distinct; the result holds exactly the given files.
#[verifier::loop_isolation(false)]
fn sort_files_desc(v: &mut Vec<FileMetaData>)
    requires
        forall|i: int, j: int|
            #![trigger vseq(old(v)@)[i], vseq(old(v)@)[j]]
            0 <= i < j < old(v)@.len() ==> vseq(old(v)@)[i].num != vseq(old(v)@)[j].num,
    ensures
        final(v)@.len() == old(v)@.len(),
        forall|i: int| 0 <= i < final(v)@.len() ==> vseq(old(v)@).contains(
            #[trigger] vseq(final(v)@)[i],
        ),
        forall|i: int| 0 <= i < old(v)@.len() ==> vseq(final(v)@).contains(
            #[trigger] vseq(old(v)@)[i],
        ),
        forall|i: int, j: int|
            #![trigger vseq(final(v)@)[i], vseq(final(v)@)[j]]
            0 <= i < j < final(v)@.len() ==> vseq(final(v)@)[i].num > vseq(final(v)@)[j].num,
{
    let ghost orig = vseq(old(v)@);
    let mut out: Vec<FileMetaData> = Vec::new();
    while v.len() > 0
        invariant
            out@.len() + v@.len() == orig.len(),
            forall|i: int| 0 <= i < out@.len() ==> orig.contains(#[trigger] vseq(out@)[i]),
            forall|i: int| 0 <= i < v@.len() ==> orig.contains(#[trigger] vseq(v@)[i]),
            forall|k: int| 0 <= k < orig.len() ==> vseq(out@).contains(#[trigger] orig[k]) || vseq(
                v@,
            ).contains(orig[k]),
            forall|i: int, j: int|
                #![trigger vseq(out@)[i], vseq(out@)[j]]
                0 <= i < j < out@.len() ==> vseq(out@)[i].num > vseq(out@)[j].num,
            forall|i: int, t: int|
                #![trigger vseq(out@)[i], vseq(v@)[t]]
                0 <= i < out@.len() && 0 <= t < v@.len() ==> vseq(out@)[i].num > vseq(v@)[t].num,
            forall|i: int, j: int|
                #![trigger vseq(v@)[i], vseq(v@)[j]]
                0 <= i < j < v@.len() ==> vseq(v@)[i].num != vseq(v@)[j].num,
        decreases v@.len(),
    {
        let mut m: usize = 0;
        let mut i: usize = 1;
        while i < v.len()
            invariant
                (m as int) < (i as int),
                i <= v@.len(),
                forall|k: int| 0 <= k < i ==> vseq(v@)[k].num <= vseq(v@)[m as int].num,
            decreases v@.len() - i,
        {
            if v[i].num > v[m].num {
                m = i;
            }
            i = i + 1;
        }
        let ghost prev = v@;
        let ghost prev_out = out@;
        let f = v.remove(m);
        out.push(f);
        proof {
            assert forall|t: int| 0 <= t < v@.len() implies #[trigger] prev.contains(v@[t])
                && vseq(v@)[t] == (if t < m {
                vseq(prev)[t]
            } else {
                vseq(prev)[t + 1]
            }) by {
                if t < m {
                    assert(v@[t] == prev[t]);
                } else {
                    assert(v@[t] == prev[t + 1]);
                }
            }
            assert(vseq(out@) =~= vseq(prev_out).push(f@));
            assert forall|t: int| 0 <= t < v@.len() implies orig.contains(
                #[trigger] vseq(v@)[t],
            ) by {
                if t < m {
                    assert(vseq(v@)[t] == vseq(prev)[t]);
                    assert(orig.contains(vseq(prev)[t]));
                } else {
                    assert(vseq(v@)[t] == vseq(prev)[t + 1]);
                    assert(orig.contains(vseq(prev)[t + 1]));
                }
            }
            assert(vseq(prev)[m as int] == f@);
            assert forall|i: int, j: int|
                #![trigger vseq(out@)[i], vseq(out@)[j]]
                0 <= i < j < out@.len() implies vseq(out@)[i].num > vseq(out@)[j].num by {
                if j < out@.len() - 1 {
                    assert(vseq(out@)[i] == vseq(prev_out)[i]);
                    assert(vseq(out@)[j] == vseq(prev_out)[j]);
                } else {
                    assert(vseq(out@)[j] == f@);
                    if i < out@.len() - 1 {
                        assert(vseq(out@)[i] == vseq(prev_out)[i]);
                        assert(vseq(prev_out)[i].num > vseq(prev)[m as int].num);
                    }
                }
            }
            assert forall|i: int, t: int|
                #![trigger vseq(out@)[i], vseq(v@)[t]]
                0 <= i < out@.len() && 0 <= t < v@.len() implies vseq(out@)[i].num > vseq(
                v@,
            )[t].num by {
                let pt: int = if t < m {
                    t
                } else {
                    t + 1
                };
                assert(vseq(v@)[t] == vseq(prev)[pt]);
                if i < out@.len() - 1 {
                    assert(vseq(out@)[i] == vseq(prev_out)[i]);
                    assert(vseq(prev_out)[i].num > vseq(prev)[pt].num);
                } else {
                    assert(vseq(out@)[i] == f@);
                    assert(vseq(prev)[pt].num <= vseq(prev)[m as int].num);
                    assert(vseq(prev)[pt].num != vseq(prev)[m as int].num);
                }
            }
            assert forall|i: int, j: int|
                #![trigger vseq(v@)[i], vseq(v@)[j]]
                0 <= i < j < v@.len() implies vseq(v@)[i].num != vseq(v@)[j].num by {
                let pi: int = if i < m {
                    i
                } else {
                    i + 1
                };
                let pj: int = if j < m {
                    j
                } else {
                    j + 1
                };
                assert(vseq(v@)[i] == vseq(prev)[pi]);
                assert(vseq(v@)[j] == vseq(prev)[pj]);
                assert(vseq(prev)[pi].num != vseq(prev)[pj].num);
            }
            assert forall|k: int| 0 <= k < orig.len() implies vseq(out@).contains(
                #[trigger] orig[k],
            ) || vseq(v@).contains(orig[k]) by {
                if vseq(prev_out).contains(orig[k]) {
                    let w = choose|w: int|
                        0 <= w < prev_out.len() && vseq(prev_out)[w] == orig[k];
                    assert(vseq(out@)[w] == orig[k]);
                } else {
                    let t = choose|t: int| 0 <= t < prev.len() && vseq(prev)[t] == orig[k];
                    if t == m {
                        assert(vseq(out@)[out@.len() - 1] == orig[k]);
                    } else if t < m {
                        assert(vseq(v@)[t] == orig[k]);
                    } else {
                        assert(vseq(v@)[t - 1] == orig[k]);
                    }
                }
            }
        }
    }
    *v = out;
}


impl Version {
    /// The level-0 candidate files for a user key, in stored order.
    pub open spec fn l0_cands(self, uk: Seq<u8>) -> Seq<FileMetaV> {
        self.level(0).filter(l0_pred(uk))
    }

    /// Whether the level above 0 holds a candidate file for the query key:
    /// the binary probe lands on a file whose interval reaches the key.
    pub open spec fn upper_cand(self, l: int, uk: Seq<u8>, tag: nat) -> bool {
        let fs = self.level(l);
        let ix = fidx(fs, uk, tag);
        ix < fs.len() && lex_cmp(uk, ikey_ukey(fs[ix].smallest)) >= 0
    }

    /// The files overlapping the lookup key in each level: at level 0 every
    /// file whose user-key interval contains the key, newest first; above
    /// it at most the one file the binary search finds, kept when its
    /// interval reaches down to the key.
    #[verifier::loop_isolation(false)]
    pub fn get_overlapping(&self, key: &LookupKey) -> (r: Vec<Vec<FileMetaData>>)
        requires
            self.levels_wf(),
            key.wf(),
        ensures
            r@.len() == NUM_LEVELS,
            ({
                let cands = self.l0_cands(key.uk());
                let r0 = vseq(r@[0]@);
                &&& r0.len() == cands.len()
                &&& forall|i: int| 0 <= i < r0.len() ==> cands.contains(#[trigger] r0[i])
                &&& forall|i: int| 0 <= i < cands.len() ==> r0.contains(#[trigger] cands[i])
                &&& forall|i: int, j: int|
                    #![trigger r0[i], r0[j]]
                    0 <= i < j < r0.len() ==> r0[i].num > r0[j].num
            }),
            forall|l: int|
                #![trigger r@[l]]
                1 <= l < NUM_LEVELS ==> {
                    let fs = self.level(l);
                    let ix = fidx(fs, key.uk(), ikey_tag(key.ik()));
                    let rl = vseq(r@[l]@);
                    &&& (self.upper_cand(l, key.uk(), ikey_tag(key.ik())) ==> rl.len() == 1
                        && rl[0] == fs[ix])
                    &&& (!self.upper_cand(l, key.uk(), ikey_tag(key.ik())) ==> rl.len() == 0)
                },
    {
        let ghost uk = key.uk();
        let ghost ktag = ikey_tag(key.ik());
        let ghost pred = l0_pred(uk);
        let cmp = InternalKeyCmp;
        let ikey = key.internal_key();
        let ukey = key.user_key();
        proof {
            key.lemma_views();
            assert(self.level(0).take(0) =~= Seq::<FileMetaV>::empty());
            reveal(Seq::filter);
        }
        let files0 = &self.files[0];
        let mut l0: Vec<FileMetaData> = Vec::new();
        let mut i: usize = 0;
        while i < files0.len()
            invariant
                i <= files0@.len(),
                vseq(l0@) == self.level(0).take(i as int).filter(pred),
                forall|t: int| 0 <= t < l0@.len() ==> exists|k: int|
                    0 <= k < i && #[trigger] vseq(l0@)[t] == self.level(0)[k],
                forall|t1: int, t2: int|
                    #![trigger vseq(l0@)[t1], vseq(l0@)[t2]]
                    0 <= t1 < t2 < l0@.len() ==> vseq(l0@)[t1].num != vseq(l0@)[t2].num,
            decreases files0@.len() - i,
        {
            let f = &files0[i];
            let (_, _, fsmallest) = parse_internal_key(f.smallest.as_slice());
            let (_, _, flargest) = parse_internal_key(f.largest.as_slice());
            let c1 = cmp.cmp_inner(ukey, fsmallest);
            let c2 = cmp.cmp_inner(ukey, flargest);
            let not_before = match c1 {
                Ordering::Less => false,
                _ => true,
            };
            let not_after = match c2 {
                Ordering::Greater => false,
                _ => true,
            };
            let ghost prev = l0@;
            if not_before && not_after {
                l0.push(f.duplicate());
                proof {
                    lemma_vseq_push(prev, l0@[l0@.len() - 1]);
                    assert(vseq(l0@) =~= vseq(prev).push(self.level(0)[i as int]));
                    assert forall|t: int| 0 <= t < l0@.len() implies exists|k: int|
                        0 <= k < i + 1 && #[trigger] vseq(l0@)[t] == self.level(0)[k] by {
                        if t < l0@.len() - 1 {
                            assert(vseq(l0@)[t] == vseq(prev)[t]);
                            let k = choose|k: int|
                                0 <= k < i && vseq(prev)[t] == self.level(0)[k];
                            assert(vseq(l0@)[t] == self.level(0)[k]);
                        } else {
                            assert(vseq(l0@)[t] == self.level(0)[i as int]);
                        }
                    }
                    assert forall|t1: int, t2: int|
                        #![trigger vseq(l0@)[t1], vseq(l0@)[t2]]
                        0 <= t1 < t2 < l0@.len() implies vseq(l0@)[t1].num != vseq(
                        l0@,
                    )[t2].num by {
                        if t2 < l0@.len() - 1 {
                            assert(vseq(l0@)[t1] == vseq(prev)[t1]);
                            assert(vseq(l0@)[t2] == vseq(prev)[t2]);
                        } else {
                            assert(vseq(l0@)[t1] == vseq(prev)[t1]);
                            let k = choose|k: int|
                                0 <= k < i && vseq(prev)[t1] == self.level(0)[k];
                            assert(vseq(l0@)[t2] == self.level(0)[i as int]);
                            assert(self.level(0)[k].num != self.level(0)[i as int].num);
                        }
                    }
                }
            }
            proof {
                assert(self.level(0).take(i + 1) =~= self.level(0).take(i as int).push(
                    self.level(0)[i as int],
                ));
                lemma_filter_one(self.level(0).take(i as int), self.level(0)[i as int], pred);
                assert(pred(self.level(0)[i as int]) == l0_cand(self.level(0)[i as int], uk));
            }
            i = i + 1;
        }
        proof {
            assert(self.level(0).take(files0@.len() as int) =~= self.level(0));
        }
        let ghost cands = self.l0_cands(uk);
        sort_files_desc(&mut l0);
        let mut levels: Vec<Vec<FileMetaData>> = Vec::new();
        levels.push(l0);
        let mut l: usize = 1;
        while l < NUM_LEVELS
            invariant
                1 <= l <= NUM_LEVELS,
                levels@.len() == l,
                vseq(levels@[0]@).len() == cands.len(),
                forall|t: int| 0 <= t < cands.len() ==> vseq(levels@[0]@).contains(
                    #[trigger] cands[t],
                ),
                forall|t: int| 0 <= t < vseq(levels@[0]@).len() ==> cands.contains(
                    #[trigger] vseq(levels@[0]@)[t],
                ),
                forall|t1: int, t2: int|
                    #![trigger vseq(levels@[0]@)[t1], vseq(levels@[0]@)[t2]]
                    0 <= t1 < t2 < vseq(levels@[0]@).len() ==> vseq(levels@[0]@)[t1].num > vseq(
                        levels@[0]@,
                    )[t2].num,
                forall|l2: int|
                    #![trigger levels@[l2]]
                    1 <= l2 < l ==> {
                        let fs = self.level(l2);
                        let ix = fidx(fs, uk, ktag);
                        let rl = vseq(levels@[l2]@);
                        &&& (self.upper_cand(l2, uk, ktag) ==> rl.len() == 1 && rl[0] == fs[ix])
                        &&& (!self.upper_cand(l2, uk, ktag) ==> rl.len() == 0)
                    },
            decreases NUM_LEVELS - l,
        {
            proof {
                lemma_disjoint_sorted_by_largest(self.level(l as int));
                lemma_fidx_props(self.level(l as int), uk, ktag);
            }
            let fsl = self.files[l].as_slice();
            let ix = find_file(&cmp, fsl, ikey);
            let mut cv: Vec<FileMetaData> = Vec::new();
            if ix < fsl.len() {
                let (_, _, fsm) = parse_internal_key(fsl[ix].smallest.as_slice());
                let c = cmp.cmp_inner(ukey, fsm);
                let geq = match c {
                    Ordering::Less => false,
                    _ => true,
                };
                if geq {
                    cv.push(fsl[ix].duplicate());
                    proof {
                        assert(vseq(cv@) =~= seq![self.level(l as int)[ix as int]]);
                    }
                }
            }
            levels.push(cv);
            l = l + 1;
        }
        levels
    }
}


/// One saturating decrement: the seek budget drops by one, floored at the
/// smallest representable value.
pub open spec fn sat_dec(a: int) -> int {
    if a == i64::MIN {
        a
    } else {
        a - 1
    }
}

/// Index of the first file with the given number, or the length when the
/// number is absent.
pub open spec fn file_pos(fs: Seq<FileMetaV>, num: u64) -> int
    decreases fs.len(),
{
    if fs.len() == 0 {
        0
    } else if fs[0].num == num {
        0
    } else {
        1 + file_pos(fs.skip(1), num)
    }
}

/// What `file_pos` returns: the first position carrying the number.
pub proof fn lemma_file_pos_props(fs: Seq<FileMetaV>, num: u64)
    ensures
        0 <= file_pos(fs, num) <= fs.len(),
        forall|j: int| 0 <= j < file_pos(fs, num) ==> (#[trigger] fs[j]).num != num,
        file_pos(fs, num) < fs.len() ==> fs[file_pos(fs, num)].num == num,
    decreases fs.len(),
{
    if fs.len() > 0 && fs[0].num != num {
        lemma_file_pos_props(fs.skip(1), num);
        assert forall|j: int| 0 <= j < file_pos(fs, num) implies (#[trigger] fs[j]).num != num by {
            if j > 0 {
                assert(fs.skip(1)[j - 1] == fs[j]);
            }
        }
        if file_pos(fs, num) < fs.len() {
            assert(fs.skip(1)[file_pos(fs, num) - 1] == fs[file_pos(fs, num)]);
        }
    }
}

impl Version {
    /// Charges one seek to the file named by the statistics. When the
    /// budget drops below one and no file is nominated yet, the file
    /// becomes the compaction nominee and true is returned.
    pub fn update_stats(&mut self, stats: GetStats) -> (r: bool)
        requires
            old(self).levels_wf(),
            stats.file is Some ==> stats.level < NUM_LEVELS,
        ensures
            final(self).levels_wf(),
            final(self).table_cache == old(self).table_cache,
            stats.file is None ==> *final(self) == *old(self) && r == false,
            stats.file matches Some(num) ==> ({
                let l = stats.level as int;
                let fs = old(self).level(l);
                let p = file_pos(fs, num);
                if p < fs.len() {
                    &&& forall|l2: int|
                        0 <= l2 < NUM_LEVELS && l2 != l ==> #[trigger] final(self).level(l2)
                            == old(self).level(l2)
                    &&& final(self).level(l).len() == fs.len()
                    &&& forall|t: int|
                        0 <= t < fs.len() && t != p ==> #[trigger] final(self).level(l)[t] == fs[t]
                    &&& final(self).level(l)[p] == (FileMetaV {
                        allowed_seeks: sat_dec(fs[p].allowed_seeks),
                        ..fs[p]
                    })
                    &&& r == (sat_dec(fs[p].allowed_seeks) < 1 && old(self).file_to_compact
                        is None)
                    &&& (r ==> final(self).file_to_compact == Some(num)
                        && final(self).file_to_compact_lvl == stats.level)
                    &&& (!r ==> final(self).file_to_compact == old(self).file_to_compact
                        && final(self).file_to_compact_lvl == old(self).file_to_compact_lvl)
                } else {
                    *final(self) == *old(self) && r == false
                }
            }),
    {
        let num = match stats.file {
            None => {
                proof {
                    assert(self.levels_wf());
                }
                return false;
            },
            Some(n) => n,
        };
        let ghost l = stats.level as int;
        let ghost fs = self.level(l);
        proof {
            lemma_file_pos_props(fs, num);
        }
        let flen = self.files[stats.level].len();
        let mut p: usize = 0;
        while p < flen && self.files[stats.level][p].num != num
            invariant
                p <= flen,
                flen == fs.len(),
                fs == self.level(l),
                l == stats.level as int,
                stats.level < self.files@.len(),
                forall|j: int| 0 <= j < p ==> (#[trigger] fs[j]).num != num,
            decreases flen - p,
        {
            proof {
                assert(fs[p as int] == self.files@[l][p as int]@);
            }
            p = p + 1;
        }
        if p == flen {
            proof {
                if file_pos(fs, num) < fs.len() {
                    assert(fs[file_pos(fs, num)].num == num);
                }
                assert(self.levels_wf());
            }
            return false;
        }
        proof {
            assert(fs[p as int] == self.files@[l][p as int]@);
            assert(fs[p as int].num == num);
            if p < file_pos(fs, num) {
                assert(fs[p as int].num != num);
            }
            if file_pos(fs, num) < p {
                assert(fs[file_pos(fs, num)].num != num);
            }
            assert(p == file_pos(fs, num));
        }
        let ghost old_files = self.files@;
        let mut lv = self.files.remove(stats.level);
        let ghost old_lv = lv@;
        let mut f = lv.remove(p);
        let a = f.allowed_seeks;
        f.allowed_seeks = if a == i64::MIN {
            a
        } else {
            a - 1
        };
        let new_seeks = f.allowed_seeks;
        lv.insert(p, f);
        self.files.insert(stats.level, lv);
        proof {
            old_files.remove_ensures(l);
            old_files.remove(l).insert_ensures(l, self.files@[l]);
            old_lv.remove_ensures(p as int);
            old_lv.remove(p as int).insert_ensures(p as int, self.files@[l][p as int]);
            assert forall|l2: int| 0 <= l2 < NUM_LEVELS && l2 != l implies #[trigger] self.level(l2)
                == old(self).level(l2) by {
                if l2 < l {
                    assert(self.files@[l2] == old_files[l2]);
                } else {
                    assert(old_files.remove(l)[l2 - 1] == old_files[l2]);
                    assert(self.files@[l2] == old_files.remove(l)[l2 - 1]);
                }
            }
            assert(self.files@[l]@ == old_lv.remove(p as int).insert(p as int, f));
            assert forall|t: int| 0 <= t < fs.len() && t != p implies #[trigger] self.level(l)[t]
                == fs[t] by {
                if t < p {
                    assert(self.files@[l]@[t] == old_lv.remove(p as int)[t]);
                    assert(old_lv.remove(p as int)[t] == old_lv[t]);
                } else {
                    assert(self.files@[l]@[t] == old_lv.remove(p as int)[t - 1]);
                    assert(old_lv.remove(p as int)[t - 1] == old_lv[t]);
                }
                assert(fs[t] == old_lv[t]@);
            }
            assert(self.level(l)[p as int] == f@);
            assert(f@ == (FileMetaV { allowed_seeks: sat_dec(fs[p as int].allowed_seeks), ..fs[p as int] }));
            assert forall|l2: int, i: int|
                #![trigger self.level(l2)[i]]
                0 <= l2 < NUM_LEVELS && 0 <= i < self.level(l2).len() implies self.level(l2)[i].wf()
                && self.level(l2)[i].smallest == old(self).level(l2)[i].smallest
                && self.level(l2)[i].largest == old(self).level(l2)[i].largest
                && self.level(l2)[i].num == old(self).level(l2)[i].num
                && self.level(l2).len() == old(self).level(l2).len() by {
                if l2 != l {
                    assert(self.level(l2) == old(self).level(l2));
                } else {
                    if i != p {
                        assert(self.level(l)[i] == fs[i]);
                    }
                }
                assert(old(self).level(l2)[i].wf());
            }
            assert forall|l2: int| 1 <= l2 < NUM_LEVELS implies disjoint_ordered(
                #[trigger] self.level(l2),
            ) by {
                assert forall|i: int, j: int| 0 <= i < j < self.level(l2).len() implies lex_cmp(
                    ikey_ukey((#[trigger] self.level(l2)[i]).largest),
                    ikey_ukey((#[trigger] self.level(l2)[j]).smallest),
                ) < 0 by {
                    assert(self.level(l2)[i].largest == old(self).level(l2)[i].largest);
                    assert(self.level(l2)[j].smallest == old(self).level(l2)[j].smallest);
                    assert(disjoint_ordered(old(self).level(l2)));
                }
            }
        }
        proof {
            assert(self.files@.len() == NUM_LEVELS);
            assert forall|l2: int, i: int|
                #![trigger level_of(self.files@, l2)[i]]
                0 <= l2 < NUM_LEVELS && 0 <= i < level_of(self.files@, l2).len() implies level_of(
                self.files@,
                l2,
            )[i].wf() by {
                assert(level_of(self.files@, l2) == self.level(l2));
                assert(self.level(l2)[i].wf());
            }
            assert forall|l2: int| 1 <= l2 < NUM_LEVELS implies disjoint_ordered(
                #[trigger] level_of(self.files@, l2),
            ) by {
                assert(level_of(self.files@, l2) == self.level(l2));
                assert(disjoint_ordered(self.level(l2)));
            }
            assert forall|l2: int, i: int, j: int|
                #![trigger level_of(self.files@, l2)[i], level_of(self.files@, l2)[j]]
                0 <= l2 < NUM_LEVELS && 0 <= i < j < level_of(self.files@, l2).len() implies
                level_of(self.files@, l2)[i].num != level_of(self.files@, l2)[j].num by {
                assert(level_of(self.files@, l2) == self.level(l2));
                assert(self.level(l2)[i].num == old(self).level(l2)[i].num);
                assert(self.level(l2)[j].num == old(self).level(l2)[j].num);
                assert(level_of(old(self).files@, l2)[i].num != level_of(
                    old(self).files@,
                    l2,
                )[j].num);
            }
            assert(self.levels_wf());
        }
        if new_seeks < 1 && self.file_to_compact.is_none() {
            self.file_to_compact = Some(num);
            self.file_to_compact_lvl = stats.level;
            proof {
                assert(self.levels_wf());
            }
            true
        } else {
            proof {
                assert(self.levels_wf());
            }
            false
        }
    }
}


/// Filtering keeps only elements of the original sequence.
pub proof fn lemma_filter_subset(s: Seq<FileMetaV>, pred: spec_fn(FileMetaV) -> bool)
    ensures
        forall|t: int| 0 <= t < s.filter(pred).len() ==> s.contains(#[trigger] s.filter(pred)[t]),
    decreases s.len(),
{
    reveal(Seq::filter);
    if s.len() > 0 {
        lemma_filter_subset(s.drop_last(), pred);
        assert forall|t: int| 0 <= t < s.filter(pred).len() implies s.contains(
            #[trigger] s.filter(pred)[t],
        ) by {
            let sub = s.drop_last().filter(pred);
            if t < sub.len() {
                assert(s.filter(pred)[t] == sub[t]);
                let w = choose|w: int| 0 <= w < s.drop_last().len() && s.drop_last()[w] == sub[t];
                assert(s[w] == sub[t]);
            } else {
                assert(s.filter(pred)[t] == s.last());
                assert(s[s.len() - 1] == s.last());
            }
        }
    }
}

/// The transition one seek charge makes: one budget decrement at one file,
/// everything else unchanged, and the nomination exactly when the budget
/// first ran out while no file was nominated.
pub open spec fn update_effect(pre: Version, post: Version, l: int, i: int, r: bool) -> bool {
    &&& post.files@.len() == pre.files@.len()
    &&& forall|l2: int| 0 <= l2 < NUM_LEVELS && l2 != l ==> #[trigger] post.level(l2) == pre.level(
        l2,
    )
    &&& post.level(l).len() == pre.level(l).len()
    &&& forall|t: int| 0 <= t < pre.level(l).len() && t != i ==> #[trigger] post.level(l)[t]
        == pre.level(l)[t]
    &&& post.level(l)[i] == (FileMetaV {
        allowed_seeks: sat_dec(pre.level(l)[i].allowed_seeks),
        ..pre.level(l)[i]
    })
    &&& post.table_cache == pre.table_cache
    &&& r == (sat_dec(pre.level(l)[i].allowed_seeks) < 1 && pre.file_to_compact is None)
    &&& (r ==> post.file_to_compact == Some(pre.level(l)[i].num) && post.file_to_compact_lvl == l)
    &&& (!r ==> post.file_to_compact == pre.file_to_compact && post.file_to_compact_lvl
        == pre.file_to_compact_lvl)
}

impl Version {
    /// Number of candidate files in the levels from 1 up to `l` exclusive.
    pub open spec fn upper_count_upto(self, l: int, uk: Seq<u8>, tag: nat) -> nat
        decreases l,
    {
        if l <= 1 {
            0
        } else {
            self.upper_count_upto(l - 1, uk, tag) + (if self.upper_cand(l - 1, uk, tag) {
                1nat
            } else {
                0nat
            })
        }
    }

    /// Total number of files a lookup key is contained in, over all levels.
    pub open spec fn num_candidates(self, uk: Seq<u8>, tag: nat) -> nat {
        self.l0_cands(uk).len() + self.upper_count_upto(NUM_LEVELS as int, uk, tag)
    }

    /// When no level up to `l` holds an upper candidate, the count is zero.
    pub proof fn lemma_upper_count_zero(self, l: int, uk: Seq<u8>, tag: nat)
        requires
            forall|l2: int| 1 <= l2 < l ==> !(#[trigger] self.upper_cand(l2, uk, tag)),
        ensures
            self.upper_count_upto(l, uk, tag) == 0,
        decreases l,
    {
        if l > 1 {
            self.lemma_upper_count_zero(l - 1, uk, tag);
        }
    }

    /// The file a read sample charges: the newest level-0 candidate, or the
    /// single candidate of the shallowest level that has one.
    pub open spec fn charged_at(self, l: int, i: int, uk: Seq<u8>, tag: nat) -> bool {
        &&& 0 <= l < NUM_LEVELS
        &&& 0 <= i < self.level(l).len()
        &&& (if l == 0 {
            &&& l0_cand(self.level(0)[i], uk)
            &&& forall|i2: int|
                0 <= i2 < self.level(0).len() && i2 != i && l0_cand(
                    #[trigger] self.level(0)[i2],
                    uk,
                ) ==> self.level(0)[i2].num < self.level(0)[i].num
        } else {
            &&& self.upper_cand(l, uk, tag)
            &&& i == fidx(self.level(l), uk, tag)
            &&& self.l0_cands(uk).len() == 0
            &&& forall|l2: int| 1 <= l2 < l ==> !(#[trigger] self.upper_cand(l2, uk, tag))
        })
    }

    /// Counts the files the key is contained in and, when the key hits more
    /// than one file, charges a seek to the first candidate: the newest
    /// level-0 candidate, or the shallowest level's candidate. Returns true
    /// when that charge newly nominated a file for compaction. Once a file
    /// is nominated, further samples never change the nomination.
    #[verifier::loop_isolation(false)]
    pub fn record_read_sample(&mut self, key: &LookupKey) -> (r: bool)
        requires
            old(self).levels_wf(),
            key.wf(),
            old(self).files@[0]@.len() + NUM_LEVELS <= usize::MAX,
        ensures
            final(self).levels_wf(),
            final(self).table_cache == old(self).table_cache,
            old(self).file_to_compact is Some ==> r == false && final(self).file_to_compact == old(self).file_to_compact && final(self).file_to_compact_lvl == old(self).file_to_compact_lvl,
            old(self).num_candidates(key.uk(), ikey_tag(key.ik())) <= 1 ==> *final(self) == *old(self) && r == false,
            old(self).num_candidates(key.uk(), ikey_tag(key.ik())) >= 2 ==> (exists|lc: int, ic: int|
                old(self).charged_at(lc, ic, key.uk(), ikey_tag(key.ik())) && update_effect(
                    *old(self),
                    *final(self),
                    lc,
                    ic,
                    r,
                )),
    {
        let ghost uk = key.uk();
        let ghost ktag = ikey_tag(key.ik());
        let ghost cands = self.l0_cands(uk);
        let levels = self.get_overlapping(key);
        let mut contained_in: usize = 0;
        let mut i: usize = 0;
        let mut first_file: Option<u64> = None;
        let mut first_file_level: Option<usize> = None;
        while i < levels.len()
            invariant
                i <= NUM_LEVELS,
                contained_in as nat == (if i == 0 {
                    0nat
                } else {
                    cands.len() + self.upper_count_upto(i as int, uk, ktag)
                }),
                contained_in <= self.files@[0]@.len() + i,
                first_file is None <==> first_file_level is None,
                first_file is None ==> (i == 0 || (cands.len() == 0 && forall|l2: int|
                    1 <= l2 < i ==> !(#[trigger] self.upper_cand(l2, uk, ktag)))),
                first_file matches Some(n) ==> (exists|lc: int|
                    {
                        &&& 0 <= lc < i
                        &&& first_file_level == Some(lc as usize)
                        &&& vseq((#[trigger] levels@[lc])@).len() > 0
                        &&& n == vseq(levels@[lc]@)[0].num
                        &&& (lc == 0 ==> cands.len() > 0)
                        &&& (lc >= 1 ==> cands.len() == 0 && self.upper_cand(lc, uk, ktag)
                            && forall|l2: int|
                            1 <= l2 < lc ==> !(#[trigger] self.upper_cand(l2, uk, ktag)))
                    }),
            decreases levels@.len() - i,
        {
            proof {
                if i >= 1 {
                    if self.upper_cand(i as int, uk, ktag) {
                        assert(vseq(levels@[i as int]@).len() == 1);
                    } else {
                        assert(vseq(levels@[i as int]@).len() == 0);
                    }
                } else {
                    self.level(0).lemma_filter_len(l0_pred(uk));
                }
            }
            if !levels[i].is_empty() {
                if first_file.is_none() {
                    first_file = Some(levels[i][0].num);
                    first_file_level = Some(i);
                    proof {
                        assert(vseq(levels@[i as int]@)[0] == levels@[i as int]@[0]@);
                    }
                }
            }
            contained_in = contained_in + levels[i].len();
            i = i + 1;
        }
        proof {
            assert(contained_in as nat == self.num_candidates(uk, ktag));
        }
        if contained_in > 1 {
            proof {
                if first_file is None {
                    self.lemma_upper_count_zero(NUM_LEVELS as int, uk, ktag);
                    assert(false);
                }
            }
            let lvl = match first_file_level {
                None => 0,
                Some(l) => l,
            };
            let stats = GetStats { file: first_file, level: lvl };
            let ghost pre = *self;
            let ghost n = first_file->0;
            let ghost lc = choose|lc: int|
                {
                    &&& 0 <= lc < i
                    &&& first_file_level == Some(lc as usize)
                    &&& vseq((#[trigger] levels@[lc])@).len() > 0
                    &&& n == vseq(levels@[lc]@)[0].num
                    &&& (lc == 0 ==> cands.len() > 0)
                    &&& (lc >= 1 ==> cands.len() == 0 && self.upper_cand(lc, uk, ktag)
                        && forall|l2: int|
                        1 <= l2 < lc ==> !(#[trigger] self.upper_cand(l2, uk, ktag)))
                };
            proof {
                assert(0 <= lc < NUM_LEVELS);
            }
            let ghost ic: int = if lc == 0 {
                choose|ic: int| 0 <= ic < pre.level(0).len() && pre.level(0)[ic] == vseq(
                    levels@[0]@,
                )[0]
            } else {
                fidx(pre.level(lc), uk, ktag)
            };
            proof {
                let r0 = vseq(levels@[0]@);
                if lc == 0 {
                    assert(cands.contains(r0[0]));
                    lemma_filter_subset(pre.level(0), l0_pred(uk));
                    let w = choose|w: int| 0 <= w < cands.len() && cands[w] == r0[0];
                    assert(pre.level(0).contains(cands[w]));
                    assert(exists|ic2: int|
                        0 <= ic2 < pre.level(0).len() && pre.level(0)[ic2] == r0[0]);
                    assert(pre.level(0)[ic] == r0[0]);
                    pre.level(0).lemma_filter_pred(l0_pred(uk), w);
                    assert(l0_cand(pre.level(0)[ic], uk));
                    assert forall|i2: int|
                        0 <= i2 < pre.level(0).len() && i2 != ic && l0_cand(
                            #[trigger] pre.level(0)[i2],
                            uk,
                        ) implies pre.level(0)[i2].num < pre.level(0)[ic].num by {
                        pre.level(0).lemma_filter_contains(l0_pred(uk), i2);
                        assert(cands.contains(pre.level(0)[i2]));
                        let t = choose|t: int| 0 <= t < r0.len() && r0[t] == pre.level(0)[i2];
                        if t == 0 {
                            assert(pre.level(0)[i2] == pre.level(0)[ic]);
                        } else {
                            assert(r0[0].num > r0[t].num);
                        }
                    }
                    assert(pre.charged_at(0, ic, uk, ktag));
                } else {
                    lemma_fidx_props(pre.level(lc), uk, ktag);
                    assert(vseq(levels@[lc]@)[0] == pre.level(lc)[ic]);
                    assert(pre.l0_cands(uk).len() == 0);
                    assert forall|l2: int| 1 <= l2 < lc implies !(#[trigger] pre.upper_cand(
                        l2,
                        uk,
                        ktag,
                    )) by {
                        assert(!self.upper_cand(l2, uk, ktag));
                    }
                    assert(pre.charged_at(lc, ic, uk, ktag));
                }
                assert(pre.level(lc)[ic].num == n);
                lemma_file_pos_props(pre.level(lc), n);
                let p = file_pos(pre.level(lc), n);
                if p < ic {
                    assert(pre.level(lc)[p].num != n);
                }
                if ic < p {
                    assert(pre.level(lc)[ic].num != n);
                }
                assert(p == ic);
            }
            let r = self.update_stats(stats);
            proof {
                assert(update_effect(pre, *self, lc, ic, r));
            }
            r
        } else {
            false
        }
    }
}


/// The file's user-key interval meets the (possibly open-ended) user-key
/// range `[b, e]`: it neither ends before `b` nor begins after `e`.
pub open spec fn overlaps(f: FileMetaV, b: Seq<u8>, e: Seq<u8>) -> bool {
    &&& !(b.len() > 0 && lex_cmp(ikey_ukey(f.largest), b) < 0)
    &&& !(e.len() > 0 && lex_cmp(ikey_ukey(f.smallest), e) > 0)
}

/// The overlap predicate for one range, as a function value.
pub open spec fn overlaps_pred(b: Seq<u8>, e: Seq<u8>) -> spec_fn(FileMetaV) -> bool {
    |f: FileMetaV| overlaps(f, b, e)
}

/// For a well-formed file and a bounded range, the overlap predicate says
/// exactly that some user key lies in both intervals.
pub proof fn lemma_overlap_is_intersection(f: FileMetaV, b: Seq<u8>, e: Seq<u8>)
    requires
        f.wf(),
        b.len() > 0,
        e.len() > 0,
        lex_cmp(b, e) <= 0,
    ensures
        overlaps(f, b, e) <==> (exists|k: Seq<u8>|
            #[trigger] lex_cmp(b, k) <= 0 && lex_cmp(k, e) <= 0 && lex_cmp(
                ikey_ukey(f.smallest),
                k,
            ) <= 0 && lex_cmp(k, ikey_ukey(f.largest)) <= 0),
{
    let us = ikey_ukey(f.smallest);
    let ul = ikey_ukey(f.largest);
    lemma_icmp_le_ukey(f.smallest, f.largest);
    lemma_lex_antisym(ul, b);
    lemma_lex_antisym(us, b);
    lemma_lex_antisym(us, e);
    lemma_lex_eq(b, b);
    lemma_lex_eq(us, us);
    if overlaps(f, b, e) {
        let k = if lex_cmp(b, us) <= 0 {
            us
        } else {
            b
        };
        assert(lex_cmp(b, k) <= 0 && lex_cmp(k, e) <= 0 && lex_cmp(us, k) <= 0 && lex_cmp(k, ul)
            <= 0) by {
            if lex_cmp(b, us) <= 0 {
                lemma_lex_trans_mixed(us, e, e);
            } else {
                lemma_lex_antisym(b, us);
            }
        }
    }
    if exists|k: Seq<u8>|
        #[trigger] lex_cmp(b, k) <= 0 && lex_cmp(k, e) <= 0 && lex_cmp(us, k) <= 0 && lex_cmp(
            k,
            ul,
        ) <= 0 {
        let k = choose|k: Seq<u8>|
            #[trigger] lex_cmp(b, k) <= 0 && lex_cmp(k, e) <= 0 && lex_cmp(us, k) <= 0 && lex_cmp(
                k,
                ul,
            ) <= 0;
        lemma_lex_trans_mixed(b, k, ul);
        lemma_lex_trans_mixed(us, k, e);
        lemma_lex_antisym(b, ul);
    }
}

/// The file begins strictly before the closed lower bound.
pub open spec fn extends_begin(f: FileMetaV, b: Seq<u8>) -> bool {
    b.len() > 0 && lex_cmp(ikey_ukey(f.smallest), b) < 0
}

/// The file ends strictly after the closed upper bound.
pub open spec fn extends_end(f: FileMetaV, e: Seq<u8>) -> bool {
    e.len() > 0 && lex_cmp(ikey_ukey(f.largest), e) > 0
}

/// An overlapping file that widens the range on either side.
pub open spec fn expands(f: FileMetaV, b: Seq<u8>, e: Seq<u8>) -> bool {
    overlaps(f, b, e) && (extends_begin(f, b) || extends_end(f, e))
}

/// Index of the first file that widens the range, or the length.
pub open spec fn first_expander(fs: Seq<FileMetaV>, b: Seq<u8>, e: Seq<u8>) -> int
    decreases fs.len(),
{
    if fs.len() == 0 {
        0
    } else if expands(fs[0], b, e) {
        0
    } else {
        1 + first_expander(fs.skip(1), b, e)
    }
}

/// What `first_expander` returns.
pub proof fn lemma_first_expander_props(fs: Seq<FileMetaV>, b: Seq<u8>, e: Seq<u8>)
    ensures
        0 <= first_expander(fs, b, e) <= fs.len(),
        forall|j: int| 0 <= j < first_expander(fs, b, e) ==> !expands(#[trigger] fs[j], b, e),
        first_expander(fs, b, e) < fs.len() ==> expands(fs[first_expander(fs, b, e)], b, e),
    decreases fs.len(),
{
    if fs.len() > 0 && !expands(fs[0], b, e) {
        lemma_first_expander_props(fs.skip(1), b, e);
        assert forall|j: int| 0 <= j < first_expander(fs, b, e) implies !expands(
            #[trigger] fs[j],
            b,
            e,
        ) by {
            if j > 0 {
                assert(fs.skip(1)[j - 1] == fs[j]);
            }
        }
        if first_expander(fs, b, e) < fs.len() {
            assert(fs.skip(1)[first_expander(fs, b, e) - 1] == fs[first_expander(fs, b, e)]);
        }
    }
}

/// How much room the range still has to grow inside the level: the number
/// of files reaching below its begin plus the number reaching above its
/// end.
pub open spec fn expand_metric(fs: Seq<FileMetaV>, b: Seq<u8>, e: Seq<u8>) -> nat {
    fs.filter(|f: FileMetaV| extends_begin(f, b)).len() + fs.filter(
        |f: FileMetaV| extends_end(f, e),
    ).len()
}

/// A pointwise-weaker predicate filters to at most as many elements.
proof fn lemma_filter_le(s: Seq<FileMetaV>, p: spec_fn(FileMetaV) -> bool, q: spec_fn(FileMetaV) -> bool)
    requires
        forall|i: int| 0 <= i < s.len() ==> (p(#[trigger] s[i]) ==> q(s[i])),
    ensures
        s.filter(p).len() <= s.filter(q).len(),
    decreases s.len(),
{
    reveal(Seq::filter);
    if s.len() > 0 {
        lemma_filter_le(s.drop_last(), p, q);
    }
}

/// Strictly fewer, witnessed by one element the weaker predicate drops.
proof fn lemma_filter_lt(
    s: Seq<FileMetaV>,
    p: spec_fn(FileMetaV) -> bool,
    q: spec_fn(FileMetaV) -> bool,
    w: int,
)
    requires
        forall|i: int| 0 <= i < s.len() ==> (p(#[trigger] s[i]) ==> q(s[i])),
        0 <= w < s.len(),
        q(s[w]),
        !p(s[w]),
    ensures
        s.filter(p).len() < s.filter(q).len(),
    decreases s.len(),
{
    reveal(Seq::filter);
    if w == s.len() - 1 {
        lemma_filter_le(s.drop_last(), p, q);
    } else {
        lemma_filter_lt(s.drop_last(), p, q, w);
    }
}

/// Widening the begin of the range to the smallest key of the file that
/// forced it strictly shrinks the metric.
proof fn lemma_metric_dec_begin(fs: Seq<FileMetaV>, b: Seq<u8>, e: Seq<u8>, w: int)
    requires
        0 <= w < fs.len(),
        extends_begin(fs[w], b),
    ensures
        expand_metric(fs, ikey_ukey(fs[w].smallest), e) < expand_metric(fs, b, e),
{
    let nb = ikey_ukey(fs[w].smallest);
    assert forall|i: int| 0 <= i < fs.len() implies (extends_begin(#[trigger] fs[i], nb)
        ==> extends_begin(fs[i], b)) by {
        if extends_begin(fs[i], nb) {
            lemma_lex_trans_mixed(ikey_ukey(fs[i].smallest), nb, b);
        }
    }
    if nb.len() > 0 {
        lemma_lex_eq(nb, nb);
    }
    lemma_filter_lt(
        fs,
        |f: FileMetaV| extends_begin(f, nb),
        |f: FileMetaV| extends_begin(f, b),
        w,
    );
}

/// Widening the end of the range to the largest key of the file that
/// forced it strictly shrinks the metric.
proof fn lemma_metric_dec_end(fs: Seq<FileMetaV>, b: Seq<u8>, e: Seq<u8>, w: int)
    requires
        0 <= w < fs.len(),
        extends_end(fs[w], e),
    ensures
        expand_metric(fs, b, ikey_ukey(fs[w].largest)) < expand_metric(fs, b, e),
{
    let ne = ikey_ukey(fs[w].largest);
    assert forall|i: int| 0 <= i < fs.len() implies (extends_end(#[trigger] fs[i], ne)
        ==> extends_end(fs[i], e)) by {
        if extends_end(fs[i], ne) {
            lemma_lex_antisym(ikey_ukey(fs[i].largest), ne);
            lemma_lex_antisym(ne, e);
            lemma_lex_trans_mixed(e, ne, ikey_ukey(fs[i].largest));
            lemma_lex_antisym(e, ikey_ukey(fs[i].largest));
        }
    }
    if ne.len() > 0 {
        lemma_lex_eq(ne, ne);
    }
    lemma_filter_lt(fs, |f: FileMetaV| extends_end(f, ne), |f: FileMetaV| extends_end(f, e), w);
}

/// The fixpoint the level-0 range expansion reaches: starting from
/// `[b, e]`, as long as some overlapping file begins before the range or
/// ends after it, the range is widened to that file's endpoint; the first
/// such file in stored order decides, begin before end.
pub open spec fn expand_range(fs: Seq<FileMetaV>, b: Seq<u8>, e: Seq<u8>) -> (Seq<u8>, Seq<u8>)
    decreases expand_metric(fs, b, e),
    via expand_range_decreases
{
    let fe = first_expander(fs, b, e);
    if fe >= fs.len() {
        (b, e)
    } else if extends_begin(fs[fe], b) {
        expand_range(fs, ikey_ukey(fs[fe].smallest), e)
    } else {
        expand_range(fs, b, ikey_ukey(fs[fe].largest))
    }
}

#[via_fn]
proof fn expand_range_decreases(fs: Seq<FileMetaV>, b: Seq<u8>, e: Seq<u8>) {
    let fe = first_expander(fs, b, e);
    lemma_first_expander_props(fs, b, e);
    if fe < fs.len() {
        if extends_begin(fs[fe], b) {
            lemma_metric_dec_begin(fs, b, e, fe);
        } else {
            lemma_metric_dec_end(fs, b, e, fe);
        }
    }
}

/// Once the expansion has converged, no file of the level that overlaps
/// the final range still reaches beyond it on either side.
pub proof fn lemma_expansion_closed(fs: Seq<FileMetaV>, b: Seq<u8>, e: Seq<u8>)
    ensures
        ({
            let (fb, fe2) = expand_range(fs, b, e);
            forall|i: int|
                0 <= i < fs.len() && overlaps(#[trigger] fs[i], fb, fe2) ==> !extends_begin(
                    fs[i],
                    fb,
                ) && !extends_end(fs[i], fe2)
        }),
    decreases expand_metric(fs, b, e),
{
    let fe = first_expander(fs, b, e);
    lemma_first_expander_props(fs, b, e);
    if fe < fs.len() {
        if extends_begin(fs[fe], b) {
            lemma_metric_dec_begin(fs, b, e, fe);
            lemma_expansion_closed(fs, ikey_ukey(fs[fe].smallest), e);
        } else {
            lemma_metric_dec_end(fs, b, e, fe);
            lemma_expansion_closed(fs, b, ikey_ukey(fs[fe].largest));
        }
    }
}

impl Version {
    /// Collects the files of one level-0 search pass and restarts with a
    /// widened range whenever an included file reaches beyond it.
    #[verifier::loop_isolation(false)]
    fn search_level0(&self, ubegin: Vec<u8>, uend: Vec<u8>) -> (r: Vec<FileMetaData>)
        requires
            self.levels_wf(),
        ensures
            ({
                let (fb, fe2) = expand_range(self.level(0), ubegin@, uend@);
                vseq(r@) == self.level(0).filter(overlaps_pred(fb, fe2))
            }),
        decreases expand_metric(self.level(0), ubegin@, uend@),
    {
        let ghost fs = self.level(0);
        let ghost b = ubegin@;
        let ghost e = uend@;
        let ghost pred = overlaps_pred(b, e);
        let cmp = InternalKeyCmp;
        let mut inputs: Vec<FileMetaData> = Vec::new();
        let mut i: usize = 0;
        proof {
            assert(fs.take(0) =~= Seq::<FileMetaV>::empty());
            reveal(Seq::filter);
            lemma_first_expander_props(fs, b, e);
        }
        let n = self.files[0].len();
        while i < n
            invariant
                i <= n,
                n == fs.len(),
                vseq(inputs@) == fs.take(i as int).filter(pred),
                forall|j: int| 0 <= j < i ==> !expands(#[trigger] fs[j], b, e),
            decreases n - i,
        {
            let f = &self.files[0][i];
            proof {
                assert(fs[i as int] == self.files@[0]@[i as int]@);
            }
            let (_, _, fsmallest) = parse_internal_key(f.smallest.as_slice());
            let (_, _, flargest) = parse_internal_key(f.largest.as_slice());
            let skip_low = !ubegin.is_empty() && (match cmp.cmp_inner(flargest, ubegin.as_slice()) {
                Ordering::Less => true,
                _ => false,
            });
            let skip_high = !uend.is_empty() && (match cmp.cmp_inner(fsmallest, uend.as_slice()) {
                Ordering::Greater => true,
                _ => false,
            });
            if !skip_low && !skip_high {
                inputs.push(f.duplicate());
                let widen_low = !ubegin.is_empty() && (match cmp.cmp_inner(
                    fsmallest,
                    ubegin.as_slice(),
                ) {
                    Ordering::Less => true,
                    _ => false,
                });
                if widen_low {
                    proof {
                        assert(expands(fs[i as int], b, e));
                        if first_expander(fs, b, e) < i {
                            assert(!expands(fs[first_expander(fs, b, e)], b, e));
                        }
                        assert(first_expander(fs, b, e) == i);
                        lemma_metric_dec_begin(fs, b, e, i as int);
                    }
                    return self.search_level0(slice_to_vec(fsmallest), uend);
                }
                let widen_high = !uend.is_empty() && (match cmp.cmp_inner(
                    flargest,
                    uend.as_slice(),
                ) {
                    Ordering::Greater => true,
                    _ => false,
                });
                if widen_high {
                    proof {
                        assert(expands(fs[i as int], b, e));
                        if first_expander(fs, b, e) < i {
                            assert(!expands(fs[first_expander(fs, b, e)], b, e));
                        }
                        assert(first_expander(fs, b, e) == i);
                        lemma_metric_dec_end(fs, b, e, i as int);
                    }
                    return self.search_level0(ubegin, slice_to_vec(flargest));
                }
            }
            proof {
                assert(fs.take(i + 1) =~= fs.take(i as int).push(fs[i as int]));
                lemma_filter_one(fs.take(i as int), fs[i as int], pred);
                assert(pred(fs[i as int]) == overlaps(fs[i as int], b, e));
                if !skip_low && !skip_high {
                    assert(overlaps(fs[i as int], b, e));
                    assert(!expands(fs[i as int], b, e));
                } else {
                    assert(!overlaps(fs[i as int], b, e));
                }
            }
            i = i + 1;
        }
        proof {
            assert(fs.take(n as int) =~= fs);
            if first_expander(fs, b, e) < fs.len() {
                assert(!expands(fs[first_expander(fs, b, e)], b, e));
            }
            assert(first_expander(fs, b, e) == fs.len());
            assert(expand_range(fs, b, e) == (b, e));
        }
        inputs
    }

    /// All files of the level that may hold keys between `begin` and `end`
    /// (internal keys). Above level 0 one ordered pass collects exactly the
    /// files whose user-key intervals meet the range; at level 0 the range
    /// is widened to the endpoints of every included file and the scan
    /// restarts until it converges.
    #[verifier::loop_isolation(false)]
    pub fn overlapping_inputs(&self, level: usize, begin: &[u8], end: &[u8]) -> (r: Vec<FileMetaData>)
        requires
            self.levels_wf(),
            level < NUM_LEVELS,
        ensures
            level == 0 ==> ({
                let (fb, fe2) = expand_range(self.level(0), ikey_ukey(begin@), ikey_ukey(end@));
                vseq(r@) == self.level(0).filter(overlaps_pred(fb, fe2))
            }),
            level >= 1 ==> vseq(r@) == self.level(level as int).filter(
                overlaps_pred(ikey_ukey(begin@), ikey_ukey(end@)),
            ),
    {
        let (_, _, ubegin) = parse_internal_key(begin);
        let (_, _, uend) = parse_internal_key(end);
        if level == 0 {
            return self.search_level0(slice_to_vec(ubegin), slice_to_vec(uend));
        }
        let ghost fs = self.level(level as int);
        let ghost b = ikey_ukey(begin@);
        let ghost e = ikey_ukey(end@);
        let ghost pred = overlaps_pred(b, e);
        let cmp = InternalKeyCmp;
        let mut inputs: Vec<FileMetaData> = Vec::new();
        let mut i: usize = 0;
        proof {
            assert(fs.take(0) =~= Seq::<FileMetaV>::empty());
            reveal(Seq::filter);
        }
        let n = self.files[level].len();
        while i < n
            invariant
                i <= n,
                n == fs.len(),
                vseq(inputs@) == fs.take(i as int).filter(pred),
            decreases n - i,
        {
            let f = &self.files[level][i];
            proof {
                assert(fs[i as int] == self.files@[level as int]@[i as int]@);
            }
            let (_, _, fsmallest) = parse_internal_key(f.smallest.as_slice());
            let (_, _, flargest) = parse_internal_key(f.largest.as_slice());
            let skip_low = !ubegin.is_empty() && (match cmp.cmp_inner(flargest, ubegin) {
                Ordering::Less => true,
                _ => false,
            });
            let skip_high = !uend.is_empty() && (match cmp.cmp_inner(fsmallest, uend) {
                Ordering::Greater => true,
                _ => false,
            });
            if !skip_low && !skip_high {
                inputs.push(f.duplicate());
            }
            proof {
                assert(fs.take(i + 1) =~= fs.take(i as int).push(fs[i as int]));
                lemma_filter_one(fs.take(i as int), fs[i as int], pred);
                assert(pred(fs[i as int]) == overlaps(fs[i as int], b, e));
            }
            i = i + 1;
        }
        proof {
            assert(fs.take(n as int) =~= fs);
        }
        inputs
    }
}


impl Version {
    /// Probing the file's table for the query key finds an entry with the
    /// queried user key at or below the queried sequence number.
    pub open spec fn match_in_file(self, num: u64, uk: Seq<u8>, tag: nat) -> bool {
        &&& self.table_cache.has(num)
        &&& ({
            let es = self.table_cache.entries_of(num);
            let lb = lb_key(es, uk, tag);
            lb < es.len() && ikey_ukey(es[lb].key) == uk
        })
    }

    /// The value such a probe returns.
    pub open spec fn match_value(self, num: u64, uk: Seq<u8>, tag: nat) -> Seq<u8> {
        let es = self.table_cache.entries_of(num);
        es[lb_key(es, uk, tag)].value
    }

    /// The file at `(l, i)` is one of the candidates a lookup probes.
    pub open spec fn cand(self, l: int, i: int, uk: Seq<u8>, tag: nat) -> bool {
        if l == 0 {
            0 <= i < self.level(0).len() && l0_cand(self.level(0)[i], uk)
        } else {
            &&& 1 <= l < NUM_LEVELS
            &&& self.upper_cand(l, uk, tag)
            &&& i == fidx(self.level(l), uk, tag)
        }
    }

    /// A candidate whose probe matches the queried user key.
    pub open spec fn cand_match(self, l: int, i: int, uk: Seq<u8>, tag: nat) -> bool {
        self.cand(l, i, uk, tag) && self.match_in_file(self.level(l)[i].num, uk, tag)
    }

    /// Point lookup: probes the candidate files newest first, level by
    /// level, and returns the value of the first file whose probe matches
    /// the queried user key, together with the read statistics charging the
    /// first fruitless probe. A miss is `Ok(None)`, not an error.
    #[verifier::loop_isolation(false)]
    pub fn get(&self, key: &LookupKey) -> (r: Result<Option<(Vec<u8>, GetStats)>, Status>)
        requires
            self.wf(),
            key.wf(),
        ensures
            r is Ok,
            (r matches Ok(Some(p)) ==> (exists|l: int, i: int|
                self.cand_match(l, i, key.uk(), ikey_tag(key.ik())))),
            ((exists|l: int, i: int| self.cand_match(l, i, key.uk(), ikey_tag(key.ik())))
                ==> !(r matches Ok(None))),
            (r matches Ok(Some(p)) ==> (exists|l: int, i: int|
                #![trigger self.cand_match(l, i, key.uk(), ikey_tag(key.ik()))]
                {
                    let uk = key.uk();
                    let tag = ikey_tag(key.ik());
                    &&& self.cand_match(l, i, uk, tag)
                    &&& p.0@ == self.match_value(self.level(l)[i].num, uk, tag)
                    &&& forall|l2: int, i2: int|
                        0 <= l2 < l ==> !(#[trigger] self.cand_match(l2, i2, uk, tag))
                    &&& (l == 0 ==> forall|i2: int|
                        self.cand_match(0, i2, uk, tag) && i2 != i ==> (
                        #[trigger] self.level(0)[i2]).num < self.level(0)[i].num)
                })),
            (r matches Ok(Some(p)) ==> (exists|lf: int, if2: int|
                #![trigger self.charged_at(lf, if2, key.uk(), ikey_tag(key.ik()))]
                {
                    let uk = key.uk();
                    let tag = ikey_tag(key.ik());
                    &&& self.charged_at(lf, if2, uk, tag)
                    &&& (self.cand_match(lf, if2, uk, tag) ==> p.1.file is None)
                    &&& (!self.cand_match(lf, if2, uk, tag) ==> p.1.file == Some(
                        self.level(lf)[if2].num,
                    ) && p.1.level as int == lf)
                })),
    {
        let ghost uk = key.uk();
        let ghost ktag = ikey_tag(key.ik());
        let ghost pred = l0_pred(uk);
        proof {
            key.lemma_views();
        }
        let levels = self.get_overlapping(key);
        let ghost r0 = vseq(levels@[0]@);
        let ikey = key.internal_key();
        let ukey = key.user_key();
        let cmp = InternalKeyCmp;
        let mut stats = GetStats { file: None, level: 0 };
        let mut last_read: Option<u64> = None;
        let mut last_read_level: usize = 0;
        let ghost mut first_cand: Option<(int, int)> = None;
        let mut level: usize = 0;
        while level < NUM_LEVELS
            invariant
                levels@.len() == NUM_LEVELS,
                level <= NUM_LEVELS,
                forall|l2: int, t: int|
                    #![trigger vseq(levels@[l2]@)[t]]
                    0 <= l2 < level && 0 <= t < vseq(levels@[l2]@).len() ==> !self.match_in_file(
                        vseq(levels@[l2]@)[t].num,
                        uk,
                        ktag,
                    ),
                first_cand is None <==> last_read is None,
                last_read is None ==> stats.file is None,
                last_read is None ==> (forall|l2: int|
                    0 <= l2 < level ==> vseq((#[trigger] levels@[l2])@).len() == 0),
                first_cand matches Some(fc) ==> ({
                    &&& self.charged_at(fc.0, fc.1, uk, ktag)
                    &&& !self.match_in_file(self.level(fc.0)[fc.1].num, uk, ktag)
                    &&& (stats.file is None ==> last_read == Some(self.level(fc.0)[fc.1].num)
                        && last_read_level as int == fc.0)
                    &&& (stats.file matches Some(n) ==> n == self.level(fc.0)[fc.1].num
                        && stats.level as int == fc.0)
                }),
            decreases NUM_LEVELS - level,
        {
            let files = &levels[level];
            let ghost fl = vseq(levels@[level as int]@);
            let mut j: usize = 0;
            while j < files.len()
                invariant
                    levels@.len() == NUM_LEVELS,
                    level < NUM_LEVELS,
                    j <= fl.len(),
                    fl == vseq(levels@[level as int]@),
                    fl.len() == files@.len(),
                    files@ == levels@[level as int]@,
                    forall|l2: int, t: int|
                        #![trigger vseq(levels@[l2]@)[t]]
                        0 <= l2 < level && 0 <= t < vseq(levels@[l2]@).len() ==> !self
                            .match_in_file(vseq(levels@[l2]@)[t].num, uk, ktag),
                    forall|t: int| 0 <= t < j ==> !self.match_in_file(
                        (#[trigger] fl[t]).num,
                        uk,
                        ktag,
                    ),
                    first_cand is None <==> last_read is None,
                    last_read is None ==> stats.file is None,
                    last_read is None ==> j == 0,
                    last_read is None ==> (forall|l2: int|
                        0 <= l2 < level ==> vseq((#[trigger] levels@[l2])@).len() == 0),
                    first_cand matches Some(fc) ==> ({
                        &&& self.charged_at(fc.0, fc.1, uk, ktag)
                        &&& !self.match_in_file(self.level(fc.0)[fc.1].num, uk, ktag)
                        &&& (stats.file is None ==> last_read == Some(self.level(fc.0)[fc.1].num)
                            && last_read_level as int == fc.0)
                        &&& (stats.file matches Some(n) ==> n == self.level(fc.0)[fc.1].num
                            && stats.level as int == fc.0)
                    }),
                decreases fl.len() - j,
            {
                let f = &files[j];
                proof {
                    assert(fl[j as int] == files@[j as int]@);
                }
                let ghost was_first = last_read is None;
                if last_read.is_some() && stats.file.is_none() {
                    stats.file = last_read;
                    stats.level = last_read_level;
                }
                last_read_level = level;
                last_read = Some(f.num);
                // Identify the probed file as a candidate of the snapshot.
                let ghost (cl, ci): (int, int) = if level == 0 {
                    (0int, choose|ci: int|
                        0 <= ci < self.level(0).len() && self.level(0)[ci] == fl[j as int])
                } else {
                    (level as int, fidx(self.level(level as int), uk, ktag))
                };
                proof {
                    if level == 0 {
                        assert(self.l0_cands(uk).contains(r0[j as int]));
                        lemma_filter_subset(self.level(0), pred);
                        let w = choose|w: int|
                            0 <= w < self.l0_cands(uk).len() && self.l0_cands(uk)[w] == r0[
                                j as int
                            ];
                        assert(self.level(0).contains(self.l0_cands(uk)[w]));
                        self.level(0).lemma_filter_pred(pred, w);
                        assert(self.level(0)[ci] == fl[j as int]);
                        assert(l0_cand(self.level(0)[ci], uk));
                        assert(self.cand(cl, ci, uk, ktag));
                    } else {
                        lemma_fidx_props(self.level(level as int), uk, ktag);
                        assert(self.upper_cand(level as int, uk, ktag));
                        assert(fl[j as int] == self.level(level as int)[ci]);
                        assert(self.cand(cl, ci, uk, ktag));
                    }
                    assert(0 <= ci < self.level(cl).len());
                    assert(self.level(cl)[ci].num == fl[j as int].num);
                    assert(level_of(self.files@, cl)[ci] == self.level(cl)[ci]);
                    assert(self.table_cache.has(self.level(cl)[ci].num));
                    if was_first {
                        // The first file probed is the charged candidate:
                        // the newest level-0 candidate, or the single
                        // candidate of the shallowest level that has one.
                        if level == 0 {
                            assert(j == 0);
                            assert forall|i2: int|
                                0 <= i2 < self.level(0).len() && i2 != ci && l0_cand(
                                    #[trigger] self.level(0)[i2],
                                    uk,
                                ) implies self.level(0)[i2].num < self.level(0)[ci].num by {
                                self.level(0).lemma_filter_contains(pred, i2);
                                assert(self.l0_cands(uk).contains(self.level(0)[i2]));
                                let t = choose|t: int|
                                    0 <= t < r0.len() && r0[t] == self.level(0)[i2];
                                if t == 0 {
                                    assert(self.level(0)[i2] == self.level(0)[ci]);
                                    assert(self.level(0)[i2].num == self.level(0)[ci].num);
                                } else {
                                    assert(r0[0].num > r0[t].num);
                                }
                            }
                            assert(self.charged_at(cl, ci, uk, ktag));
                        } else {
                            assert(vseq(levels@[0]@).len() == 0);
                            assert(self.l0_cands(uk).len() == 0);
                            assert forall|l2: int| 1 <= l2 < cl implies !(
                            #[trigger] self.upper_cand(l2, uk, ktag)) by {
                                if self.upper_cand(l2, uk, ktag) {
                                    assert(vseq(levels@[l2]@).len() == 1);
                                    assert(vseq(levels@[l2]@).len() == 0);
                                }
                            }
                            assert(self.charged_at(cl, ci, uk, ktag));
                        }
                        first_cand = Some((cl, ci));
                    }
                }
                let probe = self.table_cache.get(f.num, ikey);
                let ghost es = self.table_cache.entries_of(f.num as u64);
                proof {
                    lemma_lb_key_agrees(es, key.ik());
                }
                match probe {
                    Ok(Some((k, v))) => {
                        let (_, _, entry_uk) = parse_internal_key(k.as_slice());
                        let eq = match cmp.cmp_inner(entry_uk, ukey) {
                            Ordering::Equal => true,
                            _ => false,
                        };
                        proof {
                            lemma_lex_eq(ikey_ukey(k@), uk);
                        }
                        if eq {
                            proof {
                                assert(self.match_in_file(f.num, uk, ktag));
                                assert(self.cand_match(cl, ci, uk, ktag));
                                assert(v@ == self.match_value(self.level(cl)[ci].num, uk, ktag));
                                assert forall|l2: int, i2: int| 0 <= l2 < cl implies !(
                                #[trigger] self.cand_match(l2, i2, uk, ktag)) by {
                                    self.lemma_probed_miss(levels@, l2, i2, uk, ktag);
                                }
                                if cl == 0 {
                                    assert forall|i2: int|
                                        self.cand_match(0, i2, uk, ktag) && i2 != ci implies (
                                    #[trigger] self.level(0)[i2]).num < self.level(0)[ci].num by {
                                        self.level(0).lemma_filter_contains(pred, i2);
                                        assert(self.l0_cands(uk).contains(self.level(0)[i2]));
                                        let t = choose|t: int|
                                            0 <= t < r0.len() && r0[t] == self.level(0)[i2];
                                        if t < j {
                                            assert(!self.match_in_file(r0[t].num, uk, ktag));
                                        } else if t == j {
                                            assert(self.level(0)[i2] == self.level(0)[ci]);
                                            assert(self.level(0)[i2].num == self.level(0)[ci].num);
                                            assert(i2 == ci || self.level(0)[i2].num != self.level(
                                                0,
                                            )[ci].num);
                                        } else {
                                            assert(r0[j as int].num > r0[t].num);
                                        }
                                    }
                                }
                            }
                            proof {
                                assert(self.cand_match(cl, ci, key.uk(), ikey_tag(key.ik())));
                                if stats.file is None {
                                    // No probe preceded this one: the match
                                    // came on the charged candidate itself.
                                    assert(was_first);
                                    assert(first_cand == Some((cl, ci)));
                                    assert(self.charged_at(cl, ci, key.uk(), ikey_tag(key.ik()))
                                        && self.cand_match(cl, ci, key.uk(), ikey_tag(key.ik())));
                                } else {
                                    let fc = first_cand->0;
                                    assert(self.charged_at(fc.0, fc.1, uk, ktag));
                                    assert(!self.match_in_file(
                                        self.level(fc.0)[fc.1].num,
                                        uk,
                                        ktag,
                                    ));
                                    assert(!self.cand_match(fc.0, fc.1, uk, ktag));
                                    assert(stats.file == Some(self.level(fc.0)[fc.1].num));
                                    assert(stats.level as int == fc.0);
                                    assert(self.charged_at(fc.0, fc.1, key.uk(), ikey_tag(
                                        key.ik(),
                                    )) && !self.cand_match(fc.0, fc.1, key.uk(), ikey_tag(
                                        key.ik(),
                                    )));
                                }
                            }
                            return Ok(Some((v, stats)));
                        }
                        proof {
                            assert(!self.match_in_file(f.num, uk, ktag));
                        }
                    },
                    _ => {
                        proof {
                            assert(!self.match_in_file(f.num, uk, ktag));
                        }
                    },
                }
                proof {
                    assert(!self.match_in_file(fl[j as int].num, uk, ktag));
                }
                j = j + 1;
            }
            proof {
                if last_read is None {
                    assert(vseq(levels@[level as int]@).len() == 0);
                }
            }
            level = level + 1;
        }
        proof {
            assert forall|l2: int, i2: int| !(#[trigger] self.cand_match(l2, i2, uk, ktag)) by {
                if 0 <= l2 < NUM_LEVELS {
                    self.lemma_probed_miss(levels@, l2, i2, uk, ktag);
                }
            }
        }
        Ok(None)
    }

    /// A matching candidate at a fully probed level contradicts the record
    /// that every probed file of that level missed.
    proof fn lemma_probed_miss(
        self,
        levels: Seq<Vec<FileMetaData>>,
        l2: int,
        i2: int,
        uk: Seq<u8>,
        ktag: nat,
    )
        requires
            self.levels_wf(),
            levels.len() == NUM_LEVELS,
            vseq(levels[0]@).len() == self.l0_cands(uk).len(),
            forall|t: int| 0 <= t < self.l0_cands(uk).len() ==> vseq(levels[0]@).contains(
                #[trigger] self.l0_cands(uk)[t],
            ),
            forall|l: int|
                #![trigger levels[l]]
                1 <= l < NUM_LEVELS ==> {
                    let fs = self.level(l);
                    let ix = fidx(fs, uk, ktag);
                    let rl = vseq(levels[l]@);
                    &&& (self.upper_cand(l, uk, ktag) ==> rl.len() == 1 && rl[0] == fs[ix])
                    &&& (!self.upper_cand(l, uk, ktag) ==> rl.len() == 0)
                },
            forall|t: int| 0 <= t < vseq(levels[l2]@).len() ==> !self.match_in_file(
                (#[trigger] vseq(levels[l2]@)[t]).num,
                uk,
                ktag,
            ),
        ensures
            !self.cand_match(l2, i2, uk, ktag),
    {
        if !self.cand_match(l2, i2, uk, ktag) {
            return;
        }
        if l2 == 0 {
            self.level(0).lemma_filter_contains(l0_pred(uk), i2);
            assert(self.l0_cands(uk).contains(self.level(0)[i2]));
            let w = choose|w: int|
                0 <= w < self.l0_cands(uk).len() && self.l0_cands(uk)[w] == self.level(0)[i2];
            let t = choose|t: int|
                0 <= t < vseq(levels[0]@).len() && vseq(levels[0]@)[t] == self.l0_cands(uk)[w];
            assert(!self.match_in_file(vseq(levels[0]@)[t].num, uk, ktag));
        } else {
            assert(self.upper_cand(l2, uk, ktag));
            assert(vseq(levels[l2]@)[0] == self.level(l2)[fidx(self.level(l2), uk, ktag)]);
            assert(!self.match_in_file(vseq(levels[l2]@)[0].num, uk, ktag));
        }
    }
}


impl Version {
    /// The file's table stores an entry carrying the queried user key at or
    /// below the queried sequence number.
    pub open spec fn visible_entry(self, num: u64, uk: Seq<u8>, sseq: nat) -> bool {
        &&& self.table_cache.has(num)
        &&& exists|k: int|
            0 <= k < self.table_cache.entries_of(num).len() && ikey_ukey(
                (#[trigger] self.table_cache.entries_of(num)[k]).key,
            ) == uk && ikey_seq(self.table_cache.entries_of(num)[k].key) <= sseq
    }

    /// Every entry of a snapshot file's table lies between the file's
    /// recorded endpoints, and the table is strictly sorted.
    proof fn lemma_entry_range(self, l: int, i: int)
        requires
            self.wf(),
            0 <= l < NUM_LEVELS,
            0 <= i < self.level(l).len(),
        ensures
            ({
                let f = self.level(l)[i];
                let es = self.table_cache.entries_of(f.num);
                &&& self.table_cache.has(f.num)
                &&& es.len() > 0
                &&& entries_sorted(es)
                &&& forall|k: int|
                    0 <= k < es.len() ==> icmp(f.smallest, (#[trigger] es[k]).key) <= 0 && icmp(
                        es[k].key,
                        f.largest,
                    ) <= 0 && entry_wf(es[k])
            }),
    {
        let f = self.level(l)[i];
        assert(level_of(self.files@, l)[i] == f);
        let es = self.table_cache.entries_of(f.num);
        let ts = self.table_cache.tables_v();
        lemma_table_idx_props(ts, f.num);
        assert(ts[table_idx(ts, f.num)].wf());
        assert(entries_sorted(es));
        assert forall|k: int| 0 <= k < es.len() implies icmp(
            f.smallest,
            (#[trigger] es[k]).key,
        ) <= 0 && icmp(es[k].key, f.largest) <= 0 && entry_wf(es[k]) by {
            lemma_lex_eq(ikey_ukey(es[k].key), ikey_ukey(es[k].key));
            if k > 0 {
                assert(icmp(es[0].key, es[k].key) < 0);
            }
            if k < es.len() - 1 {
                assert(icmp(es[k].key, es[es.len() - 1].key) < 0);
            }
            assert(es[es.len() - 1] == es.last());
        }
    }

    /// A point lookup finds a value exactly when some file's user-key
    /// interval contains the queried user key and that file stores an entry
    /// with that user key at or below the queried sequence number.
    pub proof fn lemma_get_found_iff(self, uk: Seq<u8>, sseq: nat)
        requires
            self.wf(),
            sseq <= MAX_SEQUENCE_NUMBER,
        ensures
            (exists|l: int, i: int|
                self.cand_match(l, i, uk, probe_tag(sseq))) <==> (exists|l: int, i: int|
                #![trigger self.level(l)[i]]
                {
                    &&& 0 <= l < NUM_LEVELS
                    &&& 0 <= i < self.level(l).len()
                    &&& l0_cand(self.level(l)[i], uk)
                    &&& self.visible_entry(self.level(l)[i].num, uk, sseq)
                }),
    {
        let tag = probe_tag(sseq);
        if exists|l: int, i: int| self.cand_match(l, i, uk, tag) {
            let (l, i): (int, int) = choose|l: int, i: int| self.cand_match(l, i, uk, tag);
            if l != 0 {
                lemma_fidx_props(self.level(l), uk, tag);
            }
            self.lemma_entry_range(l, i);
            let f = self.level(l)[i];
            let es = self.table_cache.entries_of(f.num);
            let lb = lb_key(es, uk, tag);
            lemma_lb_key_props(es, uk, tag);
            lemma_lex_eq(ikey_ukey(es[lb].key), uk);
            assert(icmp_key(es[lb].key, uk, tag) >= 0);
            assert(ikey_tag(es[lb].key) <= tag);
            assert(ikey_seq(es[lb].key) == ikey_tag(es[lb].key) / 256);
            assert(ikey_tag(es[lb].key) / 256 <= (256 * sseq + 1) / 256) by (nonlinear_arith)
                requires
                    ikey_tag(es[lb].key) <= 256 * sseq + 1,
            ;
            assert((256 * sseq + 1) / 256 == sseq) by (nonlinear_arith);
            if l != 0 {
                lemma_icmp_le_ukey(es[lb].key, f.largest);
                lemma_lex_antisym(ikey_ukey(es[lb].key), ikey_ukey(f.largest));
                assert(lex_cmp(uk, ikey_ukey(f.largest)) <= 0);
                assert(l0_cand(f, uk));
            }
            assert(0 <= l < NUM_LEVELS && 0 <= i < self.level(l).len() && l0_cand(
                self.level(l)[i],
                uk,
            ) && self.visible_entry(self.level(l)[i].num, uk, sseq));
        }
        if exists|l: int, i: int|
            #![trigger self.level(l)[i]]
            {
                &&& 0 <= l < NUM_LEVELS
                &&& 0 <= i < self.level(l).len()
                &&& l0_cand(self.level(l)[i], uk)
                &&& self.visible_entry(self.level(l)[i].num, uk, sseq)
            } {
            let (l, i): (int, int) = choose|l: int, i: int|
                #![trigger self.level(l)[i]]
                {
                    &&& 0 <= l < NUM_LEVELS
                    &&& 0 <= i < self.level(l).len()
                    &&& l0_cand(self.level(l)[i], uk)
                    &&& self.visible_entry(self.level(l)[i].num, uk, sseq)
                };
            self.lemma_entry_range(l, i);
            let f = self.level(l)[i];
            let es = self.table_cache.entries_of(f.num);
            let k = choose|k: int|
                0 <= k < es.len() && ikey_ukey((#[trigger] es[k]).key) == uk && ikey_seq(
                    es[k].key,
                ) <= sseq;
            // The witness entry is at or above the probe key.
            assert(ikey_typ(es[k].key) <= 1);
            assert(ikey_tag(es[k].key) == 256 * ikey_seq(es[k].key) + ikey_typ(es[k].key))
                by (nonlinear_arith)
                requires
                    ikey_seq(es[k].key) == ikey_tag(es[k].key) / 256,
                    ikey_typ(es[k].key) == ikey_tag(es[k].key) % 256,
            ;
            assert(ikey_tag(es[k].key) <= 256 * sseq + 1) by (nonlinear_arith)
                requires
                    ikey_tag(es[k].key) == 256 * ikey_seq(es[k].key) + ikey_typ(es[k].key),
                    ikey_seq(es[k].key) <= sseq,
                    ikey_typ(es[k].key) <= 1,
            ;
            lemma_lex_eq(ikey_ukey(es[k].key), uk);
            assert(icmp_key(es[k].key, uk, tag) >= 0);
            // The lower bound lands on an entry with the queried user key.
            let lb = lb_key(es, uk, tag);
            lemma_lb_key_props(es, uk, tag);
            if k < lb {
                assert(icmp_key(es[k].key, uk, tag) < 0);
            }
            assert(lb <= k && lb < es.len());
            if lb < k {
                assert(icmp(es[lb].key, es[k].key) < 0);
                lemma_icmp_le_ukey(es[lb].key, es[k].key);
            }
            assert(lex_cmp(ikey_ukey(es[lb].key), uk) <= 0);
            assert(icmp_key(es[lb].key, uk, tag) >= 0);
            lemma_lex_range(ikey_ukey(es[lb].key), uk);
            assert(lex_cmp(ikey_ukey(es[lb].key), uk) == 0);
            lemma_lex_eq(ikey_ukey(es[lb].key), uk);
            assert(self.match_in_file(f.num, uk, tag));
            if l == 0 {
                assert(self.cand_match(0, i, uk, tag));
            } else {
                // The probe lands exactly on this file.
                lemma_fidx_props(self.level(l), uk, tag);
                lemma_icmp_key_trans(es[k].key, f.largest, uk, tag);
                assert(icmp_key(f.largest, uk, tag) >= 0);
                assert forall|j: int| 0 <= j < i implies icmp_key(
                    (#[trigger] self.level(l)[j]).largest,
                    uk,
                    tag,
                ) < 0 by {
                    assert(lex_cmp(
                        ikey_ukey(self.level(l)[j].largest),
                        ikey_ukey(f.smallest),
                    ) < 0);
                    lemma_lex_antisym(uk, ikey_ukey(f.smallest));
                    lemma_lex_trans_mixed(
                        ikey_ukey(self.level(l)[j].largest),
                        ikey_ukey(f.smallest),
                        uk,
                    );
                }
                let ix = fidx(self.level(l), uk, tag);
                if ix < i {
                    assert(icmp_key(self.level(l)[ix].largest, uk, tag) < 0);
                }
                if i < ix {
                    assert(icmp_key(self.level(l)[i].largest, uk, tag) < 0);
                }
                assert(ix == i);
                assert(self.upper_cand(l, uk, tag));
                assert(self.cand_match(l, i, uk, tag));
            }
        }
    }
}


/// Coherence of a plain file list with a cache: every file is present as a
/// non-empty sorted run whose first and last keys are its endpoints.
pub open spec fn list_coherent(cache: TableCache, fs: Seq<FileMetaV>) -> bool {
    &&& cache.wf()
    &&& forall|i: int|
        #![trigger fs[i]]
        0 <= i < fs.len() ==> {
            let f = fs[i];
            &&& cache.has(f.num)
            &&& cache.entries_of(f.num).len() > 0
            &&& cache.entries_of(f.num)[0].key == f.smallest
            &&& cache.entries_of(f.num).last().key == f.largest
        }
}

/// Seeking a sorted non-empty run to its own last key lands on that key.
proof fn lemma_seek_last(es: Seq<EntryV>)
    requires
        entries_sorted(es),
        es.len() > 0,
    ensures
        lower_bound(es, es[es.len() - 1].key) == es.len() - 1,
{
    let lk = es[es.len() - 1].key;
    lemma_lower_bound_props(es, lk);
    lemma_lex_eq(ikey_ukey(lk), ikey_ukey(lk));
    assert(icmp(es[es.len() - 1].key, lk) == 0);
    let lb = lower_bound(es, lk);
    if lb < es.len() - 1 {
        assert(icmp(es[lb].key, es[es.len() - 1].key) < 0);
        assert(icmp(es[lb].key, lk) >= 0);
    }
    if lb == es.len() {
        assert(icmp(es[es.len() - 1].key, lk) < 0);
    }
}

/// Iterates over the files of one disjoint ordered level as one run: the
/// concatenation of the per-file tables, opened lazily.
pub struct VersionIter {
    files: Vec<FileMetaData>,
    cache: TableCache,
    cmp: InternalKeyCmp,
    current: TableIterator,
    has_current: bool,
    current_ix: usize,
}

impl VersionIter {
    /// The level's files, in order.
    pub closed spec fn files_v(self) -> Seq<FileMetaV> {
        vseq(self.files@)
    }

    /// The cache the tables are read from.
    pub closed spec fn cache_v(self) -> TableCache {
        self.cache
    }

    /// Whether a file's table is currently open.
    pub closed spec fn opened(self) -> bool {
        self.has_current
    }

    /// Index of the file whose table is open.
    pub closed spec fn ix(self) -> int {
        self.current_ix as int
    }

    /// The open table iterator.
    pub closed spec fn inner(self) -> TableIterator {
        self.current
    }

    /// The entries of the file at index `i`.
    pub open spec fn entries_at(self, i: int) -> Seq<EntryV> {
        self.cache_v().entries_of(self.files_v()[i].num)
    }

    /// Iterator invariant: well-formed disjoint ordered files, a coherent
    /// cache, and a cursor resting inside the open table.
    pub closed spec fn wf(self) -> bool {
        &&& forall|i: int| 0 <= i < self.files_v().len() ==> (#[trigger] self.files_v()[i]).wf()
        &&& disjoint_ordered(self.files_v())
        &&& list_coherent(self.cache, self.files_v())
        &&& self.current_ix <= self.files_v().len()
        &&& (self.has_current ==> self.current_ix < self.files_v().len() && self.current.wf()
            && self.current.started_at() && self.current.entries() == self.cache.entries_of(
            self.files_v()[self.current_ix as int].num,
        ))
        &&& (!self.has_current ==> self.current_ix == 0)
    }

    /// Moves to the next entry, opening the next file's table when the
    /// current one is exhausted; reports whether an entry is available.
    pub fn advance(&mut self) -> (r: bool)
        requires
            old(self).wf(),
            old(self).files_v().len() > 0,
        ensures
            final(self).wf(),
            final(self).files_v() == old(self).files_v(),
            final(self).cache_v() == old(self).cache_v(),
            !old(self).opened() ==> final(self).opened() && final(self).ix() == 0
                && final(self).inner().cursor() == 0 && r == true,
            old(self).opened() ==> ({
                let t = old(self).inner();
                let ne = t.entries().len();
                &&& (t.cursor() + 1 < ne ==> final(self).opened() && final(self).ix() == old(self).ix()
                    && final(self).inner().cursor() == t.cursor() + 1 && r == true)
                &&& (t.cursor() + 1 >= ne && old(self).ix() + 1 < old(self).files_v().len()
                    ==> final(self).opened() && final(self).ix() == old(self).ix() + 1
                        && final(self).inner().cursor() == 0 && r == true)
                &&& (t.cursor() + 1 >= ne && old(self).ix() + 1 >= old(self).files_v().len()
                    ==> final(self).opened() && final(self).ix() == old(self).ix()
                        && final(self).inner().cursor() == ne && r == false)
            }),
            r == (final(self).opened() && final(self).inner().at()),
    {
        let n = self.files.len();
        if self.has_current {
            if self.current.advance() {
                proof {
                    assert(self.inner().cursor() == old(self).inner().cursor() + 1);
                }
                return true;
            }
            if self.current_ix + 1 >= n {
                proof {
                    assert(self.inner().cursor() == old(self).inner().entries().len());
                }
                return false;
            }
            self.current_ix = self.current_ix + 1;
        }
        proof {
            assert(self.files_v()[self.current_ix as int] == self.files@[self.current_ix as int]@);
        }
        match self.cache.get_table(self.files[self.current_ix].num) {
            Ok(tbl) => {
                proof {
                    lemma_cached_run_wf(self.cache, self.files_v()[self.current_ix as int].num);
                }
                let mut it = TableIterator::new(tbl);
                let r = it.advance();
                self.current = it;
                self.has_current = true;
                r
            },
            Err(_) => {
                // Unreachable under the invariant: every file of the level
                // is held by the cache.
                proof {
                    assert(false);
                }
                self.has_current = false;
                self.current_ix = 0;
                false
            },
        }
    }

    /// Fills the buffers with the current entry, when there is one.
    pub fn current(&self, key: &mut Vec<u8>, val: &mut Vec<u8>) -> (r: bool)
        requires
            self.wf(),
        ensures
            r == (self.opened() && self.inner().at()),
            r ==> final(key)@ == self.entries_at(self.ix())[self.inner().cursor()].key
                && final(val)@ == self.entries_at(self.ix())[self.inner().cursor()].value,
            !r ==> final(key)@ == old(key)@ && final(val)@ == old(val)@,
    {
        if self.has_current {
            self.current.current(key, val)
        } else {
            false
        }
    }

    /// Positions at the least entry of the level at or above the internal
    /// key; when the responsible file's table ends below the key, the
    /// iterator resets instead.
    pub fn seek(&mut self, key: &[u8])
        requires
            old(self).wf(),
        ensures
            final(self).wf(),
            final(self).files_v() == old(self).files_v(),
            final(self).cache_v() == old(self).cache_v(),
            ({
                let ix = fidx(old(self).files_v(), ikey_ukey(key@), ikey_tag(key@));
                &&& (ix < old(self).files_v().len() ==> {
                    let lb = lower_bound(old(self).entries_at(ix), key@);
                    &&& (lb < old(self).entries_at(ix).len() ==> final(self).opened()
                        && final(self).ix() == ix && final(self).inner().cursor() == lb)
                    &&& (lb >= old(self).entries_at(ix).len() ==> !final(self).opened()
                        && final(self).ix() == 0)
                })
                &&& (ix >= old(self).files_v().len() ==> !final(self).opened() && final(self).ix()
                    == 0)
            }),
    {
        proof {
            lemma_disjoint_sorted_by_largest(self.files_v());
            lemma_fidx_props(self.files_v(), ikey_ukey(key@), ikey_tag(key@));
        }
        let ix = find_file(&self.cmp, self.files.as_slice(), key);
        if ix >= self.files.len() {
            // The key lies past every file's largest key: the iterator
            // simply becomes invalid.
            self.reset();
            return;
        }
        proof {
            assert(self.files_v()[ix as int] == self.files@[ix as int]@);
        }
        match self.cache.get_table(self.files[ix].num) {
            Ok(tbl) => {
                proof {
                    lemma_cached_run_wf(self.cache, self.files_v()[ix as int].num);
                }
                let mut it = TableIterator::new(tbl);
                it.seek(key);
                if it.valid() {
                    self.current_ix = ix;
                    self.current = it;
                    self.has_current = true;
                    return;
                }
            },
            Err(_) => {
                // Unreachable under the invariant: every file of the level
                // is held by the cache.
                proof {
                    assert(false);
                }
            },
        }
        self.reset();
    }

    /// Returns to the unpositioned state.
    pub fn reset(&mut self)
        ensures
            final(self).files_v() == old(self).files_v(),
            final(self).cache_v() == old(self).cache_v(),
            !final(self).opened(),
            final(self).ix() == 0,
            old(self).wf() ==> final(self).wf(),
    {
        self.has_current = false;
        self.current_ix = 0;
    }

    /// Whether the iterator rests on an entry.
    pub fn valid(&self) -> (r: bool)
        requires
            self.wf(),
        ensures
            r == (self.opened() && self.inner().at()),
    {
        if self.has_current {
            self.current.valid()
        } else {
            false
        }
    }

    /// Steps one entry back, reopening the previous file's table at its
    /// last entry when the cursor leaves the current one.
    pub fn prev(&mut self) -> (r: bool)
        requires
            old(self).wf(),
        ensures
            final(self).wf(),
            final(self).files_v() == old(self).files_v(),
            final(self).cache_v() == old(self).cache_v(),
            !old(self).opened() ==> !final(self).opened() && final(self).ix() == 0 && r == false,
            old(self).opened() && old(self).inner().cursor() > 0 ==> final(self).opened()
                && final(self).ix() == old(self).ix()
                && final(self).inner().cursor() == old(self).inner().cursor() - 1 && r == true,
            old(self).opened() && old(self).inner().cursor() == 0 && old(self).ix() > 0
                ==> final(self).opened() && final(self).ix() == old(self).ix() - 1
                    && final(self).inner().cursor() == old(self).entries_at(old(self).ix() - 1).len()
                    - 1 && r == true,
            old(self).opened() && old(self).inner().cursor() == 0 && old(self).ix() == 0
                ==> !final(self).opened() && final(self).ix() == 0 && r == false,
    {
        if !self.has_current {
            self.reset();
            return false;
        }
        if self.current.prev() {
            return true;
        }
        if self.current_ix > 0 {
            let pix = self.current_ix - 1;
            proof {
                assert(self.files_v()[pix as int] == self.files@[pix as int]@);
            }
            match self.cache.get_table(self.files[pix].num) {
                Ok(tbl) => {
                    proof {
                        lemma_cached_run_wf(self.cache, self.files_v()[pix as int].num);
                    }
                    let mut it = TableIterator::new(tbl);
                    it.seek(self.files[pix].largest.as_slice());
                    proof {
                        let es = self.cache.entries_of(self.files_v()[pix as int].num);
                        assert(es[es.len() - 1] == es.last());
                        lemma_seek_last(es);
                    }
                    self.current_ix = pix;
                    self.current = it;
                    self.has_current = true;
                    return true;
                },
                Err(_) => {
                    // Unreachable under the invariant: every file of the
                    // level is held by the cache.
                    proof {
                        assert(false);
                    }
                },
            }
        }
        self.reset();
        false
    }
}

/// Within one concat iterator, an earlier position always holds a strictly
/// smaller internal key: within one file by table order, across files by
/// the level's disjoint ordering.
pub proof fn lemma_version_iter_order(vi: VersionIter, i1: int, p1: int, i2: int, p2: int)
    requires
        vi.wf(),
        0 <= i1 <= i2 < vi.files_v().len(),
        0 <= p1 < vi.entries_at(i1).len(),
        0 <= p2 < vi.entries_at(i2).len(),
        i1 < i2 || p1 < p2,
    ensures
        icmp(vi.entries_at(i1)[p1].key, vi.entries_at(i2)[p2].key) < 0,
{
    let cache = vi.cache_v();
    let fs = vi.files_v();
    let f1 = fs[i1];
    let f2 = fs[i2];
    let es1 = cache.entries_of(f1.num);
    let es2 = cache.entries_of(f2.num);
    lemma_table_idx_props(cache.tables_v(), f1.num);
    lemma_table_idx_props(cache.tables_v(), f2.num);
    assert(cache.tables_v()[table_idx(cache.tables_v(), f1.num)].wf());
    assert(cache.tables_v()[table_idx(cache.tables_v(), f2.num)].wf());
    if i1 == i2 {
        assert(icmp(es1[p1].key, es1[p2].key) < 0);
    } else {
        // es1[p1] <= f1.largest < f2.smallest <= es2[p2] in internal order.
        lemma_lex_eq(ikey_ukey(es1[p1].key), ikey_ukey(es1[p1].key));
        if p1 < es1.len() - 1 {
            assert(icmp(es1[p1].key, es1[es1.len() - 1].key) < 0);
        }
        assert(es1[es1.len() - 1] == es1.last());
        assert(icmp(es1[p1].key, f1.largest) <= 0);
        lemma_ukey_lt_icmp(f1.largest, f2.smallest);
        if p2 > 0 {
            assert(icmp(es2[0].key, es2[p2].key) < 0);
        }
        assert(es2[0].key == f2.smallest);
        lemma_lex_eq(ikey_ukey(f2.smallest), ikey_ukey(f2.smallest));
        assert(icmp(f2.smallest, es2[p2].key) <= 0);
        lemma_icmp_trans(es1[p1].key, f1.largest, f2.smallest);
        lemma_icmp_trans(es1[p1].key, f2.smallest, es2[p2].key);
    }
}

/// One input of a merged scan: a single level-0 table, or a whole level
/// walked by a concat iterator.
pub enum MergeSource {
    /// A level-0 file's table iterator.
    Table(TableIterator),
    /// A concat iterator over one level above 0.
    Level(VersionIter),
}

impl Version {
    /// A concat iterator over the files of one level. Meaningful for levels
    /// above 0, whose files are disjoint and ordered.
    #[verifier::loop_isolation(false)]
    pub fn new_concat_iter(&self, level: usize) -> (r: VersionIter)
        requires
            self.levels_wf(),
            level < NUM_LEVELS,
        ensures
            r.files_v() == self.level(level as int),
            !r.opened(),
            r.ix() == 0,
            forall|i: int|
                0 <= i < r.files_v().len() && self.table_cache.has(r.files_v()[i].num)
                    ==> #[trigger] r.entries_at(i) == self.table_cache.entries_of(
                    r.files_v()[i].num,
                ),
            self.wf() && 1 <= level ==> r.wf(),
    {
        let mut files: Vec<FileMetaData> = Vec::new();
        let src = &self.files[level];
        let mut i: usize = 0;
        while i < src.len()
            invariant
                i <= src@.len(),
                src@ == self.files@[level as int]@,
                vseq(files@) =~= self.level(level as int).take(i as int),
            decreases src@.len() - i,
        {
            let d = src[i].duplicate();
            files.push(d);
            proof {
                assert(files@[i as int]@ == self.files@[level as int]@[i as int]@);
                assert(vseq(files@) =~= self.level(level as int).take(i + 1));
            }
            i = i + 1;
        }
        proof {
            assert(vseq(files@) =~= self.level(level as int));
        }
        let cache = self.table_cache.duplicate();
        let dummy = TableIterator::new(Table::new(0, Vec::new()));
        let r = VersionIter {
            files,
            cache,
            cmp: InternalKeyCmp,
            current: dummy,
            has_current: false,
            current_ix: 0,
        };
        proof {
            if self.wf() && 1 <= level {
                assert forall|i2: int|
                    #![trigger r.files_v()[i2]]
                    0 <= i2 < r.files_v().len() implies {
                    let f = r.files_v()[i2];
                    &&& r.cache.has(f.num)
                    &&& r.cache.entries_of(f.num).len() > 0
                    &&& r.cache.entries_of(f.num)[0].key == f.smallest
                    &&& r.cache.entries_of(f.num).last().key == f.largest
                } by {
                    assert(level_of(self.files@, level as int)[i2] == r.files_v()[i2]);
                    assert(self.table_cache.has(r.files_v()[i2].num));
                }
            }
            assert forall|i2: int|
                0 <= i2 < r.files_v().len() && self.table_cache.has(
                    r.files_v()[i2].num,
                ) implies #[trigger] r.entries_at(i2) == self.table_cache.entries_of(
                r.files_v()[i2].num,
            ) by {
                assert(r.cache.entries_of(r.files_v()[i2].num) == self.table_cache.entries_of(
                    r.files_v()[i2].num,
                ));
            }
        }
        r
    }

    /// Number of non-empty levels among the levels from 1 up to `l`.
    pub open spec fn nonempty_upto(self, l: int) -> nat
        decreases l,
    {
        if l <= 1 {
            0
        } else {
            self.nonempty_upto(l - 1) + (if self.level(l - 1).len() > 0 {
                1nat
            } else {
                0nat
            })
        }
    }

    /// Counting the non-empty levels below a bound is monotone in the
    /// bound, strictly so across a non-empty level.
    pub proof fn lemma_nonempty_upto_mono(self, a: int, b: int)
        requires
            1 <= a <= b,
        ensures
            self.nonempty_upto(a) <= self.nonempty_upto(b),
            a < b && self.level(a).len() > 0 ==> self.nonempty_upto(a) < self.nonempty_upto(b),
        decreases b,
    {
        if a < b {
            self.lemma_nonempty_upto_mono(a, b - 1);
        }
    }

    /// The iterator set of a merged scan over the whole snapshot: one table
    /// iterator per level-0 file in stored order, then one concat iterator
    /// per non-empty level above 0, in ascending level order.
    #[verifier::loop_isolation(false)]
    pub fn new_iters(&self) -> (r: Result<Vec<MergeSource>, Status>)
        requires
            self.wf(),
            self.files@[0]@.len() + NUM_LEVELS <= usize::MAX,
        ensures
            r is Ok,
            (r matches Ok(v) ==> {
                &&& v@.len() == self.level(0).len() + self.nonempty_upto(NUM_LEVELS as int)
                &&& forall|i: int|
                    0 <= i < self.level(0).len() ==> ((#[trigger] v@[i]) matches MergeSource::Table(t)
                        && !t.started_at() && t.cursor() == 0 && t.wf() && t.entries()
                        == self.table_cache.entries_of(self.level(0)[i].num))
                &&& forall|k: int|
                    self.level(0).len() <= k < v@.len() ==> ((#[trigger] v@[k]) matches MergeSource::Level(vi)
                        && !vi.opened() && vi.wf() && vi.files_v().len() > 0 && (exists|l: int|
                        1 <= l < NUM_LEVELS && vi.files_v() == #[trigger] self.level(l)))
                &&& forall|l: int|
                    #![trigger self.nonempty_upto(l)]
                    1 <= l < NUM_LEVELS && self.level(l).len() > 0 ==> (v@[self.level(0).len()
                        + self.nonempty_upto(l) as int] matches MergeSource::Level(vi)
                        && vi.files_v() == self.level(l) && !vi.opened() && vi.wf())
            }),
    {
        let mut iters: Vec<MergeSource> = Vec::new();
        let n0 = self.files[0].len();
        let mut i: usize = 0;
        while i < n0
            invariant
                i <= n0,
                iters@.len() == i,
                forall|j: int|
                    0 <= j < i ==> ((#[trigger] iters@[j]) matches MergeSource::Table(t)
                        && !t.started_at() && t.cursor() == 0 && t.wf() && t.entries()
                        == self.table_cache.entries_of(self.level(0)[j].num)),
            decreases n0 - i,
        {
            proof {
                assert(self.level(0)[i as int] == self.files@[0]@[i as int]@);
                assert(level_of(self.files@, 0)[i as int] == self.level(0)[i as int]);
            }
            match self.table_cache.get_table(self.files[0][i].num) {
                Ok(tbl) => {
                    proof {
                        lemma_cached_run_wf(self.table_cache, self.level(0)[i as int].num);
                    }
                    let it = TableIterator::new(tbl);
                    iters.push(MergeSource::Table(it));
                },
                Err(e) => {
                    // Unreachable under the invariant: every level-0 file
                    // is held by the cache.
                    proof {
                        assert(false);
                    }
                    return Err(e);
                },
            }
            i = i + 1;
        }
        let mut l: usize = 1;
        while l < NUM_LEVELS
            invariant
                1 <= l <= NUM_LEVELS,
                iters@.len() == n0 + self.nonempty_upto(l as int),
                forall|j: int|
                    0 <= j < n0 ==> ((#[trigger] iters@[j]) matches MergeSource::Table(t)
                        && !t.started_at() && t.cursor() == 0 && t.wf() && t.entries()
                        == self.table_cache.entries_of(self.level(0)[j].num)),
                forall|k: int|
                    n0 <= k < iters@.len() ==> ((#[trigger] iters@[k]) matches MergeSource::Level(vi)
                        && !vi.opened() && vi.wf() && vi.files_v().len() > 0 && (exists|l2: int|
                        1 <= l2 < NUM_LEVELS && vi.files_v() == #[trigger] self.level(l2))),
                forall|l2: int|
                    #![trigger self.nonempty_upto(l2)]
                    1 <= l2 < l && self.level(l2).len() > 0 ==> (iters@[n0 as int
                        + self.nonempty_upto(l2)] matches MergeSource::Level(vi) && vi.files_v()
                        == self.level(l2)
                        && !vi.opened() && vi.wf()),
            decreases NUM_LEVELS - l,
        {
            let ghost prev_iters = iters@;
            if !self.files[l].is_empty() {
                let vi = self.new_concat_iter(l);
                iters.push(MergeSource::Level(vi));
            }
            proof {
                assert forall|l2: int|
                    #![trigger self.nonempty_upto(l2)]
                    1 <= l2 < l + 1 && self.level(l2).len() > 0 implies (iters@[n0 as int
                        + self.nonempty_upto(l2)] matches MergeSource::Level(vi) && vi.files_v()
                        == self.level(l2) && !vi.opened() && vi.wf()) by {
                    if l2 < l {
                        self.lemma_nonempty_upto_mono(l2 + 1, l as int);
                        assert(n0 + self.nonempty_upto(l2) < prev_iters.len());
                        assert(iters@[n0 as int + self.nonempty_upto(l2)] == prev_iters[n0 as int
                            + self.nonempty_upto(l2)]);
                    } else {
                        assert(iters@[prev_iters.len() as int] == iters@[iters@.len() - 1]);
                    }
                }
            }
            l = l + 1;
        }
        Ok(iters)
    }
}

} // verus!
