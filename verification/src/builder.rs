//! The item-table builder: orders pack inputs for locality, deduplicates
//! them by (length, digest), and assigns stable item ids.

use vstd::prelude::*;
use vstd::multiset::Multiset;
use crate::codec::sha1_of;
use crate::codec::sha1_digest;
use crate::file_format::ArchiveError;
use crate::file_format::Item;
use crate::file_format::ITEM_FLAG_DIR;
use crate::file_format::MAX_ITEMS;
use crate::packager::PackItem;
use crate::text::lower_of;
use crate::text::lower_str;
use crate::text::utf16_of;
use crate::text::encode_utf16_units;

verus! {

/// One logical (source, destination) pair resolved to an item id; id 0
/// means "this path is a directory".
pub struct Entry {
    /// Where the bytes came from.
    pub src: String,
    /// The destination path stored in the path index.
    pub dst: String,
    /// Index of the content item this path references.
    pub item_index: usize,
}

impl Entry {
    /// Whether this entry is a directory entry.
    pub fn is_dir(&self) -> (r: bool)
        ensures
            r == (self.item_index == 0),
    {
        self.item_index == 0
    }
}

/// The digest of no bytes, used for the directory sentinel.
pub fn empty_sha1() -> (r: Vec<u8>)
    ensures
        r@ == sha1_of(Seq::empty()),
        r@.len() == 20,
{
    let empty: Vec<u8> = Vec::new();
    let d = sha1_digest(empty.as_slice());
    proof {
        assert(empty@ =~= Seq::<u8>::empty());
    }
    d
}

/// Computes the dedup key of a content blob: its length and digest.
pub fn content_scan(bytes: &Vec<u8>) -> (r: (usize, Vec<u8>))
    ensures
        r.0 == bytes@.len(),
        r.1@ == sha1_of(bytes@),
        r.1@.len() == 20,
{
    let d = sha1_digest(bytes.as_slice());
    (bytes.len(), d)
}

/// Whether an item carries exactly this dedup key.
pub open spec fn item_matches(it: Item, length: int, digest: Seq<u8>) -> bool {
    it.length == length && it.digest@ == digest
}

/// Compares two byte vectors for equality.
pub fn bytes_eq(a: &Vec<u8>, b: &Vec<u8>) -> (r: bool)
    ensures
        r == (a@ == b@),
{
    if a.len() != b.len() {
        proof {
            assert(a@ != b@);
        }
        return false;
    }
    let mut i: usize = 0;
    while i < a.len()
        invariant
            i <= a@.len(),
            a@.len() == b@.len(),
            forall|t: int| 0 <= t < i ==> a@[t] == b@[t],
        decreases a@.len() - i,
    {
        if a[i] != b[i] {
            return false;
        }
        i += 1;
    }
    proof {
        assert(a@ =~= b@);
    }
    true
}

/// Finds the first existing item, the directory sentinel excluded, that
/// carries the given dedup key.
#[verifier::loop_isolation(false)]
pub fn find_item(items: &Vec<Item>, length: usize, digest: &Vec<u8>) -> (r: Option<usize>)
    ensures
        match r {
            Some(idx) => 1 <= idx < items@.len() && item_matches(
                items@[idx as int],
                length as int,
                digest@,
            ) && forall|t: int|
                1 <= t < idx ==> !item_matches(#[trigger] items@[t], length as int, digest@),
            None => forall|t: int|
                1 <= t < items@.len() ==> !item_matches(
                    #[trigger] items@[t],
                    length as int,
                    digest@,
                ),
        },
{
    let mut idx: usize = 1;
    while idx < items.len()
        invariant
            1 <= idx,
            forall|t: int| 1 <= t < idx ==> !item_matches(#[trigger] items@[t], length as int, digest@),
        decreases items@.len() - idx,
    {
        let it = &items[idx];
        if it.length == length && bytes_eq(&it.digest, digest) {
            return Some(idx);
        }
        idx += 1;
    }
    None
}

// ---------------------------------------------------------------------------
// The solid-mode ordering key
// ---------------------------------------------------------------------------

/// Last position of a unit in a sequence, or -1.
pub open spec fn last_index_of(s: Seq<u16>, c: u16) -> int
    decreases s.len(),
{
    if s.len() == 0 {
        -1
    } else if s[s.len() - 1] == c {
        s.len() - 1
    } else {
        last_index_of(s.drop_last(), c)
    }
}

/// The ghost form of a sort key.
#[verifier::ext_equal]
pub ghost struct SortKeyV {
    /// -1 for executable-like extensions, 0 otherwise.
    pub prio: int,
    /// The extension after the last dot, or `zzz` when there is none.
    pub suffix: Seq<u16>,
    /// The file name after the last slash.
    pub fname: Seq<u16>,
    /// The whole lower-cased path.
    pub full: Seq<u16>,
}

/// Whether a suffix names an executable-like file kind.
pub open spec fn is_exec_suffix(s: Seq<u16>) -> bool {
    ||| s == seq![101u16, 120u16, 101u16]
    ||| s == seq![100u16, 108u16, 108u16]
    ||| s == seq![111u16, 99u16, 120u16]
    ||| s == seq![115u16, 121u16, 115u16]
}

/// The ordering key of a lower-cased source path.
pub open spec fn spec_sort_key(units: Seq<u16>) -> SortKeyV {
    let dot = last_index_of(units, 46);
    let slash = last_index_of(units, 47);
    let fname = units.skip(slash + 1);
    if dot >= 0 {
        let suffix = units.skip(dot + 1);
        SortKeyV {
            prio: if is_exec_suffix(suffix) {
                -1
            } else {
                0
            },
            suffix,
            fname,
            full: units,
        }
    } else {
        SortKeyV { prio: 0, suffix: seq![122u16, 122u16, 122u16], fname, full: units }
    }
}

/// The ordering key of a pack pair: computed from its lower-cased source.
pub open spec fn pair_key(p: (PackItem, Vec<u8>)) -> SortKeyV {
    spec_sort_key(utf16_of(lower_of(p.0.src@)))
}

/// The executable sort key.
pub struct SortKey {
    /// -1 for executable-like extensions, 0 otherwise.
    pub prio: i32,
    /// The extension after the last dot, or `zzz` when there is none.
    pub suffix: Vec<u16>,
    /// The file name after the last slash.
    pub fname: Vec<u16>,
    /// The whole lower-cased path.
    pub full: Vec<u16>,
}

impl SortKey {
    /// The ghost form of this key.
    pub open spec fn view_key(&self) -> SortKeyV {
        SortKeyV {
            prio: self.prio as int,
            suffix: self.suffix@,
            fname: self.fname@,
            full: self.full@,
        }
    }
}

/// Finds the last position of a unit.
#[verifier::loop_isolation(false)]
pub fn rfind_unit(v: &Vec<u16>, c: u16) -> (r: Option<usize>)
    ensures
        match r {
            Some(i) => i < v@.len() && i as int == last_index_of(v@, c),
            None => last_index_of(v@, c) == -1,
        },
{
    let mut i: usize = v.len();
    proof {
        assert(v@.take(v@.len() as int) =~= v@);
    }
    while i > 0
        invariant
            i <= v@.len(),
            last_index_of(v@, c) == last_index_of(v@.take(i as int), c),
        decreases i,
    {
        proof {
            assert(v@.take(i as int).drop_last() =~= v@.take(i as int - 1));
            assert(v@.take(i as int)[i - 1] == v@[i - 1]);
        }
        if v[i - 1] == c {
            return Some(i - 1);
        }
        i -= 1;
    }
    proof {
        assert(v@.take(0) =~= Seq::<u16>::empty());
    }
    None
}

/// Copies the tail of a vector from a position on.
#[verifier::loop_isolation(false)]
pub fn vec_tail(v: &Vec<u16>, from: usize) -> (r: Vec<u16>)
    requires
        from <= v@.len(),
    ensures
        r@ == v@.skip(from as int),
{
    let mut out: Vec<u16> = Vec::new();
    let mut i = from;
    while i < v.len()
        invariant
            from <= i <= v@.len(),
            out@ =~= v@.subrange(from as int, i as int),
        decreases v@.len() - i,
    {
        out.push(v[i]);
        proof {
            assert(out@ =~= v@.subrange(from as int, i + 1 as int));
        }
        i += 1;
    }
    proof {
        assert(v@.subrange(from as int, v@.len() as int) =~= v@.skip(from as int));
    }
    out
}

/// Checks a three-unit suffix for the executable-like extensions.
pub fn is_exec_suffix_exec(s: &Vec<u16>) -> (r: bool)
    ensures
        r == is_exec_suffix(s@),
{
    if s.len() != 3 {
        proof {
            assert(!is_exec_suffix(s@));
        }
        return false;
    }
    let a = s[0];
    let b = s[1];
    let c = s[2];
    let r = (a == 101 && b == 120 && c == 101) || (a == 100 && b == 108 && c == 108) || (a == 111
        && b == 99 && c == 120) || (a == 115 && b == 121 && c == 115);
    proof {
        assert(s@ =~= seq![s@[0], s@[1], s@[2]]);
        if r {
            assert(is_exec_suffix(s@));
        } else {
            assert(s@ != seq![101u16, 120u16, 101u16]);
            assert(s@ != seq![100u16, 108u16, 108u16]);
            assert(s@ != seq![111u16, 99u16, 120u16]);
            assert(s@ != seq![115u16, 121u16, 115u16]);
        }
    }
    r
}

/// Computes the ordering key that places executable-like extensions first,
/// then groups by extension, file name, and full path, case-insensitively.
pub fn solid_sort_key(p: &PackItem) -> (r: SortKey)
    ensures
        r.view_key() == spec_sort_key(utf16_of(lower_of(p.src@))),
{
    let low = lower_str(p.src.as_str());
    let units = encode_utf16_units(low.as_str());
    let ulen = units.len();
    proof {
        assert(ulen == units@.len());
    }
    let slash = rfind_unit(&units, 47);
    let fname = match slash {
        Some(i) => vec_tail(&units, i + 1),
        None => vec_tail(&units, 0),
    };
    proof {
        let sl = last_index_of(units@, 47);
        assert(sl < units@.len());
        assert(fname@ == units@.skip(sl + 1));
    }
    match rfind_unit(&units, 46) {
        Some(d) => {
            let suffix = vec_tail(&units, d + 1);
            let prio: i32 = if is_exec_suffix_exec(&suffix) {
                -1
            } else {
                0
            };
            let r = SortKey { prio, suffix, fname, full: units };
            proof {
                assert(r.view_key() =~= spec_sort_key(utf16_of(lower_of(p.src@))));
            }
            r
        },
        None => {
            let mut zzz: Vec<u16> = Vec::new();
            zzz.push(122);
            zzz.push(122);
            zzz.push(122);
            let r = SortKey { prio: 0, suffix: zzz, fname, full: units };
            proof {
                assert(r.suffix@ =~= seq![122u16, 122u16, 122u16]);
                assert(r.view_key() =~= spec_sort_key(utf16_of(lower_of(p.src@))));
            }
            r
        },
    }
}

// ---------------------------------------------------------------------------
// Ordering
// ---------------------------------------------------------------------------

/// Lexicographic "less than or equal" on unit sequences.
pub open spec fn seq_le(a: Seq<u16>, b: Seq<u16>) -> bool
    decreases a.len(),
{
    if a.len() == 0 {
        true
    } else if b.len() == 0 {
        false
    } else if a[0] < b[0] {
        true
    } else if a[0] > b[0] {
        false
    } else {
        seq_le(a.skip(1), b.skip(1))
    }
}

/// One of two sequences always compares at or below the other.
pub proof fn lemma_seq_le_total(a: Seq<u16>, b: Seq<u16>)
    ensures
        seq_le(a, b) || seq_le(b, a),
    decreases a.len(),
{
    if a.len() > 0 && b.len() > 0 && a[0] == b[0] {
        lemma_seq_le_total(a.skip(1), b.skip(1));
    }
}

/// Two sequences at or below each other are equal.
pub proof fn lemma_seq_le_antisym(a: Seq<u16>, b: Seq<u16>)
    requires
        seq_le(a, b),
        seq_le(b, a),
    ensures
        a == b,
    decreases a.len(),
{
    if a.len() == 0 {
        assert(b.len() == 0);
        assert(a =~= b);
    } else {
        assert(b.len() > 0);
        assert(a[0] == b[0]);
        lemma_seq_le_antisym(a.skip(1), b.skip(1));
        assert(a.skip(1).len() == a.len() - 1);
        assert(b.skip(1).len() == b.len() - 1);
        assert(a.len() == b.len());
        assert forall|t: int| 0 <= t < a.len() implies a[t] == b[t] by {
            if t >= 1 {
                assert(a.skip(1)[t - 1] == b.skip(1)[t - 1]);
                assert(a[t] == a.skip(1)[t - 1]);
                assert(b[t] == b.skip(1)[t - 1]);
            }
        }
        assert(a =~= b);
    }
}

/// Lexicographic order is transitive.
pub proof fn lemma_seq_le_trans(a: Seq<u16>, b: Seq<u16>, c: Seq<u16>)
    requires
        seq_le(a, b),
        seq_le(b, c),
    ensures
        seq_le(a, c),
    decreases a.len(),
{
    if a.len() > 0 && b.len() > 0 && c.len() > 0 && a[0] == b[0] && b[0] == c[0] {
        lemma_seq_le_trans(a.skip(1), b.skip(1), c.skip(1));
    }
}

/// The tuple order on sort keys: priority, then extension, file name and
/// full path, lexicographically.
pub open spec fn key_le(a: SortKeyV, b: SortKeyV) -> bool {
    if a.prio != b.prio {
        a.prio < b.prio
    } else if a.suffix != b.suffix {
        seq_le(a.suffix, b.suffix)
    } else if a.fname != b.fname {
        seq_le(a.fname, b.fname)
    } else {
        seq_le(a.full, b.full)
    }
}

/// The key order is total.
pub proof fn lemma_key_le_total(a: SortKeyV, b: SortKeyV)
    ensures
        key_le(a, b) || key_le(b, a),
{
    lemma_seq_le_total(a.suffix, b.suffix);
    lemma_seq_le_total(a.fname, b.fname);
    lemma_seq_le_total(a.full, b.full);
}

/// Lexicographic order is reflexive.
pub proof fn lemma_seq_le_refl(a: Seq<u16>)
    ensures
        seq_le(a, a),
    decreases a.len(),
{
    if a.len() > 0 {
        lemma_seq_le_refl(a.skip(1));
    }
}

/// The key order is transitive.
pub proof fn lemma_key_le_trans(a: SortKeyV, b: SortKeyV, c: SortKeyV)
    requires
        key_le(a, b),
        key_le(b, c),
    ensures
        key_le(a, c),
{
    lemma_seq_le_refl(a.suffix);
    lemma_seq_le_refl(b.suffix);
    lemma_seq_le_refl(a.fname);
    lemma_seq_le_refl(b.fname);
    assert(a.prio <= b.prio && b.prio <= c.prio);
    if a.prio == c.prio {
        assert(a.prio == b.prio && b.prio == c.prio);
        assert(seq_le(a.suffix, b.suffix) && seq_le(b.suffix, c.suffix));
        lemma_seq_le_trans(a.suffix, b.suffix, c.suffix);
        if a.suffix == c.suffix {
            lemma_seq_le_antisym(a.suffix, b.suffix);
            assert(a.suffix == b.suffix && b.suffix == c.suffix);
            assert(seq_le(a.fname, b.fname) && seq_le(b.fname, c.fname));
            lemma_seq_le_trans(a.fname, b.fname, c.fname);
            if a.fname == c.fname {
                lemma_seq_le_antisym(a.fname, b.fname);
                assert(a.fname == b.fname && b.fname == c.fname);
                lemma_seq_le_trans(a.full, b.full, c.full);
            }
        }
    }
}

/// Compares two unit sequences.
#[verifier::loop_isolation(false)]
pub fn seq_le_exec(a: &Vec<u16>, b: &Vec<u16>) -> (r: bool)
    ensures
        r == seq_le(a@, b@),
{
    let mut i: usize = 0;
    proof {
        assert(a@.skip(0) =~= a@);
        assert(b@.skip(0) =~= b@);
    }
    while i < a.len() && i < b.len()
        invariant
            i <= a@.len(),
            i <= b@.len(),
            forall|t: int| 0 <= t < i ==> a@[t] == b@[t],
            seq_le(a@, b@) == seq_le(a@.skip(i as int), b@.skip(i as int)),
        decreases a@.len() - i,
    {
        proof {
            assert(a@.skip(i as int)[0] == a@[i as int]);
            assert(b@.skip(i as int)[0] == b@[i as int]);
            assert(a@.skip(i as int).skip(1) =~= a@.skip(i + 1 as int));
            assert(b@.skip(i as int).skip(1) =~= b@.skip(i + 1 as int));
        }
        if a[i] < b[i] {
            return true;
        }
        if a[i] > b[i] {
            return false;
        }
        i += 1;
    }
    proof {
        if i >= a@.len() {
            assert(a@.skip(i as int).len() == 0);
        } else {
            assert(b@.skip(i as int).len() == 0);
            assert(a@.skip(i as int).len() > 0);
        }
    }
    i >= a.len()
}

/// Compares two sort keys.
pub fn key_le_exec(a: &SortKey, b: &SortKey) -> (r: bool)
    ensures
        r == key_le(a.view_key(), b.view_key()),
{
    if a.prio != b.prio {
        a.prio < b.prio
    } else if !bytes16_eq(&a.suffix, &b.suffix) {
        seq_le_exec(&a.suffix, &b.suffix)
    } else if !bytes16_eq(&a.fname, &b.fname) {
        seq_le_exec(&a.fname, &b.fname)
    } else {
        seq_le_exec(&a.full, &b.full)
    }
}

/// The views of a sequence of pack pairs, for permutation statements.
pub open spec fn pairs_view(s: Seq<(PackItem, Vec<u8>)>) -> Seq<(Seq<char>, Seq<char>, Seq<u8>)> {
    s.map_values(|p: (PackItem, Vec<u8>)| (p.0.src@, p.0.dst@, p.1@))
}

/// Total content length of a sequence of pack pairs.
pub open spec fn total_blob_len(s: Seq<(PackItem, Vec<u8>)>) -> int
    decreases s.len(),
{
    if s.len() == 0 {
        0
    } else {
        total_blob_len(s.drop_last()) + s.last().1@.len()
    }
}

/// Content lengths are not negative sums.
pub proof fn lemma_total_blob_len_nonneg(s: Seq<(PackItem, Vec<u8>)>)
    ensures
        total_blob_len(s) >= 0,
    decreases s.len(),
{
    if s.len() > 0 {
        lemma_total_blob_len_nonneg(s.drop_last());
    }
}

/// Inserting a pair anywhere adds its content length.
pub proof fn lemma_total_blob_len_insert(s: Seq<(PackItem, Vec<u8>)>, p: int, x: (PackItem, Vec<u8>))
    requires
        0 <= p <= s.len(),
    ensures
        total_blob_len(s.insert(p, x)) == total_blob_len(s) + x.1@.len(),
    decreases s.len(),
{
    if p == s.len() {
        assert(s.insert(p, x).drop_last() =~= s);
        assert(s.insert(p, x).last() == x);
    } else {
        assert(s.insert(p, x).drop_last() =~= s.drop_last().insert(p, x));
        assert(s.insert(p, x).last() == s.last());
        lemma_total_blob_len_insert(s.drop_last(), p, x);
    }
}

/// A prefix never exceeds the whole.
pub proof fn lemma_total_blob_len_take(s: Seq<(PackItem, Vec<u8>)>, i: int)
    requires
        0 <= i <= s.len(),
    ensures
        total_blob_len(s.take(i)) <= total_blob_len(s),
        i < s.len() ==> total_blob_len(s.take(i + 1)) == total_blob_len(s.take(i)) + s[i].1@.len(),
    decreases s.len() - i,
{
    if i < s.len() {
        assert(s.take(i + 1).drop_last() =~= s.take(i));
        assert(s.take(i + 1).last() == s[i]);
        lemma_total_blob_len_take(s, i + 1);
        lemma_total_blob_len_nonneg(s.take(i + 1));
    } else {
        assert(s.take(i) =~= s);
    }
}

/// Combined UTF-16 length of the pairs' destination paths, each with its
/// implicit terminator: how many trie nodes they can take at most.
pub open spec fn dst_units_sum(s: Seq<(PackItem, Vec<u8>)>) -> int
    decreases s.len(),
{
    if s.len() == 0 {
        0
    } else {
        dst_units_sum(s.drop_last()) + utf16_of(s.last().0.dst@).len() + 1
    }
}

/// Inserting a pair anywhere adds its destination's units.
pub proof fn lemma_dst_units_insert(s: Seq<(PackItem, Vec<u8>)>, p: int, x: (PackItem, Vec<u8>))
    requires
        0 <= p <= s.len(),
    ensures
        dst_units_sum(s.insert(p, x)) == dst_units_sum(s) + utf16_of(x.0.dst@).len() + 1,
    decreases s.len(),
{
    if p == s.len() {
        assert(s.insert(p, x).drop_last() =~= s);
        assert(s.insert(p, x).last() == x);
    } else {
        assert(s.insert(p, x).drop_last() =~= s.drop_last().insert(p, x));
        assert(s.insert(p, x).last() == s.last());
        lemma_dst_units_insert(s.drop_last(), p, x);
    }
}

/// One more pair's destination extends the prefix sum.
pub proof fn lemma_dst_units_take(s: Seq<(PackItem, Vec<u8>)>, i: int)
    requires
        0 <= i < s.len(),
    ensures
        dst_units_sum(s.take(i + 1)) == dst_units_sum(s.take(i)) + utf16_of(s[i].0.dst@).len() + 1,
{
    assert(s.take(i + 1).drop_last() =~= s.take(i));
    assert(s.take(i + 1).last() == s[i]);
}

/// Sorts the pack pairs by their ordering key: a permutation of the input,
/// with the same total content length, ordered by `key_le`.
#[verifier::loop_isolation(false)]
#[verifier::rlimit(60)]
pub fn sort_pack_pairs(v: Vec<(PackItem, Vec<u8>)>) -> (r: Vec<(PackItem, Vec<u8>)>)
    ensures
        pairs_view(r@).to_multiset() == pairs_view(v@).to_multiset(),
        r@.len() == v@.len(),
        total_blob_len(r@) == total_blob_len(v@),
        dst_units_sum(r@) == dst_units_sum(v@),
        forall|i: int, j: int|
            0 <= i < j < r@.len() ==> key_le(pair_key(#[trigger] r@[i]), pair_key(#[trigger] r@[j])),
{
    broadcast use vstd::seq_lib::group_to_multiset_ensures;

    let ghost orig = v@;
    let mut v = v;
    let mut out: Vec<(PackItem, Vec<u8>)> = Vec::new();
    proof {
        assert(pairs_view(out@).to_multiset().add(pairs_view(v@).to_multiset()) =~= pairs_view(
            orig,
        ).to_multiset()) by {
            assert(pairs_view(out@) =~= Seq::<(Seq<char>, Seq<char>, Seq<u8>)>::empty());
        }
    }
    while v.len() > 0
        invariant
            out@.len() + v@.len() == orig.len(),
            pairs_view(out@).to_multiset().add(pairs_view(v@).to_multiset()) == pairs_view(
                orig,
            ).to_multiset(),
            total_blob_len(out@) + total_blob_len(v@) == total_blob_len(orig),
            dst_units_sum(out@) + dst_units_sum(v@) == dst_units_sum(orig),
            forall|i: int, j: int|
                0 <= i < j < out@.len() ==> key_le(
                    pair_key(#[trigger] out@[i]),
                    pair_key(#[trigger] out@[j]),
                ),
        decreases v@.len(),
    {
        let ghost v_before = v@;
        let x = v.remove(0);
        proof {
            assert(v_before == seq![x].add(v@));
            assert(pairs_view(v_before) =~= seq![(x.0.src@, x.0.dst@, x.1@)].add(pairs_view(v@)));
            assert(pairs_view(v_before).to_multiset() =~= pairs_view(v@).to_multiset().insert(
                (x.0.src@, x.0.dst@, x.1@),
            )) by {
                assert(pairs_view(v_before) =~= pairs_view(v@).insert(0, (x.0.src@, x.0.dst@, x.1@)));
            }
            assert(total_blob_len(v_before) == total_blob_len(v@) + x.1@.len()) by {
                lemma_total_blob_len_insert(v@, 0, x);
                assert(v_before =~= v@.insert(0, x));
            }
            assert(dst_units_sum(v_before) == dst_units_sum(v@) + utf16_of(x.0.dst@).len() + 1)
                by {
                lemma_dst_units_insert(v@, 0, x);
                assert(v_before =~= v@.insert(0, x));
            }
        }
        let kx = solid_sort_key(&x.0);
        let mut p: usize = 0;
        let mut stop = false;
        while p < out.len() && !stop
            invariant
                p <= out@.len(),
                forall|t: int| 0 <= t < p ==> key_le(pair_key(#[trigger] out@[t]), kx.view_key()),
                stop ==> p < out@.len() && !key_le(pair_key(out@[p as int]), kx.view_key()),
            decreases out@.len() - p + (if stop {
                0int
            } else {
                1int
            }),
        {
            let kp = solid_sort_key(&out[p].0);
            if key_le_exec(&kp, &kx) {
                p += 1;
            } else {
                stop = true;
            }
        }
        proof {
            assert(kx.view_key() == pair_key(x));
        }
        let ghost out_before = out@;
        out.insert(p, x);
        proof {
            assert(out@ == out_before.insert(p as int, x));
            lemma_total_blob_len_insert(out_before, p as int, x);
            lemma_dst_units_insert(out_before, p as int, x);
            assert(pairs_view(out@) =~= pairs_view(out_before).insert(
                p as int,
                (x.0.src@, x.0.dst@, x.1@),
            ));
            assert(pairs_view(out@).to_multiset() =~= pairs_view(out_before).to_multiset().insert(
                (x.0.src@, x.0.dst@, x.1@),
            ));
            assert(pairs_view(out@).to_multiset().add(pairs_view(v@).to_multiset()) =~= pairs_view(
                orig,
            ).to_multiset());
            // sortedness with the new element in place
            assert forall|i: int, j: int| 0 <= i < j < out@.len() implies key_le(
                pair_key(#[trigger] out@[i]),
                pair_key(#[trigger] out@[j]),
            ) by {
                if j < p {
                    assert(out@[i] == out_before[i] && out@[j] == out_before[j]);
                } else if i < p && j == p {
                    assert(out@[i] == out_before[i] && out@[j] == x);
                } else if i < p && j > p {
                    assert(out@[i] == out_before[i] && out@[j] == out_before[j - 1]);
                } else if i == p {
                    assert(out@[i] == x && out@[j] == out_before[j - 1]);
                    assert(j - 1 >= p);
                    if stop {
                        lemma_key_le_total(pair_key(x), pair_key(out_before[p as int]));
                        assert(key_le(pair_key(x), pair_key(out_before[p as int])));
                        if j - 1 > p {
                            lemma_key_le_trans(
                                pair_key(x),
                                pair_key(out_before[p as int]),
                                pair_key(out_before[j - 1]),
                            );
                        }
                    } else {
                        assert(p == out_before.len());
                        assert(false);
                    }
                } else {
                    assert(out@[i] == out_before[i - 1] && out@[j] == out_before[j - 1]);
                }
            }
        }
    }
    proof {
        assert(pairs_view(v@) =~= Seq::<(Seq<char>, Seq<char>, Seq<u8>)>::empty());
        assert(pairs_view(v@).to_multiset() =~= Multiset::<(Seq<char>, Seq<char>, Seq<u8>)>::empty());
        assert(pairs_view(out@).to_multiset().add(Multiset::empty()) =~= pairs_view(out@).to_multiset());
        assert(pairs_view(out@).to_multiset().len() == pairs_view(orig).to_multiset().len());
        assert(pairs_view(out@).len() == out@.len() && pairs_view(orig).len() == orig.len());
    }
    out
}

// ---------------------------------------------------------------------------
// Building entries and items
// ---------------------------------------------------------------------------

/// Pack pairs zipped from parallel path and content lists.
pub open spec fn zip_pairs(a: Seq<PackItem>, b: Seq<Vec<u8>>) -> Seq<(PackItem, Vec<u8>)> {
    Seq::new(a.len(), |i: int| (a[i], b[i]))
}

/// How many entries reference item `idx`.
pub open spec fn count_index(es: Seq<Entry>, idx: int) -> int
    decreases es.len(),
{
    if es.len() == 0 {
        0
    } else {
        count_index(es.drop_last(), idx) + (if es.last().item_index == idx {
            1int
        } else {
            0int
        })
    }
}

/// Reference counts are bounded by the number of entries.
pub proof fn lemma_count_index_bound(es: Seq<Entry>, idx: int)
    ensures
        0 <= count_index(es, idx) <= es.len(),
    decreases es.len(),
{
    if es.len() > 0 {
        lemma_count_index_bound(es.drop_last(), idx);
    }
}

/// Appending an entry bumps exactly its own item's count.
pub proof fn lemma_count_index_push(es: Seq<Entry>, e: Entry, idx: int)
    ensures
        count_index(es.push(e), idx) == count_index(es, idx) + (if e.item_index == idx {
            1int
        } else {
            0int
        }),
{
    assert(es.push(e).drop_last() =~= es);
    assert(es.push(e).last() == e);
}

/// The key of an entry's source path, as the sort ordered it.
pub open spec fn entry_key(e: Entry) -> SortKeyV {
    spec_sort_key(utf16_of(lower_of(e.src@)))
}

/// Pair `q` is represented by some file entry with its paths and its
/// content's dedup key.
pub open spec fn pair_cover_ok(
    pairs: Seq<(PackItem, Vec<u8>)>,
    dn: int,
    entries: Seq<Entry>,
    items: Seq<Item>,
    q: int,
) -> bool {
    exists|t: int|
        #![trigger entries[t]]
        dn <= t < entries.len() && entries[t].src@ == pairs[q].0.src@ && entries[t].dst@
            == pairs[q].0.dst@ && items[entries[t].item_index as int].length == pairs[q].1@.len()
            && items[entries[t].item_index as int].digest@ == sha1_of(pairs[q].1@)
}

/// Every pack pair is represented by a file entry.
#[verifier::opaque]
pub open spec fn pairs_covered(
    pairs: Seq<(PackItem, Vec<u8>)>,
    dn: int,
    entries: Seq<Entry>,
    items: Seq<Item>,
) -> bool {
    forall|q: int|
        0 <= q < pairs.len() ==> #[trigger] pair_cover_ok(pairs, dn, entries, items, q)
}

/// Blob `j` is the content of some pack pair, kept with that pair's
/// destination path.
pub open spec fn blob_cover_ok(
    pairs: Seq<(PackItem, Vec<u8>)>,
    blobs: Seq<Vec<u8>>,
    dsts: Seq<String>,
    j: int,
) -> bool {
    exists|q: int|
        #![trigger pairs[q]]
        0 <= q < pairs.len() && blobs[j]@ == pairs[q].1@ && dsts[j]@ == pairs[q].0.dst@
}

/// Entry `t` carries the source and destination of some pack pair.
pub open spec fn entry_source_ok(
    pairs: Seq<(PackItem, Vec<u8>)>,
    entries: Seq<Entry>,
    t: int,
) -> bool {
    exists|q: int|
        #![trigger pairs[q]]
        0 <= q < pairs.len() && entries[t].src@ == pairs[q].0.src@ && entries[t].dst@
            == pairs[q].0.dst@
}

/// Every file entry carries some pack pair's paths.
pub open spec fn entry_sources_ok(
    pairs: Seq<(PackItem, Vec<u8>)>,
    dn: int,
    entries: Seq<Entry>,
) -> bool {
    forall|t: int| dn <= t < entries.len() ==> #[trigger] entry_source_ok(pairs, entries, t)
}

/// Every stored blob is the content of some pack pair.
#[verifier::opaque]
pub open spec fn blobs_covered(
    pairs: Seq<(PackItem, Vec<u8>)>,
    items: Seq<Item>,
    blobs: Seq<Vec<u8>>,
    dsts: Seq<String>,
) -> bool {
    forall|j: int| 1 <= j < items.len() ==> #[trigger] blob_cover_ok(pairs, blobs, dsts, j)
}

/// Zips the parallel path and content lists into owned pairs.
#[verifier::loop_isolation(false)]
pub fn zip_pack_pairs(file_items: Vec<PackItem>, contents: Vec<Vec<u8>>) -> (r: Vec<
    (PackItem, Vec<u8>),
>)
    requires
        contents@.len() == file_items@.len(),
    ensures
        r@ =~= zip_pairs(file_items@, contents@),
{
    let ghost fi0 = file_items@;
    let ghost co0 = contents@;
    let mut file_items = file_items;
    let mut contents = contents;
    let mut pairs: Vec<(PackItem, Vec<u8>)> = Vec::new();
    while file_items.len() > 0
        invariant
            contents@.len() == file_items@.len(),
            pairs@.len() + file_items@.len() == fi0.len(),
            file_items@ =~= fi0.skip(pairs@.len() as int),
            contents@ =~= co0.skip(pairs@.len() as int),
            forall|j: int| 0 <= j < pairs@.len() ==> #[trigger] pairs@[j] == (fi0[j], co0[j]),
        decreases file_items@.len(),
    {
        let ghost pl = pairs@.len() as int;
        let p = file_items.remove(0);
        let c = contents.remove(0);
        proof {
            assert(p == fi0[pl] && c == co0[pl]);
            assert(file_items@ =~= fi0.skip(pl + 1));
            assert(contents@ =~= co0.skip(pl + 1));
        }
        pairs.push((p, c));
    }
    proof {
        assert(pairs@ =~= zip_pairs(fi0, co0));
    }
    pairs
}

/// Appends one directory entry per directory path, all on the sentinel.
#[verifier::loop_isolation(false)]
pub fn push_dir_entries(entries: &mut Vec<Entry>, dir_items: &Vec<String>)
    requires
        old(entries)@.len() == 0,
    ensures
        final(entries)@.len() == dir_items@.len(),
        forall|j: int|
            0 <= j < dir_items@.len() ==> (#[trigger] final(entries)@[j]).dst@ == dir_items@[j]@
                && final(entries)@[j].item_index == 0,
{
    let mut t: usize = 0;
    while t < dir_items.len()
        invariant
            t <= dir_items@.len(),
            entries@.len() == t,
            forall|j: int|
                0 <= j < t ==> (#[trigger] entries@[j]).dst@ == dir_items@[j]@
                    && entries@[j].item_index == 0,
        decreases dir_items@.len() - t,
    {
        let d = dir_items[t].clone();
        let d2 = dir_items[t].clone();
        entries.push(Entry { src: d, dst: d2, item_index: 0 });
        t += 1;
    }
}

/// The entry lists are well-formed: directory entries sit on the sentinel,
/// file entries carry the sorted pairs' paths and point at items holding
/// their content's key.
#[verifier::opaque]
pub open spec fn entries_ok(
    sorted0: Seq<(PackItem, Vec<u8>)>,
    dirs: Seq<String>,
    entries: Seq<Entry>,
    items: Seq<Item>,
) -> bool {
    let dn = dirs.len() as int;
    &&& (forall|j: int|
        0 <= j < dn ==> (#[trigger] entries[j]).dst@ == dirs[j]@ && entries[j].item_index == 0)
    &&& (forall|j: int|
        dn <= j < entries.len() ==> {
            let e = #[trigger] entries[j];
            &&& 1 <= e.item_index < items.len()
            &&& e.src@ == sorted0[j - dn].0.src@
            &&& e.dst@ == sorted0[j - dn].0.dst@
            &&& items[e.item_index as int].length == sorted0[j - dn].1@.len()
            &&& items[e.item_index as int].digest@ == sha1_of(sorted0[j - dn].1@)
        })
}

/// Every file entry points at a real file item.
#[verifier::opaque]
pub open spec fn entries_files_ok(dn: int, entries: Seq<Entry>, items: Seq<Item>) -> bool {
    forall|j: int|
        dn <= j < entries.len() ==> 1 <= (#[trigger] entries[j]).item_index < items.len()
}

/// Every file item declares exactly its blob's length and digest.
#[verifier::opaque]
pub open spec fn items_blobs_ok(items: Seq<Item>, blobs: Seq<Vec<u8>>) -> bool {
    forall|j: int|
        1 <= j < items.len() ==> (#[trigger] items[j]).length == blobs[j]@.len()
            && items[j].digest@ == sha1_of(blobs[j]@)
}

/// No two file items share a dedup key.
#[verifier::opaque]
pub open spec fn items_distinct(items: Seq<Item>) -> bool {
    forall|i1: int, i2: int|
        1 <= i1 < i2 < items.len() ==> !((#[trigger] items[i1]).length == (
        #[trigger] items[i2]).length && items[i1].digest@ == items[i2].digest@)
}

/// File items carry no flags and sit back to back in the logical stream.
#[verifier::opaque]
pub open spec fn offsets_ok(items: Seq<Item>) -> bool {
    forall|j: int|
        1 <= j < items.len() ==> (#[trigger] items[j]).flags == 0 && items[j].offset == (if j == 1 {
            0int
        } else {
            items[j - 1].offset + items[j - 1].length
        })
}

/// The greatest item index any file entry references, 0 when none do.
pub open spec fn max_file_idx(entries: Seq<Entry>, dn: int) -> int
    decreases entries.len(),
{
    if entries.len() == 0 || entries.len() <= dn {
        0
    } else {
        let m = max_file_idx(entries.drop_last(), dn);
        let x = entries.last().item_index as int;
        if x > m {
            x
        } else {
            m
        }
    }
}

/// Appending an entry raises the maximum to its index if greater.
pub proof fn lemma_max_file_idx_push(entries: Seq<Entry>, dn: int, e: Entry)
    requires
        entries.len() >= dn,
    ensures
        max_file_idx(entries.push(e), dn) == (if e.item_index as int > max_file_idx(entries, dn) {
            e.item_index as int
        } else {
            max_file_idx(entries, dn)
        }),
{
    assert(entries.push(e).drop_last() =~= entries);
    assert(entries.push(e).last() == e);
}

/// Unique items take their ids in the order the sorted scan first meets
/// their content: a file entry never references an item beyond the ones
/// discovered before it plus one, and the table ends at the last discovery.
#[verifier::opaque]
pub open spec fn discovery_order_ok(dn: int, entries: Seq<Entry>, items: Seq<Item>) -> bool {
    &&& items.len() == max_file_idx(entries, dn) + 1
    &&& (forall|t: int|
        dn <= t < entries.len() ==> (#[trigger] entries[t]).item_index as int <= max_file_idx(
            entries.take(t),
            dn,
        ) + 1)
}

/// Combined UTF-16 length of the file entries' destination paths, each
/// with its terminator.
pub open spec fn entries_units(entries: Seq<Entry>, dn: int) -> int
    decreases entries.len(),
{
    if entries.len() == 0 || entries.len() <= dn {
        0
    } else {
        entries_units(entries.drop_last(), dn) + utf16_of(entries.last().dst@).len() + 1
    }
}

/// Appending a file entry adds its destination's units.
pub proof fn lemma_entries_units_push(entries: Seq<Entry>, dn: int, e: Entry)
    requires
        entries.len() >= dn,
    ensures
        entries_units(entries.push(e), dn) == entries_units(entries, dn) + utf16_of(
            e.dst@,
        ).len() + 1,
{
    assert(entries.push(e).drop_last() =~= entries);
    assert(entries.push(e).last() == e);
}

/// Every file item's reference count equals the number of entries on it.
#[verifier::opaque]
pub open spec fn refs_ok(entries: Seq<Entry>, items: Seq<Item>) -> bool {
    forall|j: int|
        1 <= j < items.len() ==> (#[trigger] items[j]).reference as int == count_index(entries, j)
}

/// The builder loop's whole state after `i` sorted pairs are folded in.
pub open spec fn build_inv(
    sorted0: Seq<(PackItem, Vec<u8>)>,
    dirs: Seq<String>,
    entries: Seq<Entry>,
    items: Seq<Item>,
    blobs: Seq<Vec<u8>>,
    dsts: Seq<String>,
    offset: int,
    i: int,
) -> bool {
    let dn = dirs.len() as int;
    &&& entries.len() == dn + i
    &&& items.len() >= 1
    &&& items.len() <= MAX_ITEMS
    &&& items.len() <= 1 + i
    &&& blobs.len() == items.len()
    &&& dsts.len() == items.len()
    &&& items[0].reference == dn
    &&& items[0].flags == ITEM_FLAG_DIR
    &&& items[0].offset == 0
    &&& items[0].length == 0
    &&& items[0].digest@ == sha1_of(Seq::empty())
    &&& blobs[0]@ == Seq::<u8>::empty()
    &&& entries_ok(sorted0, dirs, entries, items)
    &&& discovery_order_ok(dn, entries, items)
    &&& items_blobs_ok(items, blobs)
    &&& items_distinct(items)
    &&& offsets_ok(items)
    &&& offset == items[items.len() - 1].offset + items[items.len() - 1].length
    &&& offset <= total_blob_len(sorted0.take(i))
    &&& offset <= 0xFFFF_FFFF
    &&& refs_ok(entries, items)
    &&& blobs_covered(sorted0, items, blobs, dsts)
}

/// Folding a pair whose dedup key already occurs keeps everything except
/// one reference count and one new entry.
#[verifier::rlimit(100)]
pub proof fn lemma_build_step_dup(
    sorted0: Seq<(PackItem, Vec<u8>)>,
    dirs: Seq<String>,
    entries: Seq<Entry>,
    items: Seq<Item>,
    items2: Seq<Item>,
    blobs: Seq<Vec<u8>>,
    dsts: Seq<String>,
    offset: int,
    i: int,
    idx: int,
    e: Entry,
)
    requires
        build_inv(sorted0, dirs, entries, items, blobs, dsts, offset, i),
        0 <= i < sorted0.len(),
        1 <= idx < items.len(),
        item_matches(items[idx], sorted0[i].1@.len() as int, sha1_of(sorted0[i].1@)),
        items2.len() == items.len(),
        items[idx].reference < 0xFFFF,
        items2[idx].reference == items[idx].reference + 1,
        items2[idx].length == items[idx].length,
        items2[idx].digest@ == items[idx].digest@,
        items2[idx].offset == items[idx].offset,
        items2[idx].flags == items[idx].flags,
        forall|j: int| 0 <= j < items.len() && j != idx ==> #[trigger] items2[j] == items[j],
        e.item_index == idx,
        e.src@ == sorted0[i].0.src@,
        e.dst@ == sorted0[i].0.dst@,
    ensures
        build_inv(sorted0, dirs, entries.push(e), items2, blobs, dsts, offset, i + 1),
{
    let dn = dirs.len() as int;
    let entries2 = entries.push(e);
    assert(forall|j: int| 0 <= j < entries.len() ==> #[trigger] entries2[j] == entries[j]);
    assert(entries2[entries.len() as int] == e);
    lemma_total_blob_len_take(sorted0, i);
    lemma_total_blob_len_nonneg(seq![sorted0[i]]);
    assert(total_blob_len(sorted0.take(i + 1)) >= total_blob_len(sorted0.take(i)));
    assert(entries_ok(sorted0, dirs, entries2, items2)) by {
        reveal(entries_ok);
        assert forall|j: int| dn <= j < entries2.len() implies {
            let e2 = #[trigger] entries2[j];
            &&& 1 <= e2.item_index < items2.len()
            &&& e2.src@ == sorted0[j - dn].0.src@
            &&& e2.dst@ == sorted0[j - dn].0.dst@
            &&& items2[e2.item_index as int].length == sorted0[j - dn].1@.len()
            &&& items2[e2.item_index as int].digest@ == sha1_of(sorted0[j - dn].1@)
        } by {
            if j < entries.len() {
                assert(entries2[j] == entries[j]);
                let t = entries[j].item_index as int;
                assert(items2[t].length == items[t].length && items2[t].digest@
                    == items[t].digest@);
            } else {
                assert(entries2[j] == e);
                assert(items2[idx].length == sorted0[i].1@.len());
                assert(items2[idx].digest@ == sha1_of(sorted0[i].1@));
            }
        }
    }
    assert(items_blobs_ok(items2, blobs)) by {
        reveal(items_blobs_ok);
        assert forall|j: int| 1 <= j < items2.len() implies (#[trigger] items2[j]).length
            == blobs[j]@.len() && items2[j].digest@ == sha1_of(blobs[j]@) by {
            assert(items2[j].length == items[j].length && items2[j].digest@ == items[j].digest@);
        }
    }
    assert(items_distinct(items2)) by {
        reveal(items_distinct);
        assert forall|i1: int, i2: int| 1 <= i1 < i2 < items2.len() implies !((
        #[trigger] items2[i1]).length == (#[trigger] items2[i2]).length && items2[i1].digest@
            == items2[i2].digest@) by {
            assert(items2[i1].length == items[i1].length && items2[i1].digest@
                == items[i1].digest@);
            assert(items2[i2].length == items[i2].length && items2[i2].digest@
                == items[i2].digest@);
        }
    }
    assert(offsets_ok(items2)) by {
        reveal(offsets_ok);
        assert forall|j: int| 1 <= j < items2.len() implies (#[trigger] items2[j]).flags == 0
            && items2[j].offset == (if j == 1 {
            0int
        } else {
            items2[j - 1].offset + items2[j - 1].length
        }) by {
            assert(items2[j].flags == items[j].flags && items2[j].offset == items[j].offset);
            if j > 1 {
                assert(items2[j - 1].offset == items[j - 1].offset && items2[j - 1].length
                    == items[j - 1].length);
            }
        }
    }
    assert(refs_ok(entries2, items2)) by {
        reveal(refs_ok);
        assert forall|j: int| 1 <= j < items2.len() implies (
        #[trigger] items2[j]).reference as int == count_index(entries2, j) by {
            lemma_count_index_push(entries, e, j);
        }
    }
    assert(blobs_covered(sorted0, items2, blobs, dsts)) by {
        reveal(blobs_covered);
        assert forall|j: int| 1 <= j < items2.len() implies #[trigger] blob_cover_ok(
            sorted0,
            blobs,
            dsts,
            j,
        ) by {
            assert(blob_cover_ok(sorted0, blobs, dsts, j));
        }
    }
    assert(items2[0] == items[0]);
    assert(discovery_order_ok(dn, entries2, items2)) by {
        reveal(discovery_order_ok);
        lemma_max_file_idx_push(entries, dn, e);
        assert(max_file_idx(entries2, dn) == max_file_idx(entries, dn));
        assert forall|t: int| dn <= t < entries2.len() implies (
        #[trigger] entries2[t]).item_index as int <= max_file_idx(entries2.take(t), dn) + 1 by {
            assert(entries2.take(t) =~= entries.take(t));
            if t < entries.len() {
                assert(entries2[t] == entries[t]);
            } else {
                assert(entries2[t] == e);
                assert(entries.take(t) =~= entries);
            }
        }
    }
    assert(items2[items2.len() - 1].offset == items[items.len() - 1].offset && items2[items2.len()
        - 1].length == items[items.len() - 1].length);
}

/// Folding a pair with a fresh dedup key appends one item, one blob and one
/// entry, and advances the running offset.
#[verifier::rlimit(100)]
pub proof fn lemma_build_step_new(
    sorted0: Seq<(PackItem, Vec<u8>)>,
    dirs: Seq<String>,
    entries: Seq<Entry>,
    items: Seq<Item>,
    blobs: Seq<Vec<u8>>,
    dsts: Seq<String>,
    offset: int,
    i: int,
    e: Entry,
    nitem: Item,
    nblob: Vec<u8>,
    ndst: String,
)
    requires
        build_inv(sorted0, dirs, entries, items, blobs, dsts, offset, i),
        0 <= i < sorted0.len(),
        items.len() < MAX_ITEMS,
        forall|t: int|
            1 <= t < items.len() ==> !item_matches(
                #[trigger] items[t],
                sorted0[i].1@.len() as int,
                sha1_of(sorted0[i].1@),
            ),
        nitem.reference == 1,
        nitem.flags == 0,
        nitem.offset == offset,
        nitem.length == sorted0[i].1@.len(),
        nitem.digest@ == sha1_of(sorted0[i].1@),
        nblob@ == sorted0[i].1@,
        ndst@ == sorted0[i].0.dst@,
        e.item_index == items.len(),
        e.src@ == sorted0[i].0.src@,
        e.dst@ == sorted0[i].0.dst@,
        offset + sorted0[i].1@.len() <= 0xFFFF_FFFF,
    ensures
        build_inv(
            sorted0,
            dirs,
            entries.push(e),
            items.push(nitem),
            blobs.push(nblob),
            dsts.push(ndst),
            offset + sorted0[i].1@.len(),
            i + 1,
        ),
{
    let dn = dirs.len() as int;
    let entries2 = entries.push(e);
    let items2 = items.push(nitem);
    let blobs2 = blobs.push(nblob);
    let dsts2 = dsts.push(ndst);
    let idx = items.len() as int;
    assert(forall|j: int| 0 <= j < entries.len() ==> #[trigger] entries2[j] == entries[j]);
    assert(entries2[entries.len() as int] == e);
    assert(forall|j: int| 0 <= j < items.len() ==> #[trigger] items2[j] == items[j]);
    assert(items2[idx] == nitem);
    assert(forall|j: int| 0 <= j < blobs.len() ==> #[trigger] blobs2[j] == blobs[j]);
    assert(blobs2[idx] == nblob);
    assert(forall|j: int| 0 <= j < dsts.len() ==> #[trigger] dsts2[j] == dsts[j]);
    assert(dsts2[idx] == ndst);
    lemma_total_blob_len_take(sorted0, i);
    assert(total_blob_len(sorted0.take(i + 1)) == total_blob_len(sorted0.take(i))
        + sorted0[i].1@.len());
    assert(entries_ok(sorted0, dirs, entries2, items2)) by {
        reveal(entries_ok);
        assert forall|j: int| dn <= j < entries2.len() implies {
            let e2 = #[trigger] entries2[j];
            &&& 1 <= e2.item_index < items2.len()
            &&& e2.src@ == sorted0[j - dn].0.src@
            &&& e2.dst@ == sorted0[j - dn].0.dst@
            &&& items2[e2.item_index as int].length == sorted0[j - dn].1@.len()
            &&& items2[e2.item_index as int].digest@ == sha1_of(sorted0[j - dn].1@)
        } by {
            if j < entries.len() {
                assert(entries2[j] == entries[j]);
                let t = entries[j].item_index as int;
                assert(1 <= t < items.len());
                assert(items2[t] == items[t]);
            } else {
                assert(entries2[j] == e);
                assert(items2[idx] == nitem);
            }
        }
    }
    assert(items_blobs_ok(items2, blobs2)) by {
        reveal(items_blobs_ok);
        assert forall|j: int| 1 <= j < items2.len() implies (#[trigger] items2[j]).length
            == blobs2[j]@.len() && items2[j].digest@ == sha1_of(blobs2[j]@) by {
            if j < idx {
                assert(items2[j] == items[j] && blobs2[j] == blobs[j]);
            } else {
                assert(items2[j] == nitem && blobs2[j] == nblob);
            }
        }
    }
    assert(items_distinct(items2)) by {
        reveal(items_distinct);
        assert forall|i1: int, i2: int| 1 <= i1 < i2 < items2.len() implies !((
        #[trigger] items2[i1]).length == (#[trigger] items2[i2]).length && items2[i1].digest@
            == items2[i2].digest@) by {
            if i2 < idx {
                assert(items2[i1] == items[i1] && items2[i2] == items[i2]);
            } else {
                assert(items2[i2] == nitem && items2[i1] == items[i1]);
                assert(!item_matches(
                    items[i1],
                    sorted0[i].1@.len() as int,
                    sha1_of(sorted0[i].1@),
                ));
            }
        }
    }
    assert(offsets_ok(items2)) by {
        reveal(offsets_ok);
        assert forall|j: int| 1 <= j < items2.len() implies (#[trigger] items2[j]).flags == 0
            && items2[j].offset == (if j == 1 {
            0int
        } else {
            items2[j - 1].offset + items2[j - 1].length
        }) by {
            if j < idx {
                assert(items2[j] == items[j]);
                if j > 1 {
                    assert(items2[j - 1] == items[j - 1]);
                }
            } else {
                assert(items2[j] == nitem);
                if idx > 1 {
                    assert(items2[j - 1] == items[j - 1]);
                }
            }
        }
    }
    assert(refs_ok(entries2, items2)) by {
        reveal(refs_ok);
        reveal(entries_ok);
        assert forall|j: int| 1 <= j < items2.len() implies (
        #[trigger] items2[j]).reference as int == count_index(entries2, j) by {
            lemma_count_index_push(entries, e, j);
            if j == idx {
                assert forall|t: int| 0 <= t < entries.len() implies (
                #[trigger] entries[t]).item_index < idx by {}
                lemma_count_zero(entries, idx);
            }
        }
    }
    assert(blobs_covered(sorted0, items2, blobs2, dsts2)) by {
        reveal(blobs_covered);
        assert forall|j: int| 1 <= j < items2.len() implies #[trigger] blob_cover_ok(
            sorted0,
            blobs2,
            dsts2,
            j,
        ) by {
            if j < idx {
                assert(blob_cover_ok(sorted0, blobs, dsts, j));
                let q = choose|q: int|
                    #![trigger sorted0[q]]
                    0 <= q < sorted0.len() && blobs[j]@ == sorted0[q].1@ && dsts[j]@
                        == sorted0[q].0.dst@;
                assert(blobs2[j]@ == sorted0[q].1@ && dsts2[j]@ == sorted0[q].0.dst@);
            } else {
                assert(blobs2[j]@ == sorted0[i].1@ && dsts2[j]@ == sorted0[i].0.dst@);
            }
        }
    }
    assert(items2[0] == items[0]);
    assert(discovery_order_ok(dn, entries2, items2)) by {
        reveal(discovery_order_ok);
        lemma_max_file_idx_push(entries, dn, e);
        assert(max_file_idx(entries2, dn) == items.len() as int);
        assert forall|t: int| dn <= t < entries2.len() implies (
        #[trigger] entries2[t]).item_index as int <= max_file_idx(entries2.take(t), dn) + 1 by {
            assert(entries2.take(t) =~= entries.take(t));
            if t < entries.len() {
                assert(entries2[t] == entries[t]);
            } else {
                assert(entries2[t] == e);
                assert(entries.take(t) =~= entries);
            }
        }
    }
}

/// Everything `build_entry_and_item` promises of its output, stated against
/// the unsorted input pairs and the directory list.
pub open spec fn build_ok(
    pairs: Seq<(PackItem, Vec<u8>)>,
    dirs: Seq<String>,
    entries: Seq<Entry>,
    items: Seq<Item>,
    blobs: Seq<Vec<u8>>,
    dsts: Seq<String>,
    nfiles: int,
) -> bool {
    let dn = dirs.len() as int;
    &&& items.len() >= 1
    &&& items.len() <= MAX_ITEMS
    &&& blobs.len() == items.len()
    &&& dsts.len() == items.len()
    &&& items[0].reference == dn
    &&& items[0].flags == ITEM_FLAG_DIR
    &&& items[0].offset == 0
    &&& items[0].length == 0
    &&& items[0].digest@ == sha1_of(Seq::empty())
    &&& blobs[0]@ == Seq::<u8>::empty()
    &&& nfiles == items.len() - 1
    &&& discovery_order_ok(dn, entries, items)
    &&& entries_units(entries, dn) == dst_units_sum(pairs)
    &&& entry_sources_ok(pairs, dn, entries)
    &&& entries.len() == dn + pairs.len()
    &&& (forall|t: int|
        0 <= t < dn ==> (#[trigger] entries[t]).dst@ == dirs[t]@ && entries[t].item_index == 0)
    &&& entries_files_ok(dn, entries, items)
    &&& items_blobs_ok(items, blobs)
    &&& pairs_covered(pairs, dn, entries, items)
    &&& items_distinct(items)
    &&& offsets_ok(items)
    &&& items[items.len() - 1].offset + items[items.len() - 1].length <= 0xFFFF_FFFF
    &&& refs_ok(entries, items)
    &&& (forall|t1: int, t2: int|
        dn <= t1 < t2 < entries.len() ==> key_le(
            entry_key(#[trigger] entries[t1]),
            entry_key(#[trigger] entries[t2]),
        ))
    &&& blobs_covered(pairs, items, blobs, dsts)
}

/// Builds the entry list and the deduplicated item table.
///
/// Directory paths become entries of the sentinel item 0; file pairs are
/// ordered by the solid sort key and folded into the table, reusing an item
/// whenever (length, digest) already occurs.  Counts or sizes that would
/// not fit the format's 16- and 32-bit fields reject the whole build.
#[verifier::loop_isolation(false)]
#[verifier::rlimit(100)]
pub fn build_entry_and_item(
    file_items: Vec<PackItem>,
    contents: Vec<Vec<u8>>,
    dir_items: &Vec<String>,
) -> (r: Result<(Vec<Entry>, Vec<Item>, Vec<Vec<u8>>, Vec<String>, usize), ArchiveError>)
    requires
        contents@.len() == file_items@.len(),
    ensures
        match r {
            Ok(out) => build_ok(
                zip_pairs(file_items@, contents@),
                dir_items@,
                out.0@,
                out.1@,
                out.2@,
                out.3@,
                out.4 as int,
            ),
            Err(e) => e == ArchiveError::LimitExceeded,
        },
        dir_items@.len() <= 0xFFFF && file_items@.len() + 1 <= MAX_ITEMS && total_blob_len(
            zip_pairs(file_items@, contents@),
        ) <= 0xFFFF_FFFF ==> r is Ok,
{
    let ghost input_pairs = zip_pairs(file_items@, contents@);
    let dn = dir_items.len();
    if dn > 0xFFFF {
        return Err(ArchiveError::LimitExceeded);
    }
    let mut entries: Vec<Entry> = Vec::new();
    let mut items: Vec<Item> = Vec::new();
    let mut blobs: Vec<Vec<u8>> = Vec::new();
    let mut dsts: Vec<String> = Vec::new();
    items.push(
        Item {
            digest: empty_sha1(),
            fname: String::new(),
            reference: dn as u16,
            flags: ITEM_FLAG_DIR,
            offset: 0,
            length: 0,
        },
    );
    blobs.push(Vec::new());
    dsts.push(String::new());
    push_dir_entries(&mut entries, dir_items);
    let pairs = zip_pack_pairs(file_items, contents);
    proof {
        assert(pairs@ =~= input_pairs);
        lemma_total_blob_len_nonneg(input_pairs);
    }
    let mut sorted = sort_pack_pairs(pairs);
    let ghost sorted0 = sorted@;
    let ghost nin = sorted0.len() as int;
    proof {
        assert(sorted.len() == nin);
    }

    let mut offset: usize = 0;
    let mut i: usize = 0;
    proof {
        assert(sorted0.take(0) =~= Seq::<(PackItem, Vec<u8>)>::empty());
        assert(build_inv(sorted0, dir_items@, entries@, items@, blobs@, dsts@, 0, 0)) by {
            reveal(entries_ok);
            reveal(items_blobs_ok);
            reveal(items_distinct);
            reveal(offsets_ok);
            reveal(refs_ok);
            reveal(blobs_covered);
            reveal(discovery_order_ok);
            assert(max_file_idx(entries@, dn as int) == 0);
            assert forall|j: int| 1 <= j < items@.len() implies (
            #[trigger] items@[j]).reference as int == count_index(entries@, j) by {}
        }
        assert(entries_units(entries@, dn as int) == 0);
        assert(dst_units_sum(sorted0.take(0)) == 0);
    }
    while sorted.len() > 0
        invariant
            sorted@ =~= sorted0.skip(i as int),
            i <= nin,
            nin == sorted0.len(),
            build_inv(sorted0, dir_items@, entries@, items@, blobs@, dsts@, offset as int, i as int),
            entries_units(entries@, dn as int) == dst_units_sum(sorted0.take(i as int)),
        decreases sorted@.len(),
    {
        let ghost sorted_before = sorted@;
        let pr = sorted.remove(0);
        proof {
            assert(sorted_before[0] == sorted0[i as int]);
            assert(sorted@ =~= sorted0.skip(i as int + 1));
            lemma_total_blob_len_take(sorted0, i as int);
        }
        let (p, bytes) = pr;
        let (length, digest) = content_scan(&bytes);
        let ghost e_new: Entry;
        match find_item(&items, length, &digest) {
            Some(idx) => {
                let old_ref = items[idx].reference;
                let old_flags = items[idx].flags;
                let old_off = items[idx].offset;
                let old_len = items[idx].length;
                if old_ref == 0xFFFF {
                    proof {
                        reveal(refs_ok);
                        assert(items@[idx as int].reference == old_ref);
                        lemma_count_index_bound(entries@, idx as int);
                        assert(count_index(entries@, idx as int) <= dn + i);
                        assert(!(file_items@.len() + 1 <= MAX_ITEMS)) by {
                            assert(count_index(entries@, idx as int) == 0xFFFF);
                            assert(dn + i >= 0xFFFF);
                            assert(i <= nin);
                            assert(dn <= 0xFFFF);
                            if nin + 1 <= MAX_ITEMS {
                                assert(forall|t: int|
                                    0 <= t < dn ==> (#[trigger] entries@[t]).item_index == 0) by {
                                    reveal(entries_ok);
                                }
                                lemma_count_dir_prefix(entries@, dn as int, idx as int);
                                assert(count_index(entries@, idx as int) <= i);
                                assert(i >= 0xFFFF);
                                assert(nin >= 0xFFFF);
                                assert(false);
                            }
                        }
                    }
                    return Err(ArchiveError::LimitExceeded);
                }
                let fname = p.src.clone();
                let ghost items_pre = items@;
                items.set(
                    idx,
                    Item {
                        digest,
                        fname,
                        reference: old_ref + 1,
                        flags: old_flags,
                        offset: old_off,
                        length: old_len,
                    },
                );
                let e = Entry { src: p.src, dst: p.dst, item_index: idx };
                proof {
                    lemma_build_step_dup(
                        sorted0,
                        dir_items@,
                        entries@,
                        items_pre,
                        items@,
                        blobs@,
                        dsts@,
                        offset as int,
                        i as int,
                        idx as int,
                        e,
                    );
                    lemma_entries_units_push(entries@, dn as int, e);
                    lemma_dst_units_take(sorted0, i as int);
                    assert(e.dst@ == sorted0[i as int].0.dst@);
                }
                entries.push(e);
            },
            None => {
                if items.len() >= MAX_ITEMS {
                    proof {
                        assert(items@.len() <= 1 + i);
                        assert(i >= MAX_ITEMS - 1);
                        assert(nin >= i + 1);
                        assert(!(file_items@.len() + 1 <= MAX_ITEMS));
                    }
                    return Err(ArchiveError::LimitExceeded);
                }
                if (length as u64) > 0xFFFF_FFFFu64 - (offset as u64) {
                    proof {
                        lemma_total_blob_len_take(sorted0, i as int + 1);
                        assert(total_blob_len(sorted0.take(i as int + 1)) == total_blob_len(
                            sorted0.take(i as int),
                        ) + length);
                        assert(total_blob_len(sorted0) >= total_blob_len(
                            sorted0.take(i as int + 1),
                        )) by {
                            lemma_total_blob_len_take(sorted0, i as int + 1);
                        }
                        assert(total_blob_len(input_pairs) > 0xFFFF_FFFF);
                    }
                    return Err(ArchiveError::LimitExceeded);
                }
                let idx = items.len();
                let fname = p.src.clone();
                let dst2 = p.dst.clone();
                let ghost items_pre = items@;
                let ghost blobs_pre = blobs@;
                let ghost dsts_pre = dsts@;
                let nitem = Item { digest, fname, reference: 1, flags: 0, offset, length };
                proof {
                    assert(nitem.digest@ == sha1_of(sorted0[i as int].1@));
                }
                let ghost nitem_g = nitem;
                let ghost nblob_g = bytes;
                let ghost ndst_g = dst2;
                items.push(nitem);
                blobs.push(bytes);
                dsts.push(dst2);
                let e = Entry { src: p.src, dst: p.dst, item_index: idx };
                proof {
                    lemma_build_step_new(
                        sorted0,
                        dir_items@,
                        entries@,
                        items_pre,
                        blobs_pre,
                        dsts_pre,
                        offset as int,
                        i as int,
                        e,
                        nitem_g,
                        nblob_g,
                        ndst_g,
                    );
                    lemma_entries_units_push(entries@, dn as int, e);
                    lemma_dst_units_take(sorted0, i as int);
                    assert(e.dst@ == sorted0[i as int].0.dst@);
                }
                entries.push(e);
                offset = offset + length;
                proof {
                    lemma_total_blob_len_take(sorted0, i as int);
                }
            },
        }
        proof {
            lemma_total_blob_len_take(sorted0, i as int);
            assert(i < nin);
        }
        i += 1;
    }

    let nfiles = items.len() - 1;
    proof {
        assert(sorted0.skip(nin) =~= Seq::<(PackItem, Vec<u8>)>::empty());
        assert(sorted0.take(nin) =~= sorted0);
        assert(entries_units(entries@, dn as int) == dst_units_sum(input_pairs));
        lemma_build_finish(input_pairs, sorted0, dir_items@, entries@, items@, blobs@, dsts@);
        assert(entries_files_ok(dn as int, entries@, items@)) by {
            reveal(entries_files_ok);
            reveal(entries_ok);
        }
        assert(forall|t: int|
            0 <= t < dn ==> (#[trigger] entries@[t]).dst@ == dir_items@[t]@
                && entries@[t].item_index == 0) by {
            reveal(entries_ok);
        }
    }
    Ok((entries, items, blobs, dsts, nfiles))
}


/// Carries the per-sorted-pair facts of the build loop over to the unsorted
/// input pairs, through the sort's permutation.
#[verifier::rlimit(100)]
pub proof fn lemma_build_finish(
    input_pairs: Seq<(PackItem, Vec<u8>)>,
    sorted0: Seq<(PackItem, Vec<u8>)>,
    dirs: Seq<String>,
    entries: Seq<Entry>,
    items: Seq<Item>,
    blobs: Seq<Vec<u8>>,
    dsts: Seq<String>,
)
    requires
        pairs_view(sorted0).to_multiset() == pairs_view(input_pairs).to_multiset(),
        entries.len() == dirs.len() + sorted0.len(),
        entries_ok(sorted0, dirs, entries, items),
        blobs_covered(sorted0, items, blobs, dsts),
        forall|i1: int, i2: int|
            0 <= i1 < i2 < sorted0.len() ==> key_le(
                pair_key(#[trigger] sorted0[i1]),
                pair_key(#[trigger] sorted0[i2]),
            ),
    ensures
        pairs_covered(input_pairs, dirs.len() as int, entries, items),
        entry_sources_ok(input_pairs, dirs.len() as int, entries),
        forall|t1: int, t2: int|
            dirs.len() <= t1 < t2 < entries.len() ==> key_le(
                entry_key(#[trigger] entries[t1]),
                entry_key(#[trigger] entries[t2]),
            ),
        blobs_covered(input_pairs, items, blobs, dsts),
{
    broadcast use vstd::seq_lib::group_to_multiset_ensures;

    reveal(entries_ok);
    reveal(blobs_covered);
    reveal(pairs_covered);
    let dn = dirs.len() as int;
    assert(pairs_view(sorted0).len() == sorted0.len());
    assert(pairs_view(input_pairs).len() == input_pairs.len());
    assert forall|q: int| 0 <= q < input_pairs.len() implies #[trigger] pair_cover_ok(
        input_pairs,
        dn,
        entries,
        items,
        q,
    ) by {
        let pv = pairs_view(input_pairs)[q];
        assert(pairs_view(input_pairs).to_multiset().count(pv) > 0);
        assert(pairs_view(sorted0).to_multiset().count(pv) > 0);
        assert(pairs_view(sorted0).contains(pv));
        let q2 = choose|q2: int|
            0 <= q2 < pairs_view(sorted0).len() && pairs_view(sorted0)[q2] == pv;
        assert(sorted0[q2].0.src@ == input_pairs[q].0.src@ && sorted0[q2].0.dst@
            == input_pairs[q].0.dst@ && sorted0[q2].1@ == input_pairs[q].1@);
        let e = entries[dn + q2];
        assert(e.src@ == sorted0[q2].0.src@ && e.dst@ == sorted0[q2].0.dst@);
        assert(items[e.item_index as int].length == sorted0[q2].1@.len());
        assert(items[e.item_index as int].digest@ == sha1_of(sorted0[q2].1@));
        assert(dn <= dn + q2 < entries.len() && entries[dn + q2].src@ == input_pairs[q].0.src@
            && entries[dn + q2].dst@ == input_pairs[q].0.dst@ && items[entries[dn
            + q2].item_index as int].length == input_pairs[q].1@.len() && items[entries[dn
            + q2].item_index as int].digest@ == sha1_of(input_pairs[q].1@));
    }
    assert(pairs_covered(input_pairs, dn, entries, items));
    assert forall|t: int| dn <= t < entries.len() implies #[trigger] entry_source_ok(
        input_pairs,
        entries,
        t,
    ) by {
        let q2 = t - dn;
        let pv = pairs_view(sorted0)[q2];
        assert(pairs_view(sorted0).to_multiset().count(pv) > 0);
        assert(pairs_view(input_pairs).to_multiset().count(pv) > 0);
        assert(pairs_view(input_pairs).contains(pv));
        let q = choose|q: int|
            0 <= q < pairs_view(input_pairs).len() && pairs_view(input_pairs)[q] == pv;
        assert(entries[t].src@ == input_pairs[q].0.src@ && entries[t].dst@
            == input_pairs[q].0.dst@);
    }
    assert forall|t1: int, t2: int| dn <= t1 < t2 < entries.len() implies key_le(
        entry_key(#[trigger] entries[t1]),
        entry_key(#[trigger] entries[t2]),
    ) by {
        assert(entries[t1].src@ == sorted0[t1 - dn].0.src@);
        assert(entries[t2].src@ == sorted0[t2 - dn].0.src@);
        assert(key_le(pair_key(sorted0[t1 - dn]), pair_key(sorted0[t2 - dn])));
    }
    assert forall|j: int| 1 <= j < items.len() implies #[trigger] blob_cover_ok(
        input_pairs,
        blobs,
        dsts,
        j,
    ) by {
        assert(blob_cover_ok(sorted0, blobs, dsts, j));
        let q2 = choose|q2: int|
            #![trigger sorted0[q2]]
            0 <= q2 < sorted0.len() && blobs[j]@ == sorted0[q2].1@ && dsts[j]@
                == sorted0[q2].0.dst@;
        let pv = pairs_view(sorted0)[q2];
        assert(pairs_view(sorted0).to_multiset().count(pv) > 0);
        assert(pairs_view(input_pairs).to_multiset().count(pv) > 0);
        assert(pairs_view(input_pairs).contains(pv));
        let q = choose|q: int|
            0 <= q < pairs_view(input_pairs).len() && pairs_view(input_pairs)[q] == pv;
        assert(0 <= q < input_pairs.len() && blobs[j]@ == input_pairs[q].1@ && dsts[j]@
            == input_pairs[q].0.dst@);
    }
    assert(blobs_covered(input_pairs, items, blobs, dsts));
}


/// Every file item's own range fits the 32-bit offsets, because the ranges
/// are consecutive and the last one ends under the ceiling.
#[verifier::rlimit(100)]
#[verifier::spinoff_prover]
pub proof fn lemma_item_bounds(items: Seq<Item>, j: int)
    requires
        offsets_ok(items),
        items.len() >= 1,
        items[items.len() - 1].offset + items[items.len() - 1].length <= 0xFFFF_FFFF,
        1 <= j < items.len(),
    ensures
        items[j].offset + items[j].length <= 0xFFFF_FFFF,
    decreases items.len() - j,
{
    reveal(offsets_ok);
    if j < items.len() - 1 {
        lemma_item_bounds(items, j + 1);
        assert(items[j + 1].offset == items[j].offset + items[j].length);
    }
}

/// Directory entries never count toward a file item.
pub proof fn lemma_count_dir_prefix(es: Seq<Entry>, dn: int, idx: int)
    requires
        0 <= dn <= es.len(),
        idx >= 1,
        forall|j: int| 0 <= j < dn ==> (#[trigger] es[j]).item_index == 0,
    ensures
        count_index(es, idx) <= es.len() - dn,
    decreases es.len(),
{
    if es.len() > dn {
        lemma_count_dir_prefix(es.drop_last(), dn, idx);
    } else if es.len() > 0 {
        assert(es.last().item_index == 0);
        lemma_count_dir_prefix(es.drop_last(), dn - 1, idx);
    }
}

/// One position referencing an item gives it at least one counted
/// reference.
pub proof fn lemma_count_one(es: Seq<Entry>, idx: int, t1: int)
    requires
        0 <= t1 < es.len(),
        es[t1].item_index == idx,
    ensures
        count_index(es, idx) >= 1,
    decreases es.len(),
{
    if t1 == es.len() - 1 {
        lemma_count_index_bound(es.drop_last(), idx);
    } else {
        lemma_count_one(es.drop_last(), idx, t1);
    }
}

/// Nothing references an item that does not exist yet.
pub proof fn lemma_count_zero(es: Seq<Entry>, idx: int)
    requires
        forall|j: int| 0 <= j < es.len() ==> (#[trigger] es[j]).item_index < idx,
    ensures
        count_index(es, idx) == 0,
    decreases es.len(),
{
    if es.len() > 0 {
        lemma_count_zero(es.drop_last(), idx);
    }
}

/// Compares two unit vectors for equality.
pub fn bytes16_eq(a: &Vec<u16>, b: &Vec<u16>) -> (r: bool)
    ensures
        r == (a@ == b@),
{
    if a.len() != b.len() {
        proof {
            assert(a@ != b@);
        }
        return false;
    }
    let mut i: usize = 0;
    while i < a.len()
        invariant
            i <= a@.len(),
            a@.len() == b@.len(),
            forall|t: int| 0 <= t < i ==> a@[t] == b@[t],
        decreases a@.len() - i,
    {
        if a[i] != b[i] {
            return false;
        }
        i += 1;
    }
    proof {
        assert(a@ =~= b@);
    }
    true
}

} // verus!
