//! Properties that tie the components together: what the path index yields,
//! when contents share one item, and what an archive's chunks give back.

use vstd::prelude::*;
use crate::builder::build_ok;
use crate::builder::count_index;
use crate::builder::item_matches;
use crate::builder::items_distinct;
use crate::builder::pair_cover_ok;
use crate::builder::pairs_covered;
use crate::builder::refs_ok;
use crate::builder::Entry;
use crate::codec::sha1_of;
use crate::file_format::ser_header;
use crate::file_format::Item;
use crate::file_format::Node;
use crate::packager::chunk_decodes;
use crate::packager::chunk_encodes;
use crate::packager::pack_witness_ok;
use crate::packager::PackItem;
use crate::packager::PackWitness;
use crate::trie::dfs_entries;
use crate::trie::lemma_dfs_complete;
use crate::trie::lemma_dfs_distinct;
use crate::trie::lemma_dfs_sound;
use crate::trie::table_view;
use crate::trie::wf;

verus! {

/// The depth-first enumeration of a well-formed trie yields exactly the set
/// of stored (path, value) pairs: each emitted pair is stored, each stored
/// pair is emitted, and no path appears twice, regardless of the order in
/// which the paths were inserted.
pub proof fn lemma_iterate_exact(ns: Seq<Node>)
    requires
        wf(ns),
    ensures
        forall|j: int|
            0 <= j < dfs_entries(ns, 0, Seq::empty()).len() ==> table_view(ns).contains_key(
                (#[trigger] dfs_entries(ns, 0, Seq::empty())[j]).0,
            ) && table_view(ns)[dfs_entries(ns, 0, Seq::empty())[j].0] == dfs_entries(
                ns,
                0,
                Seq::empty(),
            )[j].1,
        forall|k: Seq<u16>| #[trigger]
            table_view(ns).contains_key(k) ==> exists|j: int|
                0 <= j < dfs_entries(ns, 0, Seq::empty()).len() && (#[trigger] dfs_entries(
                    ns,
                    0,
                    Seq::empty(),
                )[j]) == (k, table_view(ns)[k]),
        forall|j1: int, j2: int|
            0 <= j1 < j2 < dfs_entries(ns, 0, Seq::empty()).len() ==> (#[trigger] dfs_entries(
                ns,
                0,
                Seq::empty(),
            )[j1]).0 != (#[trigger] dfs_entries(ns, 0, Seq::empty())[j2]).0,
{
    let es = dfs_entries(ns, 0, Seq::empty());
    let m = table_view(ns);
    lemma_dfs_sound(ns, 0, Seq::empty());
    lemma_dfs_complete(ns, 0, Seq::empty());
    lemma_dfs_distinct(ns, 0, Seq::empty());
    assert forall|j: int| 0 <= j < es.len() implies m.contains_key((#[trigger] es[j]).0)
        && m[es[j].0] == es[j].1 by {
        assert(es[j].0.skip(0) =~= es[j].0);
    }
    assert forall|k: Seq<u16>| #[trigger] m.contains_key(k) implies exists|j: int|
        0 <= j < es.len() && (#[trigger] es[j]) == (k, m[k]) by {
        let j = choose|j: int|
            0 <= j < es.len() && (#[trigger] es[j]).0 == Seq::<u16>::empty() + k && es[j].1 == m[k];
        assert(Seq::<u16>::empty() + k =~= k);
        assert(0 <= j < es.len() && es[j] == (k, m[k]));
    }
}

/// Two distinct positions referencing one item give it at least two counted
/// references.
pub proof fn lemma_count_two(es: Seq<Entry>, idx: int, t1: int, t2: int)
    requires
        0 <= t1 < t2 < es.len(),
        es[t1].item_index == idx,
        es[t2].item_index == idx,
    ensures
        count_index(es, idx) >= 2,
    decreases es.len(),
{
    if t2 == es.len() - 1 {
        crate::builder::lemma_count_one(es.drop_last(), idx, t1);
    } else {
        lemma_count_two(es.drop_last(), idx, t1, t2);
        crate::builder::lemma_count_index_bound(es.drop_last(), idx);
    }
}

/// Two distinct source files with identical bytes collapse to one item of
/// the table, whose reference count is at least two.
pub proof fn lemma_dedup_shares_item(
    pairs: Seq<(PackItem, Vec<u8>)>,
    dirs: Seq<String>,
    entries: Seq<Entry>,
    items: Seq<Item>,
    blobs: Seq<Vec<u8>>,
    dsts: Seq<String>,
    nfiles: int,
    q1: int,
    q2: int,
)
    requires
        build_ok(pairs, dirs, entries, items, blobs, dsts, nfiles),
        0 <= q1 < q2 < pairs.len(),
        pairs[q1].1@ == pairs[q2].1@,
        pairs[q1].0.src@ != pairs[q2].0.src@ || pairs[q1].0.dst@ != pairs[q2].0.dst@,
    ensures
        exists|idx: int|
            1 <= idx < items.len() && (#[trigger] items[idx]).reference >= 2 && items[idx].length
                == pairs[q1].1@.len() && items[idx].digest@ == sha1_of(pairs[q1].1@),
{
    let dn = dirs.len() as int;
    reveal(pairs_covered);
    assert(pair_cover_ok(pairs, dn, entries, items, q1));
    assert(pair_cover_ok(pairs, dn, entries, items, q2));
    let t1 = choose|t: int|
        #![trigger entries[t]]
        dn <= t < entries.len() && entries[t].src@ == pairs[q1].0.src@ && entries[t].dst@
            == pairs[q1].0.dst@ && items[entries[t].item_index as int].length == pairs[q1].1@.len()
            && items[entries[t].item_index as int].digest@ == sha1_of(pairs[q1].1@);
    let t2 = choose|t: int|
        #![trigger entries[t]]
        dn <= t < entries.len() && entries[t].src@ == pairs[q2].0.src@ && entries[t].dst@
            == pairs[q2].0.dst@ && items[entries[t].item_index as int].length == pairs[q2].1@.len()
            && items[entries[t].item_index as int].digest@ == sha1_of(pairs[q2].1@);
    assert(t1 != t2);
    let i1 = entries[t1].item_index as int;
    let i2 = entries[t2].item_index as int;
    assert(1 <= i1 < items.len() && 1 <= i2 < items.len()) by {
        reveal(crate::builder::entries_files_ok);
    }
    assert(item_matches(items[i1], pairs[q1].1@.len() as int, sha1_of(pairs[q1].1@)));
    assert(item_matches(items[i2], pairs[q1].1@.len() as int, sha1_of(pairs[q1].1@)));
    assert(i1 == i2) by {
        reveal(items_distinct);
        if i1 != i2 {
            if i1 < i2 {
                assert(!(items[i1].length == items[i2].length && items[i1].digest@
                    == items[i2].digest@));
            } else {
                assert(!(items[i2].length == items[i1].length && items[i2].digest@
                    == items[i1].digest@));
            }
            assert(false);
        }
    }
    assert(items[i1].reference as int == count_index(entries, i1)) by {
        reveal(refs_ok);
    }
    if t1 < t2 {
        lemma_count_two(entries, i1, t1, t2);
    } else {
        lemma_count_two(entries, i1, t2, t1);
    }
    assert(1 <= i1 < items.len() && items[i1].reference >= 2 && items[i1].length
        == pairs[q1].1@.len() && items[i1].digest@ == sha1_of(pairs[q1].1@));
}

/// A chunk whose compression would not save at least a fifth is stored
/// uncompressed, its payload exactly the content.
pub proof fn lemma_poor_compression_stored(
    dst: Seq<char>,
    content: Seq<u8>,
    c: crate::file_format::ChunkView,
    payload: Seq<u8>,
)
    requires
        chunk_encodes(dst, content, c, payload),
        !(crate::codec::lzf_of(content) matches Some(cc) && cc.len() < content.len() * 4 / 5),
    ensures
        c.algorithm == 0,
        payload == content,
{
}

/// Duplicated content is stored once: in a packed archive, two pack inputs
/// with identical bytes under different paths share one item, referenced
/// twice; no other item carries that content's dedup key, so its bytes
/// stand in exactly one chunk, whose stored payload is never larger than
/// the content itself.  Storing the two copies independently would add a
/// second such chunk, so the archive is strictly smaller than that.
pub proof fn lemma_dedup_stored_once(
    fis: Seq<PackItem>,
    cts: Seq<Vec<u8>>,
    dirs: Seq<String>,
    bytes: Seq<u8>,
    w: PackWitness,
    q1: int,
    q2: int,
)
    requires
        pack_witness_ok(fis, cts, dirs, bytes, w),
        0 <= q1 < q2 < fis.len(),
        cts[q1]@ == cts[q2]@,
        fis[q1].src@ != fis[q2].src@ || fis[q1].dst@ != fis[q2].dst@,
    ensures
        exists|idx: int|
            {
                &&& 1 <= idx < w.items.len()
                &&& (#[trigger] w.items[idx]).reference >= 2
                &&& w.items[idx].length == cts[q1]@.len()
                &&& w.items[idx].digest@ == sha1_of(cts[q1]@)
                &&& (forall|j: int|
                    1 <= j < w.items.len() && (#[trigger] w.items[j]).length == cts[q1]@.len()
                        && w.items[j].digest@ == sha1_of(cts[q1]@) ==> j == idx)
                &&& w.pbufs[idx - 1]@.len() <= cts[q1]@.len()
            },
{
    let pairs = crate::builder::zip_pairs(fis, cts);
    assert(pairs[q1] == (fis[q1], cts[q1]) && pairs[q2] == (fis[q2], cts[q2]));
    lemma_dedup_shares_item(
        pairs,
        dirs,
        w.entries,
        w.items,
        w.blobs,
        w.dsts,
        w.items.len() - 1,
        q1,
        q2,
    );
    let idx = choose|idx: int|
        1 <= idx < w.items.len() && (#[trigger] w.items[idx]).reference >= 2 && w.items[idx].length
            == pairs[q1].1@.len() && w.items[idx].digest@ == sha1_of(pairs[q1].1@);
    assert forall|j: int|
        1 <= j < w.items.len() && (#[trigger] w.items[j]).length == cts[q1]@.len()
            && w.items[j].digest@ == sha1_of(cts[q1]@) implies j == idx by {
        reveal(items_distinct);
        if j != idx {
            if j < idx {
                assert(!(w.items[j].length == w.items[idx].length && w.items[j].digest@
                    == w.items[idx].digest@));
            } else {
                assert(!(w.items[idx].length == w.items[j].length && w.items[idx].digest@
                    == w.items[j].digest@));
            }
            assert(false);
        }
    }
    assert(chunk_encodes(
        w.dsts[idx]@,
        w.blobs[idx]@,
        w.h.chunks[idx - 1],
        w.pbufs[idx - 1]@,
    ));
    assert(w.items[idx]@ == w.h.items[idx]);
    assert(w.blobs[idx]@.len() == w.items[idx].length) by {
        reveal(crate::builder::items_blobs_ok);
    }
    assert(w.pbufs[idx - 1]@.len() <= w.blobs[idx]@.len());
}

/// Whatever decodes out of a packed archive's chunk is exactly the content
/// that was packed into it: decompression undoes the store-or-compress
/// decision byte for byte.
pub proof fn lemma_pack_chunks_recoverable(
    fis: Seq<PackItem>,
    cts: Seq<Vec<u8>>,
    dirs: Seq<String>,
    bytes: Seq<u8>,
    w: PackWitness,
    k: int,
    d: Seq<u8>,
)
    requires
        pack_witness_ok(fis, cts, dirs, bytes, w),
        0 <= k < w.h.chunks.len(),
        chunk_decodes(w.h.chunks[k], w.pbufs[k]@, d),
    ensures
        d == w.blobs[k + 1]@,
{
    assert(chunk_encodes(w.dsts[k + 1]@, w.blobs[k + 1]@, w.h.chunks[k], w.pbufs[k]@));
    assert(w.blobs[k + 1]@.len() == w.h.chunks[k].length);
    crate::packager::lemma_chunk_round_trip(
        w.dsts[k + 1]@,
        w.blobs[k + 1]@,
        w.h.chunks[k],
        w.pbufs[k]@,
        d,
    );
}

/// Unpacking a packed archive decodes the packed bytes back: for every
/// chunk, whatever an unpack run's decoded stream holds for it is exactly
/// the unique item's content that `pack` encoded into it.
pub proof fn lemma_unpack_restores_pack_chunks(
    fis: Seq<PackItem>,
    cts: Seq<Vec<u8>>,
    dirs: Seq<String>,
    bytes: Seq<u8>,
    w: PackWitness,
    payload: Seq<u8>,
    out: Seq<crate::packager::UnpackEntry>,
    sp: Seq<(Seq<u16>, u16)>,
    k: int,
)
    requires
        pack_witness_ok(fis, cts, dirs, bytes, w),
        payload == bytes.skip(ser_header(w.h).len() as int),
        crate::packager::unpacked_paths_ok(w.h, payload, out, sp),
        0 <= k < w.h.chunks.len(),
    ensures
        crate::packager::spec_decode_chunks(w.h.chunks, payload)->Ok_0[k] == w.blobs[k + 1]@,
{
    let ds = crate::packager::spec_decode_chunks(w.h.chunks, payload)->Ok_0;
    assert(payload =~= crate::packager::stream_of(w.pbufs));
    lemma_pbufs_slices(w.h.chunks, w.pbufs, k);
    assert(chunk_decodes(
        w.h.chunks[k],
        payload.subrange(
            crate::packager::cum_clen(w.h.chunks, k),
            crate::packager::cum_clen(w.h.chunks, k) + w.h.chunks[k].compressed_length,
        ),
        ds[k],
    ));
    assert(payload.subrange(
        crate::packager::cum_clen(w.h.chunks, k),
        crate::packager::cum_clen(w.h.chunks, k) + w.h.chunks[k].compressed_length,
    ) == w.pbufs[k]@);
    assert(chunk_encodes(w.dsts[k + 1]@, w.blobs[k + 1]@, w.h.chunks[k], w.pbufs[k]@));
    lemma_pack_chunks_recoverable(fis, cts, dirs, bytes, w, k, ds[k]);
}

/// In a packed archive the payload slice of chunk `k` is exactly the
/// buffer `pack` wrote for it.
pub proof fn lemma_pbufs_slices(
    cs: Seq<crate::file_format::ChunkView>,
    pbufs: Seq<Vec<u8>>,
    k: int,
)
    requires
        pbufs.len() == cs.len(),
        forall|j: int|
            0 <= j < cs.len() ==> (#[trigger] cs[j]).compressed_length == pbufs[j]@.len(),
        0 <= k < cs.len(),
    ensures
        crate::packager::cum_clen(cs, k) == crate::packager::stream_of(pbufs.take(k)).len(),
        crate::packager::stream_of(pbufs).subrange(
            crate::packager::cum_clen(cs, k),
            crate::packager::cum_clen(cs, k) + cs[k].compressed_length,
        ) == pbufs[k]@,
    decreases k,
{
    if k > 0 {
        lemma_pbufs_slices(cs, pbufs, k - 1);
        crate::packager::lemma_stream_of_take(pbufs, k - 1);
    }
    crate::packager::lemma_stream_slice(pbufs, k);
}

} // verus!
