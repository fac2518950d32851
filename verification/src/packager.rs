//! Packing, unpacking and listing of archives, over in-memory bytes.
//!
//! `pack` builds the whole archive in a byte vector, writing a placeholder
//! chunk table first and patching it once real compressed sizes are known.
//! `unpack` parses the header, replays the chunk stream and resolves each
//! stored path; `list` stops after the path index.

use vstd::prelude::*;
use vstd::multiset::Multiset;
use crate::builder::build_ok;
use crate::builder::total_blob_len;
use crate::builder::dst_units_sum;
use crate::builder::entries_units;
use crate::builder::zip_pairs;
use crate::builder::Entry;
use crate::codec::is_lzf_preimage;
use crate::file_format::chunks_view;
use crate::file_format::items_view;
use crate::file_format::parse_header;
use crate::file_format::ser_header;
use crate::file_format::serialize_header;
use crate::file_format::update_header_data;
use crate::file_format::ArchiveError;
use crate::file_format::Chunk;
use crate::file_format::Header;
use crate::file_format::Item;
use crate::text::encode_utf16_units;
use crate::text::utf16_of;
use crate::trie::table_view;
use crate::trie::wf;
use crate::trie::LookupTable;
use crate::codec::lzf_of;
use crate::codec::lzf_pack;
use crate::codec::lzf_unpack;
use crate::text::ends_with;
use crate::text::ends_with_chars;
use crate::text::lower_of;
use crate::text::lower_str;

verus! {

/// One (source path, destination path) pair handed to `pack`.
#[derive(Clone, Debug)]
pub struct PackItem {
    /// Path the bytes come from.
    pub src: String,
    /// Forward-slash, root-anchored path inside the archive.
    pub dst: String,
}

/// Whether a lower-cased destination names an already-compressed image.
pub open spec fn is_image_name(s: Seq<char>) -> bool {
    ||| ends_with(s, seq!['.', 'p', 'n', 'g'])
    ||| ends_with(s, seq!['.', 'g', 'i', 'f'])
    ||| ends_with(s, seq!['.', 'j', 'p', 'g'])
    ||| ends_with(s, seq!['.', 'j', 'p', 'e', 'g'])
}

/// Whether compression should even be attempted for this destination name.
///
/// Known pre-compressed image kinds are always stored raw.
pub fn need_compress(fname: &str) -> (r: bool)
    ensures
        r == !is_image_name(lower_of(fname@)),
{
    let low = lower_str(fname);
    let mut png: Vec<char> = Vec::new();
    png.push('.');
    png.push('p');
    png.push('n');
    png.push('g');
    let mut gif: Vec<char> = Vec::new();
    gif.push('.');
    gif.push('g');
    gif.push('i');
    gif.push('f');
    let mut jpg: Vec<char> = Vec::new();
    jpg.push('.');
    jpg.push('j');
    jpg.push('p');
    jpg.push('g');
    let mut jpeg: Vec<char> = Vec::new();
    jpeg.push('.');
    jpeg.push('j');
    jpeg.push('p');
    jpeg.push('e');
    jpeg.push('g');
    proof {
        assert(png@ =~= seq!['.', 'p', 'n', 'g']);
        assert(gif@ =~= seq!['.', 'g', 'i', 'f']);
        assert(jpg@ =~= seq!['.', 'j', 'p', 'g']);
        assert(jpeg@ =~= seq!['.', 'j', 'p', 'e', 'g']);
    }
    let s = low.as_str();
    let is_image = ends_with_chars(s, &png) || ends_with_chars(s, &gif) || ends_with_chars(s, &jpg)
        || ends_with_chars(s, &jpeg);
    !is_image
}

// ---------------------------------------------------------------------------
// The logical byte stream behind a list of buffers
// ---------------------------------------------------------------------------

/// All buffers concatenated: the logical uncompressed stream.
pub open spec fn stream_of(bufs: Seq<Vec<u8>>) -> Seq<u8>
    decreases bufs.len(),
{
    if bufs.len() == 0 {
        Seq::empty()
    } else {
        stream_of(bufs.drop_last()) + bufs.last()@
    }
}

/// Extending the buffer list appends its bytes to the stream.
pub proof fn lemma_stream_of_take(bufs: Seq<Vec<u8>>, i: int)
    requires
        0 <= i < bufs.len(),
    ensures
        stream_of(bufs.take(i + 1)) == stream_of(bufs.take(i)) + bufs[i]@,
{
    assert(bufs.take(i + 1).drop_last() =~= bufs.take(i));
    assert(bufs.take(i + 1).last() == bufs[i]);
}

/// A prefix of the buffer list yields a prefix of the stream.
pub proof fn lemma_stream_prefix(bufs: Seq<Vec<u8>>, i: int)
    requires
        0 <= i <= bufs.len(),
    ensures
        stream_of(bufs.take(i)).len() <= stream_of(bufs).len(),
        forall|t: int|
            0 <= t < stream_of(bufs.take(i)).len() ==> #[trigger] stream_of(bufs)[t] == stream_of(
                bufs.take(i),
            )[t],
    decreases bufs.len() - i,
{
    if i == bufs.len() {
        assert(bufs.take(i) =~= bufs);
    } else {
        lemma_stream_of_take(bufs, i);
        lemma_stream_prefix(bufs, i + 1);
        assert(forall|t: int|
            0 <= t < stream_of(bufs.take(i)).len() ==> #[trigger] stream_of(bufs.take(i + 1))[t]
                == stream_of(bufs.take(i))[t]);
    }
}

/// A cursor that drains the logical stream of a buffer list in order.
///
/// During unpacking the buffers are the decompressed chunks; the cursor
/// serves byte ranges that may span several of them.
pub struct BufferWriter {
    /// The decoded buffers, one per chunk.
    pub bufs: Vec<Vec<u8>>,
    /// The buffer the cursor stands in.
    pub curr_index: usize,
    /// How far into that buffer it stands.
    pub curr_offset: usize,
}

impl BufferWriter {
    /// How many bytes of the stream are already consumed.
    pub open spec fn consumed(&self) -> int {
        stream_of(self.bufs@.take(self.curr_index as int)).len() + self.curr_offset
    }

    /// The cursor stands inside (or at the end of) the buffer list.
    pub open spec fn wf(&self) -> bool {
        &&& self.curr_index <= self.bufs@.len()
        &&& (self.curr_index < self.bufs@.len() ==> self.curr_offset
            <= self.bufs@[self.curr_index as int]@.len())
        &&& (self.curr_index == self.bufs@.len() ==> self.curr_offset == 0)
    }

    /// A fresh cursor at the front of the stream.
    pub fn new(bufs: Vec<Vec<u8>>) -> (r: BufferWriter)
        ensures
            r.wf(),
            r.bufs@ == bufs@,
            r.consumed() == 0,
    {
        let r = BufferWriter { bufs, curr_index: 0, curr_offset: 0 };
        proof {
            assert(r.bufs@.take(0) =~= Seq::<Vec<u8>>::empty());
        }
        r
    }

    /// Moves the cursor past consumed and empty buffers.
    #[verifier::loop_isolation(false)]
    pub fn fetch(&mut self)
        requires
            old(self).wf(),
        ensures
            final(self).wf(),
            final(self).bufs@ == old(self).bufs@,
            final(self).consumed() == old(self).consumed(),
            ({
                let fs = *final(self);
                fs.curr_index < fs.bufs@.len() ==> fs.curr_offset
                    < fs.bufs@[fs.curr_index as int]@.len()
            }),
    {
        while self.curr_index < self.bufs.len() && self.curr_offset >= self.bufs[
            self.curr_index
        ].len()
            invariant
                self.wf(),
                self.bufs@ == old(self).bufs@,
                self.consumed() == old(self).consumed(),
            decreases self.bufs@.len() - self.curr_index,
        {
            proof {
                lemma_stream_of_take(self.bufs@, self.curr_index as int);
                assert(self.curr_offset == self.bufs@[self.curr_index as int]@.len());
            }
            self.curr_index = self.curr_index + 1;
            self.curr_offset = 0;
        }
    }

    /// Serves the next `length` bytes of the stream, or reports corruption
    /// when fewer remain.
    #[verifier::loop_isolation(false)]
    #[verifier::rlimit(60)]
    pub fn write(&mut self, length: usize) -> (r: Result<Vec<u8>, crate::file_format::ArchiveError>)
        requires
            old(self).wf(),
        ensures
            final(self).wf(),
            final(self).bufs@ == old(self).bufs@,
            match r {
                Ok(out) => {
                    &&& old(self).consumed() + length <= stream_of(old(self).bufs@).len()
                    &&& out@ == stream_of(old(self).bufs@).subrange(
                        old(self).consumed(),
                        old(self).consumed() + length,
                    )
                    &&& final(self).consumed() == old(self).consumed() + length
                },
                Err(e) => {
                    &&& e == crate::file_format::ArchiveError::DataCorrupted
                    &&& old(self).consumed() + length > stream_of(old(self).bufs@).len()
                },
            },
    {
        let ghost start = old(self).consumed();
        let ghost total = stream_of(self.bufs@);
        let mut out: Vec<u8> = Vec::new();
        let mut remain = length;
        proof {
            lemma_stream_prefix(self.bufs@, self.bufs@.len() as int);
            if self.curr_index < self.bufs.len() {
                lemma_stream_of_take(self.bufs@, self.curr_index as int);
                lemma_stream_prefix(self.bufs@, self.curr_index as int + 1);
            } else {
                assert(self.bufs@.take(self.curr_index as int) =~= self.bufs@);
            }
            assert(self.consumed() <= total.len());
        }
        while remain > 0
            invariant
                self.wf(),
                self.bufs@ == old(self).bufs@,
                remain <= length,
                out@.len() == length - remain,
                self.consumed() == start + out@.len(),
                start + out@.len() <= total.len(),
                forall|t: int|
                    0 <= t < out@.len() ==> start + t < total.len() && #[trigger] out@[t]
                        == total[start + t],
            decreases remain,
        {
            self.fetch();
            if self.curr_index >= self.bufs.len() {
                proof {
                    assert(self.bufs@.take(self.curr_index as int) =~= self.bufs@);
                    assert(self.consumed() == total.len());
                }
                return Err(crate::file_format::ArchiveError::DataCorrupted);
            }
            let ghost ci = self.curr_index as int;
            let avail = self.bufs[self.curr_index].len() - self.curr_offset;
            let n = if remain < avail {
                remain
            } else {
                avail
            };
            proof {
                lemma_stream_prefix(self.bufs@, ci);
                lemma_stream_of_take(self.bufs@, ci);
                lemma_stream_prefix(self.bufs@, ci + 1);
            }
            let mut t: usize = 0;
            while t < n
                invariant
                    t <= n,
                    self.wf(),
                    self.bufs@ == old(self).bufs@,
                    self.curr_index < self.bufs@.len(),
                    self.curr_index == ci,
                    n <= self.bufs@[ci]@.len() - self.curr_offset,
                    out@.len() == length - remain + t,
                    self.consumed() == start + out@.len() - t,
                    forall|tt: int|
                        0 <= tt < out@.len() ==> start + tt < total.len() && #[trigger] out@[tt]
                            == total[start + tt],
                    forall|tt: int|
                        0 <= tt < self.bufs@[ci]@.len() ==> #[trigger] self.bufs@[ci]@[tt]
                            == total[stream_of(self.bufs@.take(ci)).len() + tt],
                decreases n - t,
            {
                out.push(self.bufs[self.curr_index][self.curr_offset + t]);
                t += 1;
            }
            self.curr_offset = self.curr_offset + n;
            remain = remain - n;
            proof {
                assert(self.consumed() <= stream_of(self.bufs@.take(ci + 1)).len());
            }
        }
        proof {
            assert(out@ =~= total.subrange(start, start + length));
        }
        Ok(out)
    }
}

/// A cursor that serves the items' contents in id order while packing.
pub struct BufferFiller {
    /// The cursor over the items' content buffers.
    pub inner: BufferWriter,
}

impl BufferFiller {
    /// A filler at the front of the given contents.
    pub fn new(blobs: Vec<Vec<u8>>) -> (r: BufferFiller)
        ensures
            r.inner.wf(),
            r.inner.bufs@ == blobs@,
            r.inner.consumed() == 0,
    {
        BufferFiller { inner: BufferWriter::new(blobs) }
    }

    /// Reads the next `want` bytes of the concatenated contents.
    pub fn fill(&mut self, want: usize) -> (r: Result<
        Vec<u8>,
        crate::file_format::ArchiveError,
    >)
        requires
            old(self).inner.wf(),
        ensures
            final(self).inner.wf(),
            final(self).inner.bufs@ == old(self).inner.bufs@,
            match r {
                Ok(out) => {
                    &&& old(self).inner.consumed() + want <= stream_of(old(self).inner.bufs@).len()
                    &&& out@ == stream_of(old(self).inner.bufs@).subrange(
                        old(self).inner.consumed(),
                        old(self).inner.consumed() + want,
                    )
                    &&& final(self).inner.consumed() == old(self).inner.consumed() + want
                },
                Err(e) => e == crate::file_format::ArchiveError::DataCorrupted && old(
                    self,
                ).inner.consumed() + want > stream_of(old(self).inner.bufs@).len(),
            },
    {
        self.inner.write(want)
    }
}

// ---------------------------------------------------------------------------
// Chunk encoding
// ---------------------------------------------------------------------------

/// What one chunk record and its payload must be for a destination name and
/// content: compressed when the name is no image and compression saves at
/// least a fifth, stored raw otherwise.
pub open spec fn chunk_encodes(
    dst: Seq<char>,
    content: Seq<u8>,
    c: crate::file_format::ChunkView,
    payload: Seq<u8>,
) -> bool {
    &&& c.flags == 0
    &&& c.length == content.len()
    &&& c.compressed_length == payload.len()
    &&& if !is_image_name(lower_of(dst)) && lzf_of(content) is Some
        && lzf_of(content).unwrap().len() < content.len() * 4 / 5 {
        c.algorithm == 1 && lzf_of(content) == Some(payload)
    } else {
        c.algorithm == 0 && payload == content
    }
}

/// Whether a stored chunk and its payload slice decode to exactly `d`.
pub open spec fn chunk_decodes(
    c: crate::file_format::ChunkView,
    slice: Seq<u8>,
    d: Seq<u8>,
) -> bool {
    &&& d.len() == c.length
    &&& if c.algorithm == 0 {
        d == slice
    } else {
        c.algorithm == 1 && is_lzf_preimage(d, slice, c.length as int)
    }
}

/// An encoded chunk decodes back to the content it encodes.
pub proof fn lemma_chunk_round_trip(
    dst: Seq<char>,
    content: Seq<u8>,
    c: crate::file_format::ChunkView,
    payload: Seq<u8>,
    d: Seq<u8>,
)
    requires
        content.len() <= 0xFFFF_FFFF,
        chunk_encodes(dst, content, c, payload),
        chunk_decodes(c, payload, d),
    ensures
        d == content,
{
    if c.algorithm == 1 {
        assert(lzf_of(content) == Some(payload));
        assert(content.len() == c.length);
    }
}

/// Picks store or compression for one item's bytes and emits the chunk
/// record with the bytes to write.
pub fn encode_chunk(dst: &str, content: Vec<u8>) -> (r: (crate::file_format::Chunk, Vec<u8>))
    requires
        content@.len() <= 0xFFFF_FFFF,
    ensures
        chunk_encodes(dst@, content@, r.0@, r.1@),
        r.0.length == content@.len(),
        r.0.compressed_length == r.1@.len(),
{
    let len = content.len();
    if need_compress(dst) {
        match lzf_pack(content.as_slice()) {
            Some(cb) => {
                if (cb.len() as u64) < (len as u64) * 4 / 5 {
                    proof {
                        assert(cb@.len() < content@.len() * 4 / 5);
                    }
                    let c = crate::file_format::Chunk {
                        algorithm: crate::file_format::AlgorithmType::Lzf,
                        flags: 0,
                        length: len,
                        compressed_length: cb.len(),
                    };
                    return (c, cb);
                }
            },
            None => {},
        }
    }
    let c = crate::file_format::Chunk {
        algorithm: crate::file_format::AlgorithmType::Store,
        flags: 0,
        length: len,
        compressed_length: len,
    };
    (c, content)
}

// ---------------------------------------------------------------------------
// Packing
// ---------------------------------------------------------------------------

/// The path-to-id map that inserting the entries in order builds: the first
/// entry for a path wins.
pub open spec fn entries_map(es: Seq<Entry>) -> Map<Seq<u16>, u16>
    decreases es.len(),
{
    if es.len() == 0 {
        Map::empty()
    } else {
        let m = entries_map(es.drop_last());
        let key = utf16_of(es.last().dst@);
        if m.contains_key(key) {
            m
        } else {
            m.insert(key, es.last().item_index as u16)
        }
    }
}

/// Checks that a destination path is free of NUL characters.
#[verifier::loop_isolation(false)]
pub fn path_units_ok(s: &str) -> (r: bool)
    ensures
        r == (forall|j: int| 0 <= j < utf16_of(s@).len() ==> utf16_of(s@)[j] != 0),
{
    let units = encode_utf16_units(s);
    let mut j: usize = 0;
    while j < units.len()
        invariant
            j <= units@.len(),
            forall|t: int| 0 <= t < j ==> units@[t] != 0,
        decreases units@.len() - j,
    {
        if units[j] == 0 {
            return false;
        }
        j += 1;
    }
    true
}

/// One buffer's bytes sit at its own offset of the logical stream.
pub proof fn lemma_stream_slice(bufs: Seq<Vec<u8>>, i: int)
    requires
        0 <= i < bufs.len(),
    ensures
        stream_of(bufs.take(i)).len() + bufs[i]@.len() <= stream_of(bufs).len(),
        stream_of(bufs).subrange(
            stream_of(bufs.take(i)).len() as int,
            stream_of(bufs.take(i)).len() + bufs[i]@.len() as int,
        ) == bufs[i]@,
{
    lemma_stream_of_take(bufs, i);
    lemma_stream_prefix(bufs, i + 1);
    let p = stream_of(bufs.take(i)).len() as int;
    assert(stream_of(bufs).subrange(p, p + bufs[i]@.len() as int) =~= bufs[i]@) by {
        assert(forall|t: int|
            0 <= t < bufs[i]@.len() ==> #[trigger] stream_of(bufs.take(i + 1))[p + t]
                == bufs[i]@[t]);
    }
}

/// Whether a destination path holds a NUL character, which the trie's
/// terminator convention cannot store.
pub open spec fn has_nul(s: Seq<char>) -> bool {
    exists|j: int| 0 <= j < utf16_of(s).len() && #[trigger] utf16_of(s)[j] == 0
}

/// Whether any destination handed to `pack` holds a NUL.
pub open spec fn has_nul_dst(fis: Seq<PackItem>, dirs: Seq<String>) -> bool {
    ||| exists|q: int| 0 <= q < fis.len() && has_nul((#[trigger] fis[q]).dst@)
    ||| exists|q: int| 0 <= q < dirs.len() && has_nul((#[trigger] dirs[q])@)
}

/// Combined UTF-16 length of the directory paths, terminators included.
pub open spec fn dirs_units_sum(dirs: Seq<String>) -> int
    decreases dirs.len(),
{
    if dirs.len() == 0 {
        0
    } else {
        dirs_units_sum(dirs.drop_last()) + utf16_of(dirs.last()@).len() + 1
    }
}

/// One more directory extends the prefix sum.
pub proof fn lemma_dirs_units_take(dirs: Seq<String>, i: int)
    requires
        0 <= i < dirs.len(),
    ensures
        dirs_units_sum(dirs.take(i + 1)) == dirs_units_sum(dirs.take(i)) + utf16_of(
            dirs[i]@,
        ).len() + 1,
{
    assert(dirs.take(i + 1).drop_last() =~= dirs.take(i));
    assert(dirs.take(i + 1).last() == dirs[i]);
}

/// Combined UTF-16 length of the first `k` entries' destinations,
/// terminators included.
pub open spec fn entries_prefix_units(es: Seq<Entry>, k: int) -> int
    decreases k,
{
    if k <= 0 {
        0
    } else {
        entries_prefix_units(es, k - 1) + utf16_of(es[k - 1].dst@).len() + 1
    }
}

/// Prefix unit sums only read the prefix.
pub proof fn lemma_prefix_units_stable(es1: Seq<Entry>, es2: Seq<Entry>, k: int)
    requires
        0 <= k <= es1.len(),
        k <= es2.len(),
        forall|t: int| 0 <= t < k ==> es1[t] == es2[t],
    ensures
        entries_prefix_units(es1, k) == entries_prefix_units(es2, k),
    decreases k,
{
    if k > 0 {
        lemma_prefix_units_stable(es1, es2, k - 1);
    }
}

/// Prefix unit sums never shrink.
pub proof fn lemma_prefix_units_mono(es: Seq<Entry>, i: int, j: int)
    requires
        i <= j,
    ensures
        entries_prefix_units(es, i) <= entries_prefix_units(es, j),
    decreases j - i,
{
    if i < j {
        lemma_prefix_units_mono(es, i, j - 1);
    }
}

/// The whole entry list's units split into the directory part and the file
/// part.
pub proof fn lemma_prefix_units_split(es: Seq<Entry>, dn: int)
    requires
        0 <= dn <= es.len(),
    ensures
        entries_prefix_units(es, es.len() as int) == entries_prefix_units(es, dn)
            + entries_units(es, dn),
    decreases es.len(),
{
    if es.len() > dn {
        lemma_prefix_units_stable(es.drop_last(), es, es.len() - 1);
        lemma_prefix_units_split(es.drop_last(), dn);
        lemma_prefix_units_stable(es, es.drop_last(), dn);
    }
}

/// The directory entries' units equal the directory list's.
pub proof fn lemma_prefix_units_dirs(es: Seq<Entry>, dirs: Seq<String>, k: int)
    requires
        0 <= k <= dirs.len(),
        k <= es.len(),
        forall|t: int| 0 <= t < k ==> (#[trigger] es[t]).dst@ == dirs[t]@,
    ensures
        entries_prefix_units(es, k) == dirs_units_sum(dirs.take(k)),
    decreases k,
{
    if k > 0 {
        lemma_prefix_units_dirs(es, dirs, k - 1);
        assert(dirs.take(k).drop_last() =~= dirs.take(k - 1));
        assert(dirs.take(k).last() == dirs[k - 1]);
    }
}

/// Destination unit sums are not negative.
pub proof fn lemma_dst_units_nonneg(zp: Seq<(PackItem, Vec<u8>)>)
    ensures
        dst_units_sum(zp) >= 0,
    decreases zp.len(),
{
    if zp.len() > 0 {
        lemma_dst_units_nonneg(zp.drop_last());
    }
}

/// A prefix of the pairs never out-measures the whole.
pub proof fn lemma_dst_units_prefix_le(zp: Seq<(PackItem, Vec<u8>)>, i: int)
    requires
        0 <= i <= zp.len(),
    ensures
        dst_units_sum(zp.take(i)) <= dst_units_sum(zp),
    decreases zp.len() - i,
{
    if i == zp.len() {
        assert(zp.take(i) =~= zp);
    } else {
        crate::builder::lemma_dst_units_take(zp, i);
        lemma_dst_units_prefix_le(zp, i + 1);
    }
}

/// A prefix of the directories never out-measures the whole.
pub proof fn lemma_dirs_units_prefix_le(dirs: Seq<String>, i: int)
    requires
        0 <= i <= dirs.len(),
    ensures
        dirs_units_sum(dirs.take(i)) <= dirs_units_sum(dirs),
    decreases dirs.len() - i,
{
    if i == dirs.len() {
        assert(dirs.take(i) =~= dirs);
    } else {
        lemma_dirs_units_take(dirs, i);
        lemma_dirs_units_prefix_le(dirs, i + 1);
    }
}

/// The format bounds an input set must stay under to be packable: 16-bit
/// directory references, 32-bit file and byte counts, the item-table
/// ceiling, and the node-table ceiling measured pessimistically as the
/// paths' combined UTF-16 length.
pub open spec fn pack_limited(
    fis: Seq<PackItem>,
    cts: Seq<Vec<u8>>,
    dirs: Seq<String>,
) -> bool {
    &&& dirs.len() <= 0xFFFF
    &&& fis.len() <= 0xFFFF_FFFF
    &&& fis.len() + 1 <= crate::file_format::MAX_ITEMS
    &&& total_blob_len(zip_pairs(fis, cts)) <= 0xFFFF_FFFF
    &&& dirs_units_sum(dirs) + dst_units_sum(zip_pairs(fis, cts))
        <= crate::file_format::MAX_NODES
}

/// Everything `pack` promises of a produced archive: it parses back to a
/// header whose trie holds exactly the entries' paths, whose item table is
/// the deduplicated one the builder made, and whose chunks encode each
/// unique item's bytes under the store-or-compress rule.
pub open spec fn pack_ok(
    fis: Seq<PackItem>,
    cts: Seq<Vec<u8>>,
    dirs: Seq<String>,
    bytes: Seq<u8>,
) -> bool {
    exists|w: PackWitness|
        {
            &&& #[trigger] pack_witness_ok(fis, cts, dirs, bytes, w)
        }
}

/// The pieces that explain a packed archive.
pub ghost struct PackWitness {
    /// The parsed header.
    pub h: crate::file_format::HeaderView,
    /// The entry list the builder produced.
    pub entries: Seq<Entry>,
    /// The deduplicated item table.
    pub items: Seq<Item>,
    /// One content blob per item.
    pub blobs: Seq<Vec<u8>>,
    /// One destination name per item.
    pub dsts: Seq<String>,
    /// The written payload, chunk by chunk.
    pub pbufs: Seq<Vec<u8>>,
}

/// Whether a witness explains the archive bytes.
pub open spec fn pack_witness_ok(
    fis: Seq<PackItem>,
    cts: Seq<Vec<u8>>,
    dirs: Seq<String>,
    bytes: Seq<u8>,
    w: PackWitness,
) -> bool {
    &&& build_ok(zip_pairs(fis, cts), dirs, w.entries, w.items, w.blobs, w.dsts, w.items.len() - 1)
    &&& parse_header(bytes) == Ok::<(crate::file_format::HeaderView, int), ArchiveError>(
        (w.h, ser_header(w.h).len() as int),
    )
    &&& w.h.flags == 0
    &&& w.h.chunk_size == 0
    &&& w.h.dir_count == dirs.len()
    &&& w.h.file_count == fis.len()
    &&& wf(w.h.nodes)
    &&& table_view(w.h.nodes) == entries_map(w.entries)
    &&& w.h.items.len() == w.items.len()
    &&& (forall|k: int| 0 <= k < w.items.len() ==> w.h.items[k] == (#[trigger] w.items[k])@)
    &&& w.h.chunks.len() == w.items.len() - 1
    &&& w.pbufs.len() == w.h.chunks.len()
    &&& bytes == ser_header(w.h) + stream_of(w.pbufs)
    &&& (forall|k: int|
        0 <= k < w.h.chunks.len() ==> chunk_encodes(
            w.dsts[k + 1]@,
            w.blobs[k + 1]@,
            #[trigger] w.h.chunks[k],
            w.pbufs[k]@,
        ))
}


/// Assembles the packed archive's specification from the loop facts: the
/// patched bytes are a serialized header followed by the chunk payload, and
/// they parse back to it.
#[verifier::rlimit(100)]
pub proof fn lemma_pack_finish(
    fis0: Seq<PackItem>,
    cts0: Seq<Vec<u8>>,
    dirs0: Seq<String>,
    h0: crate::file_format::HeaderView,
    cs: Seq<Chunk>,
    pbufs: Seq<Vec<u8>>,
    entries0: Seq<Entry>,
    items0: Seq<Item>,
    blobs0: Seq<Vec<u8>>,
    dsts0: Seq<String>,
    b0: Seq<u8>,
    b1: Seq<u8>,
    off: int,
)
    requires
        build_ok(zip_pairs(fis0, cts0), dirs0, entries0, items0, blobs0, dsts0, items0.len() - 1),
        crate::file_format::counts_fit(h0),
        h0.flags == 0,
        h0.chunk_size == 0,
        h0.dir_count == dirs0.len(),
        h0.file_count == fis0.len(),
        wf(h0.nodes),
        table_view(h0.nodes) == entries_map(entries0),
        h0.items == items_view(items0),
        h0.chunks.len() == items0.len() - 1,
        cs.len() == h0.chunks.len(),
        pbufs.len() == cs.len(),
        off == crate::file_format::chunk_table_offset(h0),
        b0 == ser_header(h0) + stream_of(pbufs),
        b1 == b0.subrange(0, off) + crate::file_format::le32(cs.len() as u32) + crate::file_format::ser_chunks(
            chunks_view(cs),
        ) + b0.subrange(off + 4 + 12 * cs.len(), b0.len() as int),
        forall|q: int|
            0 <= q < cs.len() ==> chunk_encodes(
                dsts0[q + 1]@,
                blobs0[q + 1]@,
                (#[trigger] cs[q])@,
                pbufs[q]@,
            ),
    ensures
        pack_ok(fis0, cts0, dirs0, b1),
{
    let cs2 = chunks_view(cs);
    let h1 = crate::file_format::HeaderView { chunks: cs2, ..h0 };
    let ser0 = ser_header(h0);
    crate::file_format::lemma_ser_header_len(h0);
    crate::file_format::lemma_ser_header_chunks_swap(h0, cs2);
    assert(cs2.len() == cs.len());
    assert(b1 =~= ser_header(h1) + stream_of(pbufs)) by {
        assert(b0.subrange(0, off) =~= ser0.subrange(0, off));
        assert(b0.subrange(off + 4 + 12 * cs.len(), b0.len() as int) =~= stream_of(pbufs));
    }
    assert(!crate::file_format::has_bad_algorithm(cs2)) by {
        assert(forall|q: int|
            0 <= q < cs2.len() ==> (#[trigger] cs2[q]).algorithm
                == crate::file_format::algorithm_value(cs[q].algorithm));
    }
    assert(crate::file_format::counts_fit(h1));
    crate::file_format::lemma_parse_of_ser(h1, stream_of(pbufs));
    let w = PackWitness {
        h: h1,
        entries: entries0,
        items: items0,
        blobs: blobs0,
        dsts: dsts0,
        pbufs: pbufs,
    };
    assert(forall|k: int| 0 <= k < items0.len() ==> h1.items[k] == (#[trigger] items0[k])@);
    assert(forall|q: int|
        0 <= q < h1.chunks.len() ==> chunk_encodes(
            dsts0[q + 1]@,
            blobs0[q + 1]@,
            #[trigger] h1.chunks[q],
            pbufs[q]@,
        )) by {
        assert(forall|q: int| 0 <= q < cs.len() ==> #[trigger] h1.chunks[q] == cs[q]@);
    }
    assert(pack_witness_ok(fis0, cts0, dirs0, b1, w));
}

/// Rejects inputs the format cannot hold: a NUL in any destination, or a
/// count, byte total or path total beyond the 16- and 32-bit bounds.
#[verifier::loop_isolation(false)]
#[verifier::rlimit(100)]
fn check_pack_inputs(
    file_items: &Vec<PackItem>,
    contents: &Vec<Vec<u8>>,
    dir_items: &Vec<String>,
) -> (r: Result<(), ArchiveError>)
    requires
        contents@.len() == file_items@.len(),
    ensures
        r == Err::<(), ArchiveError>(ArchiveError::InvalidPath) <==> has_nul_dst(
            file_items@,
            dir_items@,
        ),
        !has_nul_dst(file_items@, dir_items@) ==> (r == Err::<(), ArchiveError>(
            ArchiveError::LimitExceeded,
        ) <==> !pack_limited(file_items@, contents@, dir_items@)),
        r is Ok <==> !has_nul_dst(file_items@, dir_items@) && pack_limited(
            file_items@,
            contents@,
            dir_items@,
        ),
        r matches Err(e) ==> e == ArchiveError::InvalidPath || e == ArchiveError::LimitExceeded,
{
    let ghost fis0 = file_items@;
    let ghost cts0 = contents@;
    let ghost dirs0 = dir_items@;
    let ghost zp = zip_pairs(fis0, cts0);

    // reject destinations the path index cannot hold
    let mut q: usize = 0;
    while q < file_items.len()
        invariant
            q <= fis0.len(),
            file_items@ == fis0,
            forall|t: int| 0 <= t < q ==> !has_nul((#[trigger] fis0[t]).dst@),
        decreases fis0.len() - q,
    {
        if !path_units_ok(file_items[q].dst.as_str()) {
            proof {
                assert(has_nul(fis0[q as int].dst@));
            }
            return Err(ArchiveError::InvalidPath);
        }
        q += 1;
    }
    let mut q: usize = 0;
    while q < dir_items.len()
        invariant
            q <= dirs0.len(),
            dir_items@ == dirs0,
            forall|t: int| 0 <= t < q ==> !has_nul((#[trigger] dirs0[t])@),
        decreases dirs0.len() - q,
    {
        if !path_units_ok(dir_items[q].as_str()) {
            proof {
                assert(has_nul(dirs0[q as int]@));
            }
            return Err(ArchiveError::InvalidPath);
        }
        q += 1;
    }
    proof {
        assert(!has_nul_dst(fis0, dirs0));
    }

    // reject inputs beyond the format's 16- and 32-bit bounds
    let nfile_inputs = file_items.len();
    if dir_items.len() > 0xFFFF {
        return Err(ArchiveError::LimitExceeded);
    }
    if (nfile_inputs as u64) > 0xFFFF_FFFFu64 {
        return Err(ArchiveError::LimitExceeded);
    }
    if nfile_inputs >= crate::file_format::MAX_ITEMS {
        return Err(ArchiveError::LimitExceeded);
    }
    let mut blob_total: u64 = 0;
    let mut q: usize = 0;
    proof {
        assert(zp.take(0) =~= Seq::<(PackItem, Vec<u8>)>::empty());
    }
    while q < contents.len()
        invariant
            q <= cts0.len(),
            contents@ == cts0,
            blob_total as int == total_blob_len(zp.take(q as int)),
            blob_total <= 0xFFFF_FFFF,
        decreases cts0.len() - q,
    {
        proof {
            crate::builder::lemma_total_blob_len_take(zp, q as int);
            assert(zp[q as int].1@ == cts0[q as int]@);
        }
        let len = contents[q].len();
        if (len as u64) > 0xFFFF_FFFFu64 - blob_total {
            proof {
                crate::builder::lemma_total_blob_len_take(zp, q + 1);
            }
            return Err(ArchiveError::LimitExceeded);
        }
        blob_total = blob_total + (len as u64);
        q += 1;
    }
    proof {
        assert(zp.take(cts0.len() as int) =~= zp);
    }

    // reject path sets whose trie could outgrow the 16-bit node table
    let mut units_total: u64 = 0;
    let mut q: usize = 0;
    proof {
        assert(dirs0.take(0) =~= Seq::<String>::empty());
    }
    while q < dir_items.len()
        invariant
            q <= dirs0.len(),
            dir_items@ == dirs0,
            units_total as int == dirs_units_sum(dirs0.take(q as int)),
            units_total <= crate::file_format::MAX_NODES as u64,
        decreases dirs0.len() - q,
    {
        proof {
            lemma_dirs_units_take(dirs0, q as int);
        }
        let units = encode_utf16_units(dir_items[q].as_str());
        let term64 = if units.len() >= crate::file_format::MAX_NODES {
            crate::file_format::MAX_NODES as u64 + 1
        } else {
            units.len() as u64 + 1
        };
        if term64 > crate::file_format::MAX_NODES as u64 - units_total {
            proof {
                lemma_dirs_units_prefix_le(dirs0, q + 1);
                lemma_dst_units_nonneg(zp);
            }
            return Err(ArchiveError::LimitExceeded);
        }
        units_total = units_total + term64;
        q += 1;
    }
    proof {
        assert(dirs0.take(dirs0.len() as int) =~= dirs0);
        assert(zp.take(0) =~= Seq::<(PackItem, Vec<u8>)>::empty());
    }
    let mut q: usize = 0;
    while q < file_items.len()
        invariant
            q <= fis0.len(),
            file_items@ == fis0,
            units_total as int == dirs_units_sum(dirs0) + dst_units_sum(zp.take(q as int)),
            units_total <= crate::file_format::MAX_NODES as u64,
        decreases fis0.len() - q,
    {
        proof {
            crate::builder::lemma_dst_units_take(zp, q as int);
            assert(zp[q as int].0.dst@ == fis0[q as int].dst@);
        }
        let units = encode_utf16_units(file_items[q].dst.as_str());
        let term64 = if units.len() >= crate::file_format::MAX_NODES {
            crate::file_format::MAX_NODES as u64 + 1
        } else {
            units.len() as u64 + 1
        };
        if term64 > crate::file_format::MAX_NODES as u64 - units_total {
            proof {
                lemma_dst_units_prefix_le(zp, q + 1);
            }
            return Err(ArchiveError::LimitExceeded);
        }
        units_total = units_total + term64;
        q += 1;
    }
    proof {
        assert(zp.take(fis0.len() as int) =~= zp);
        assert(pack_limited(fis0, cts0, dirs0));
    }

    Ok(())
}

/// Packs the given files and directories into one archive.
///
/// `contents[k]` holds the bytes of `file_items[k]`.  The header is written
/// with a reserved chunk table that is patched once the real compressed
/// sizes are known.  Oversized inputs are rejected; a mismatch between the
/// reserved and realized chunk table aborts the pack.
#[verifier::loop_isolation(false)]
#[verifier::rlimit(100)]
pub fn pack(file_items: Vec<PackItem>, contents: Vec<Vec<u8>>, dir_items: Vec<String>) -> (r:
    Result<Vec<u8>, ArchiveError>)
    requires
        contents@.len() == file_items@.len(),
    ensures
        r matches Ok(bytes) ==> pack_ok(file_items@, contents@, dir_items@, bytes@),
        r == Err::<Vec<u8>, ArchiveError>(ArchiveError::InvalidPath) <==> has_nul_dst(
            file_items@,
            dir_items@,
        ),
        !has_nul_dst(file_items@, dir_items@) ==> (r == Err::<Vec<u8>, ArchiveError>(
            ArchiveError::LimitExceeded,
        ) <==> !pack_limited(file_items@, contents@, dir_items@)),
        !has_nul_dst(file_items@, dir_items@) && pack_limited(file_items@, contents@, dir_items@)
            ==> r is Ok,
        r matches Err(e) ==> e == ArchiveError::InvalidPath || e == ArchiveError::LimitExceeded,
{
    let ghost fis0 = file_items@;
    let ghost cts0 = contents@;
    let ghost dirs0 = dir_items@;
    let ghost zp = zip_pairs(fis0, cts0);
    match check_pack_inputs(&file_items, &contents, &dir_items) {
        Ok(_) => {},
        Err(e) => {
            return Err(e);
        },
    }
    let nfile_inputs = file_items.len();

    let built = match crate::builder::build_entry_and_item(file_items, contents, &dir_items) {
        Ok(b) => b,
        Err(_) => {
            proof {
                assert(false);
            }
            return Err(ArchiveError::LimitExceeded);
        },
    };
    let (entries, items, blobs, dsts, nfiles) = built;
    let ghost entries0 = entries@;
    let ghost items0 = items@;
    let ghost blobs0 = blobs@;
    let ghost dsts0 = dsts@;
    let ghost dn0 = dirs0.len() as int;
    proof {
        broadcast use vstd::seq_lib::group_to_multiset_ensures;

        lemma_prefix_units_split(entries0, dn0);
        lemma_prefix_units_dirs(entries0, dirs0, dn0);
        assert(dirs0.take(dn0) =~= dirs0);
        assert(entries_prefix_units(entries0, entries0.len() as int) == dirs_units_sum(dirs0)
            + dst_units_sum(zp));
    }

    // the path index over all entries
    let mut tbl = LookupTable::new();
    let mut k: usize = 0;
    proof {
        assert(entries0.take(0) =~= Seq::<Entry>::empty());
    }
    while k < entries.len()
        invariant
            k <= entries0.len(),
            entries@ == entries0,
            tbl.well_formed(),
            tbl.view_map() == entries_map(entries0.take(k as int)),
            tbl.nodes@.len() <= entries_prefix_units(entries0, k as int),
        decreases entries0.len() - k,
    {
        let e = &entries[k];
        proof {
            reveal(crate::builder::entries_files_ok);
            assert(e.item_index < crate::file_format::MAX_ITEMS || e.item_index == 0);
            // the destination is one of the checked inputs, so free of NULs
            if k < dn0 {
                reveal(crate::builder::entries_ok);
                assert(e.dst@ == dirs0[k as int]@);
                assert(!has_nul(e.dst@));
            } else {
                assert(crate::builder::entry_source_ok(zp, entries0, k as int));
                let qq = choose|qq: int|
                    #![trigger zp[qq]]
                    0 <= qq < zp.len() && entries0[k as int].src@ == zp[qq].0.src@ && entries0[k as int].dst@
                        == zp[qq].0.dst@;
                assert(zp[qq].0.dst@ == fis0[qq].dst@);
                assert(!has_nul(e.dst@));
            }
            assert(forall|j: int|
                0 <= j < utf16_of(e.dst@).len() ==> #[trigger] utf16_of(e.dst@)[j] != 0);
            lemma_prefix_units_mono(entries0, k + 1, entries0.len() as int);
        }
        let v = e.item_index as u16;
        match tbl.insert(e.dst.as_str(), v) {
            Ok(_) => {},
            Err(_) => {
                proof {
                    assert(false);
                }
                return Err(ArchiveError::LimitExceeded);
            },
        }
        proof {
            assert(entries0.take(k + 1).drop_last() =~= entries0.take(k as int));
            assert(entries0.take(k + 1).last() == entries0[k as int]);
            assert(tbl.view_map() == entries_map(entries0.take(k + 1)));
        }
        k += 1;
    }
    proof {
        assert(entries0.take(entries0.len() as int) =~= entries0);
    }

    // first pass: header with a zeroed chunk table of the reserved size
    let mut placeholder: Vec<Chunk> = Vec::new();
    let mut t: usize = 0;
    while t < nfiles
        invariant
            t <= nfiles,
            placeholder@.len() == t,
        decreases nfiles - t,
    {
        placeholder.push(
            Chunk {
                algorithm: crate::file_format::AlgorithmType::Store,
                flags: 0,
                length: 0,
                compressed_length: 0,
            },
        );
        t += 1;
    }
    let dir_count = dir_items.len();
    let header = Header {
        magic: crate::file_format::magic_bytes(),
        version: crate::file_format::FILE_VERSION,
        flags: 0,
        chunk_size: 0,
        dir_count,
        file_count: nfile_inputs,
        nodes: tbl.nodes,
        items,
        chunks: placeholder,
    };
    proof {
        assert(items_view(header.items@) =~= header.items@.map_values(|it: Item| it@));
    }
    let (mut bytes, off) = serialize_header(&header);
    let ghost h0 = header@;
    let ghost ser0 = ser_header(h0);
    proof {
        crate::file_format::lemma_ser_header_len(h0);
    }

    // second pass: stream each unique item, store or compress, then patch
    let mut filler = BufferFiller::new(blobs);
    let mut chunks: Vec<Chunk> = Vec::new();
    let ghost mut pbufs: Seq<Vec<u8>> = Seq::empty();
    let mut total_sum: u64 = 0;
    let mut ki: usize = 1;
    proof {
        assert(blobs0.take(1).drop_last() =~= Seq::<Vec<u8>>::empty());
        assert(blobs0.take(1).last() == blobs0[0]);
        assert(stream_of(Seq::<Vec<u8>>::empty()) =~= Seq::<u8>::empty());
        assert(stream_of(blobs0.take(1)) =~= Seq::<u8>::empty() + blobs0[0]@);
        assert(stream_of(blobs0.take(1)).len() == 0);
        assert(stream_of(pbufs) =~= Seq::<u8>::empty());
        assert(bytes@ =~= ser0 + stream_of(pbufs));
    }
    while ki < header.items.len()
        invariant
            1 <= ki <= items0.len(),
            header.items@ == items0,
            chunks@.len() == ki - 1,
            pbufs.len() == ki - 1,
            filler.inner.wf(),
            filler.inner.bufs@ == blobs0,
            filler.inner.consumed() == stream_of(blobs0.take(ki as int)).len(),
            bytes@ == ser0 + stream_of(pbufs),
            total_sum as int == items0[ki - 1].offset + items0[ki - 1].length,
            total_sum <= 0xFFFF_FFFF,
            forall|q: int| 0 <= q < ki - 1 ==> (#[trigger] chunks@[q]).length <= 0xFFFF_FFFF,
            forall|q: int|
                0 <= q < ki - 1 ==> chunk_encodes(
                    dsts0[q + 1]@,
                    blobs0[q + 1]@,
                    (#[trigger] chunks@[q])@,
                    pbufs[q]@,
                ),
        decreases items0.len() - ki,
    {
        let want = header.items[ki].length;
        proof {
            reveal(crate::builder::items_blobs_ok);
            assert(items0[ki as int].length == blobs0[ki as int]@.len());
            lemma_stream_slice(blobs0, ki as int);
            crate::builder::lemma_item_bounds(items0, ki as int);
        }
        let b = match filler.fill(want) {
            Ok(b) => b,
            Err(_) => {
                proof {
                    assert(false);
                }
                return Err(ArchiveError::InternalMismatch);
            },
        };
        proof {
            assert(b@ == blobs0[ki as int]@);
            assert(blobs0.take(ki + 1).drop_last() =~= blobs0.take(ki as int));
            assert(blobs0.take(ki + 1).last() == blobs0[ki as int]);
        }
        let (chunk, mut cb) = encode_chunk(dsts[ki].as_str(), b);
        proof {
            assert(chunk_encodes(dsts0[ki as int]@, blobs0[ki as int]@, chunk@, cb@));
            assert(chunk.length == items0[ki as int].length);
            reveal(crate::builder::offsets_ok);
            assert(items0[ki as int].offset == (if ki == 1 {
                0int
            } else {
                items0[ki - 1].offset + items0[ki - 1].length
            }));
        }
        total_sum = total_sum + (chunk.length as u64);
        chunks.push(chunk);
        let ghost cb_g = cb;
        bytes.append(&mut cb);
        proof {
            let pb_old = pbufs;
            pbufs = pbufs.push(cb_g);
            assert(pbufs.drop_last() =~= pb_old);
            assert(pbufs.last() == cb_g);
            assert(stream_of(pbufs) == stream_of(pb_old) + cb_g@);
            assert(bytes@ =~= ser0 + stream_of(pbufs));
        }
        ki += 1;
    }

    // the realized table must match the reservation
    let expected = header.items[header.items.len() - 1].offset + header.items[header.items.len()
        - 1].length;
    if total_sum != (expected as u64) {
        proof {
            assert(false);
        }
        return Err(ArchiveError::InternalMismatch);
    }
    if chunks.len() != nfiles {
        proof {
            assert(false);
        }
        return Err(ArchiveError::InternalMismatch);
    }

    proof {
        crate::file_format::lemma_ser_header_len(h0);
        assert(bytes@.len() >= ser0.len());
    }
    let ghost old_bytes_g = bytes@;
    update_header_data(&mut bytes, off, &chunks);

    proof {
        lemma_pack_finish(
            fis0,
            cts0,
            dirs0,
            h0,
            chunks@,
            pbufs,
            entries0,
            items0,
            blobs0,
            dsts0,
            old_bytes_g,
            bytes@,
            off as int,
        );
    }
    Ok(bytes)
}

// ---------------------------------------------------------------------------
// Reading back
// ---------------------------------------------------------------------------

/// Bytes of compressed payload that precede chunk `k`.
pub open spec fn cum_clen(cs: Seq<crate::file_format::ChunkView>, k: int) -> int
    decreases k,
{
    if k <= 0 {
        0
    } else {
        cum_clen(cs, k - 1) + cs[k - 1].compressed_length
    }
}

/// What decoding the chunk table from `k` on yields: the decompressed
/// buffers, or the first failure.  A short payload is `Truncated`; a store
/// chunk with unequal lengths, or LZF bytes that do not decompress to the
/// declared length, is `DataCorrupted`.
pub open spec fn decode_from(
    cs: Seq<crate::file_format::ChunkView>,
    payload: Seq<u8>,
    k: int,
) -> Result<Seq<Seq<u8>>, ArchiveError>
    decreases cs.len() - k,
{
    if k < 0 || k >= cs.len() {
        Ok(Seq::empty())
    } else {
        let pos = cum_clen(cs, k);
        let cl = cs[k].compressed_length as int;
        if pos + cl > payload.len() {
            Err(ArchiveError::Truncated)
        } else {
            let slice = payload.subrange(pos, pos + cl);
            let d = if cs[k].algorithm == 0 {
                if cl == cs[k].length as int {
                    Some(slice)
                } else {
                    None
                }
            } else {
                match crate::codec::lzf_unpacked_of(slice, cs[k].length as int) {
                    Some(d) => if d.len() == cs[k].length as int {
                        Some(d)
                    } else {
                        None
                    },
                    None => None,
                }
            };
            match d {
                None => Err(ArchiveError::DataCorrupted),
                Some(d) => match decode_from(cs, payload, k + 1) {
                    Err(e) => Err(e),
                    Ok(rest) => Ok(seq![d] + rest),
                },
            }
        }
    }
}

/// Decoding the whole chunk table.
pub open spec fn spec_decode_chunks(
    cs: Seq<crate::file_format::ChunkView>,
    payload: Seq<u8>,
) -> Result<Seq<Seq<u8>>, ArchiveError> {
    decode_from(cs, payload, 0)
}

/// The views of decoded buffers.
pub open spec fn buf_views(ds: Seq<Vec<u8>>) -> Seq<Seq<u8>> {
    ds.map_values(|d: Vec<u8>| d@)
}

/// Decompresses every chunk of the table out of the payload bytes.
///
/// The result is exactly what `spec_decode_chunks` says of the table and
/// the bytes, error cases included; on success each buffer also satisfies
/// `chunk_decodes` against its payload slice.
#[verifier::loop_isolation(false)]
#[verifier::rlimit(100)]
pub fn decode_chunks(payload: &[u8], chunks: &Vec<Chunk>) -> (r: Result<Vec<Vec<u8>>, ArchiveError>)
    requires
        forall|k: int|
            0 <= k < chunks@.len() ==> (#[trigger] chunks@[k]).length <= 0xFFFF_FFFF
                && chunks@[k].compressed_length <= 0xFFFF_FFFF,
    ensures
        match r {
            Ok(ds) => {
                &&& spec_decode_chunks(chunks_view(chunks@), payload@) == Ok::<
                    Seq<Seq<u8>>,
                    ArchiveError,
                >(buf_views(ds@))
                &&& ds@.len() == chunks@.len()
                &&& cum_clen(chunks_view(chunks@), chunks@.len() as int) <= payload@.len()
                &&& (forall|k: int|
                    0 <= k < chunks@.len() ==> chunk_decodes(
                        (#[trigger] chunks@[k])@,
                        payload@.subrange(
                            cum_clen(chunks_view(chunks@), k),
                            cum_clen(chunks_view(chunks@), k) + chunks@[k]@.compressed_length,
                        ),
                        ds@[k]@,
                    ))
            },
            Err(e) => spec_decode_chunks(chunks_view(chunks@), payload@) == Err::<
                Seq<Seq<u8>>,
                ArchiveError,
            >(e),
        },
{
    let ghost cvs = chunks_view(chunks@);
    let ghost pl = payload@;
    let mut ds: Vec<Vec<u8>> = Vec::new();
    let mut pos: usize = 0;
    let mut k: usize = 0;
    while k < chunks.len()
        invariant
            k <= chunks@.len(),
            ds@.len() == k,
            pos as int == cum_clen(cvs, k as int),
            pos <= payload@.len(),
            decode_from(cvs, pl, 0) == (match decode_from(cvs, pl, k as int) {
                Err(e) => Err::<Seq<Seq<u8>>, ArchiveError>(e),
                Ok(rest) => Ok::<Seq<Seq<u8>>, ArchiveError>(buf_views(ds@) + rest),
            }),
            forall|t: int|
                0 <= t < k ==> chunk_decodes(
                    (#[trigger] chunks@[t])@,
                    payload@.subrange(cum_clen(cvs, t), cum_clen(cvs, t) + chunks@[t]@.compressed_length),
                    ds@[t]@,
                ),
        decreases chunks@.len() - k,
    {
        let c = chunks[k];
        if c.compressed_length > payload.len() - pos {
            proof {
                assert(decode_from(cvs, pl, k as int) == Err::<Seq<Seq<u8>>, ArchiveError>(
                    ArchiveError::Truncated,
                ));
            }
            return Err(ArchiveError::Truncated);
        }
        let cl = c.compressed_length;
        let slice = &payload[pos..pos + cl];
        proof {
            assert(slice@ =~= payload@.subrange(pos as int, pos + cl));
            assert(cum_clen(cvs, k + 1) == cum_clen(cvs, k as int) + cvs[k as int].compressed_length);
            assert(cvs[k as int].compressed_length == cl as u32);
        }
        let d: Vec<u8> = match c.algorithm {
            crate::file_format::AlgorithmType::Store => {
                if cl != c.length {
                    proof {
                        assert(decode_from(cvs, pl, k as int) == Err::<Seq<Seq<u8>>, ArchiveError>(
                            ArchiveError::DataCorrupted,
                        ));
                    }
                    return Err(ArchiveError::DataCorrupted);
                }
                vstd::slice::slice_to_vec(slice)
            },
            crate::file_format::AlgorithmType::Lzf => {
                match lzf_unpack(slice, c.length) {
                    Some(d) => {
                        if d.len() != c.length {
                            proof {
                                assert(decode_from(cvs, pl, k as int) == Err::<
                                    Seq<Seq<u8>>,
                                    ArchiveError,
                                >(ArchiveError::DataCorrupted));
                            }
                            return Err(ArchiveError::DataCorrupted);
                        }
                        d
                    },
                    None => {
                        proof {
                            assert(decode_from(cvs, pl, k as int) == Err::<
                                Seq<Seq<u8>>,
                                ArchiveError,
                            >(ArchiveError::DataCorrupted));
                        }
                        return Err(ArchiveError::DataCorrupted);
                    },
                }
            },
        };
        proof {
            assert(chunk_decodes(c@, slice@, d@));
            assert(decode_from(cvs, pl, k as int) == (match decode_from(cvs, pl, k + 1) {
                Err(e) => Err::<Seq<Seq<u8>>, ArchiveError>(e),
                Ok(rest) => Ok::<Seq<Seq<u8>>, ArchiveError>(seq![d@] + rest),
            }));
            assert(buf_views(ds@.push(d)) =~= buf_views(ds@).push(d@));
            let next = decode_from(cvs, pl, k + 1);
            if next is Ok {
                let rest = next->Ok_0;
                assert(buf_views(ds@) + (seq![d@] + rest) =~= buf_views(ds@.push(d)) + rest);
            }
        }
        ds.push(d);
        pos = pos + cl;
        k += 1;
    }
    proof {
        assert(decode_from(cvs, pl, k as int) == Ok::<Seq<Seq<u8>>, ArchiveError>(Seq::empty()));
        assert(buf_views(ds@) + Seq::<Seq<u8>>::empty() =~= buf_views(ds@));
    }
    Ok(ds)
}

/// Sorts (path units, item id) pairs by item id, so that all paths of one
/// item stand together.
#[verifier::loop_isolation(false)]
pub fn sort_units_by_id(v: Vec<(Vec<u16>, u16)>) -> (r: Vec<(Vec<u16>, u16)>)
    ensures
        crate::trie::entry_views(r@).to_multiset() == crate::trie::entry_views(v@).to_multiset(),
        r@.len() == v@.len(),
        forall|i: int, j: int| 0 <= i < j < r@.len() ==> (#[trigger] r@[i]).1 <= (#[trigger] r@[j]).1,
{
    broadcast use vstd::seq_lib::group_to_multiset_ensures;

    let ghost orig = v@;
    let mut v = v;
    let mut out: Vec<(Vec<u16>, u16)> = Vec::new();
    proof {
        assert(crate::trie::entry_views(out@) =~= Seq::<(Seq<u16>, u16)>::empty());
        assert(crate::trie::entry_views(out@).to_multiset().add(
            crate::trie::entry_views(v@).to_multiset(),
        ) =~= crate::trie::entry_views(orig).to_multiset());
    }
    while v.len() > 0
        invariant
            out@.len() + v@.len() == orig.len(),
            crate::trie::entry_views(out@).to_multiset().add(
                crate::trie::entry_views(v@).to_multiset(),
            ) == crate::trie::entry_views(orig).to_multiset(),
            forall|i: int, j: int|
                0 <= i < j < out@.len() ==> (#[trigger] out@[i]).1 <= (#[trigger] out@[j]).1,
        decreases v@.len(),
    {
        let ghost v_before = v@;
        let x = v.remove(0);
        proof {
            assert(v_before =~= v@.insert(0, x));
            assert(crate::trie::entry_views(v_before) =~= crate::trie::entry_views(v@).insert(
                0,
                (x.0@, x.1),
            ));
            assert(crate::trie::entry_views(v_before).to_multiset() =~= crate::trie::entry_views(
                v@,
            ).to_multiset().insert((x.0@, x.1)));
        }
        let mut p: usize = 0;
        let mut stop = false;
        while p < out.len() && !stop
            invariant
                p <= out@.len(),
                forall|t: int| 0 <= t < p ==> (#[trigger] out@[t]).1 <= x.1,
                stop ==> p < out@.len() && out@[p as int].1 > x.1,
            decreases out@.len() - p + (if stop {
                0int
            } else {
                1int
            }),
        {
            if out[p].1 <= x.1 {
                p += 1;
            } else {
                stop = true;
            }
        }
        let ghost out_before = out@;
        out.insert(p, x);
        proof {
            assert(out@ == out_before.insert(p as int, x));
            assert(crate::trie::entry_views(out@) =~= crate::trie::entry_views(out_before).insert(
                p as int,
                (x.0@, x.1),
            ));
            assert(crate::trie::entry_views(out@).to_multiset() =~= crate::trie::entry_views(
                out_before,
            ).to_multiset().insert((x.0@, x.1)));
            assert forall|i: int, j: int| 0 <= i < j < out@.len() implies (#[trigger] out@[i]).1
                <= (#[trigger] out@[j]).1 by {
                if j < p {
                    assert(out@[i] == out_before[i] && out@[j] == out_before[j]);
                } else if i < p && j == p {
                    assert(out@[i] == out_before[i] && out@[j] == x);
                } else if i < p && j > p {
                    assert(out@[i] == out_before[i] && out@[j] == out_before[j - 1]);
                } else if i == p {
                    assert(out@[i] == x && out@[j] == out_before[j - 1]);
                    if stop {
                        assert(x.1 <= out_before[p as int].1);
                        if j - 1 > p {
                            assert(out_before[p as int].1 <= out_before[j - 1].1);
                        }
                    } else {
                        assert(false);
                    }
                } else {
                    assert(out@[i] == out_before[i - 1] && out@[j] == out_before[j - 1]);
                }
            }
        }
    }
    proof {
        assert(crate::trie::entry_views(v@) =~= Seq::<(Seq<u16>, u16)>::empty());
        assert(crate::trie::entry_views(v@).to_multiset() =~= Multiset::<(Seq<u16>, u16)>::empty());
        assert(crate::trie::entry_views(out@).to_multiset().add(Multiset::empty())
            =~= crate::trie::entry_views(out@).to_multiset());
        assert(crate::trie::entry_views(out@).to_multiset().len() == crate::trie::entry_views(
            orig,
        ).to_multiset().len());
        assert(crate::trie::entry_views(out@).len() == out@.len());
        assert(crate::trie::entry_views(orig).len() == orig.len());
    }
    out
}

/// Decoding can only fail as truncation or corruption.
pub proof fn lemma_decode_errs(cs: Seq<crate::file_format::ChunkView>, payload: Seq<u8>, k: int)
    ensures
        decode_from(cs, payload, k) matches Err(e) ==> e == ArchiveError::Truncated || e
            == ArchiveError::DataCorrupted,
    decreases cs.len() - k,
{
    if 0 <= k < cs.len() {
        lemma_decode_errs(cs, payload, k + 1);
    }
}

/// Total length of a list of byte sequences.
pub open spec fn seqs_total(ss: Seq<Seq<u8>>) -> int
    decreases ss.len(),
{
    if ss.len() == 0 {
        0
    } else {
        seqs_total(ss.drop_last()) + ss.last().len()
    }
}

/// All byte sequences of a list, concatenated.
pub open spec fn flat_bytes(ss: Seq<Seq<u8>>) -> Seq<u8>
    decreases ss.len(),
{
    if ss.len() == 0 {
        Seq::empty()
    } else {
        flat_bytes(ss.drop_last()) + ss.last()
    }
}

/// The stream of a buffer list is the concatenation of its views.
pub proof fn lemma_stream_is_flat(ds: Seq<Vec<u8>>)
    ensures
        stream_of(ds) == flat_bytes(buf_views(ds)),
        stream_of(ds).len() == seqs_total(buf_views(ds)),
    decreases ds.len(),
{
    if ds.len() > 0 {
        lemma_stream_is_flat(ds.drop_last());
        assert(buf_views(ds).drop_last() =~= buf_views(ds.drop_last()));
        assert(buf_views(ds).last() == ds.last()@);
    } else {
        assert(buf_views(ds) =~= Seq::<Seq<u8>>::empty());
    }
}

/// Combined length of the file items before item `i`, sentinel excluded.
pub open spec fn items_prefix_total(items: Seq<crate::file_format::ItemView>, i: int) -> int
    decreases i,
{
    if i <= 1 {
        0
    } else {
        items_prefix_total(items, i - 1) + items[i - 1].length
    }
}

/// Prefix totals grow with the index.
pub proof fn lemma_items_prefix_mono(items: Seq<crate::file_format::ItemView>, i: int, j: int)
    requires
        i <= j,
    ensures
        items_prefix_total(items, i) <= items_prefix_total(items, j),
    decreases j - i,
{
    if i < j {
        lemma_items_prefix_mono(items, i, j - 1);
    }
}

/// Whether entry `u` of an id-sorted pair list starts a new non-directory
/// item: its bytes are decompressed there.
pub open spec fn first_occurrence(sp: Seq<(Seq<u16>, u16)>, u: int) -> bool {
    sp[u].1 != 0 && (u == 0 || sp[u].1 != sp[u - 1].1)
}

/// Stream bytes served before entry `t`: the lengths of the items whose
/// first occurrence lies before it.
pub open spec fn consumed_before(
    sp: Seq<(Seq<u16>, u16)>,
    items: Seq<crate::file_format::ItemView>,
    t: int,
) -> int
    decreases t,
{
    if t <= 0 {
        0
    } else {
        consumed_before(sp, items, t - 1) + (if first_occurrence(sp, t - 1) {
            items[sp[t - 1].1 as int].length as int
        } else {
            0
        })
    }
}

/// Every stored non-directory id names a real item.
pub open spec fn ids_ok(nodes: Seq<crate::file_format::Node>, nitems: int) -> bool {
    forall|j: int|
        0 <= j < crate::trie::dfs_entries(nodes, 0, Seq::empty()).len() ==> ((
        #[trigger] crate::trie::dfs_entries(nodes, 0, Seq::empty())[j]).1 != 0 ==> crate::trie::dfs_entries(
            nodes,
            0,
            Seq::empty(),
        )[j].1 < nitems)
}

/// When an archive must unpack: the trie is well-formed, every chunk
/// decodes, every stored id names an item, and the decoded stream holds at
/// least the items' combined length.
pub open spec fn unpack_viable(h: crate::file_format::HeaderView, payload: Seq<u8>) -> bool {
    &&& crate::trie::wf_struct(h.nodes)
    &&& spec_decode_chunks(h.chunks, payload) is Ok
    &&& ids_ok(h.nodes, h.items.len() as int)
    &&& items_prefix_total(h.items, h.items.len() as int) <= seqs_total(
        spec_decode_chunks(h.chunks, payload)->Ok_0,
    )
}

/// One restored object: a directory, a file with its bytes, or a duplicate
/// that should be copied from an already restored file.
pub enum UnpackEntry {
    /// A directory to create.
    Dir {
        /// Its destination path.
        path: String,
    },
    /// A file with freshly decompressed bytes.
    File {
        /// Its destination path.
        path: String,
        /// Its content.
        data: Vec<u8>,
    },
    /// A path whose item was already restored at another path.
    CopyOf {
        /// Its destination path.
        path: String,
        /// The already restored path holding the same bytes.
        source: String,
    },
}

/// The destination path of a restored object.
pub open spec fn entry_path(e: UnpackEntry) -> Seq<char> {
    match e {
        UnpackEntry::Dir { path } => path@,
        UnpackEntry::File { path, .. } => path@,
        UnpackEntry::CopyOf { path, .. } => path@,
    }
}

/// How a restored entry list corresponds to the archive: `sp` is some
/// id-sorted arrangement of the trie's pairs; the paths decode from its
/// UTF-16 keys; directories are exactly the id-0 pairs; each item's first
/// path carries that item's slice of the decoded stream; and a repeated id
/// becomes a copy of the already restored path of the same item.
pub open spec fn unpacked_paths_ok(
    h: crate::file_format::HeaderView,
    payload: Seq<u8>,
    out: Seq<UnpackEntry>,
    sp: Seq<(Seq<u16>, u16)>,
) -> bool {
    let ds = spec_decode_chunks(h.chunks, payload)->Ok_0;
    &&& spec_decode_chunks(h.chunks, payload) is Ok
    &&& ds.len() == h.chunks.len()
    &&& (forall|k: int|
        0 <= k < h.chunks.len() ==> chunk_decodes(
            #[trigger] h.chunks[k],
            payload.subrange(
                cum_clen(h.chunks, k),
                cum_clen(h.chunks, k) + h.chunks[k].compressed_length,
            ),
            ds[k],
        ))
    &&& sp.to_multiset() == crate::trie::dfs_entries(h.nodes, 0, Seq::empty()).to_multiset()
    &&& sp.len() == out.len()
    &&& (forall|t: int, s: Seq<char>|
        #![trigger sp[t], utf16_of(s)]
        0 <= t < sp.len() && utf16_of(s) == sp[t].0 ==> entry_path(out[t]) == s)
    &&& (forall|i: int, j: int| 0 <= i < j < sp.len() ==> (#[trigger] sp[i]).1 <= (#[trigger] sp[j]).1)
    &&& (forall|t: int| 0 <= t < sp.len() ==> ((#[trigger] sp[t]).1 == 0 <==> out[t] is Dir))
    &&& (forall|t: int|
        0 <= t < sp.len() ==> ((#[trigger] out[t]) is CopyOf <==> t > 0 && sp[t].1 != 0 && sp[t].1
            == sp[t - 1].1))
    &&& (forall|t: int|
        0 <= t < sp.len() ==> ((#[trigger] out[t]) matches UnpackEntry::File { path: _p, data }
            ==> (sp[t].1 < h.items.len() && data@ == flat_bytes(ds).subrange(
            consumed_before(sp, h.items, t),
            consumed_before(sp, h.items, t) + h.items[sp[t].1 as int].length,
        ))))
    &&& (forall|t: int|
        0 <= t < sp.len() ==> ((#[trigger] out[t]) matches UnpackEntry::CopyOf {
            path: _p,
            source,
        } ==> exists|t2: int|
            #![trigger out[t2]]
            0 <= t2 < t && out[t2] is File && sp[t2].1 == sp[t].1 && entry_path(out[t2])
                == source@))
}

/// The whole success contract of `unpack`, as one predicate.
pub open spec fn unpack_ok_post(
    h: crate::file_format::HeaderView,
    payload: Seq<u8>,
    out: Seq<UnpackEntry>,
) -> bool {
    &&& crate::trie::wf_struct(h.nodes)
    &&& exists|sp: Seq<(Seq<u16>, u16)>| #[trigger] unpacked_paths_ok(h, payload, out, sp)
}

/// Restores every stored path from an archive's bytes.
///
/// Directories come out as `Dir`, the first path of each item as `File`
/// with the item's bytes, and further paths of the same item as `CopyOf`
/// pointing at the already restored path.  A malformed node table is
/// exactly `BadNodeTable`, a short payload exactly `Truncated`, and a
/// viable archive — well-formed trie, decodable chunks, ids in range,
/// enough decoded bytes — must unpack.
#[verifier::loop_isolation(false)]
#[verifier::rlimit(100)]
pub fn unpack(d: &[u8]) -> (r: Result<Vec<UnpackEntry>, ArchiveError>)
    ensures
        parse_header(d@) matches Err(pe) ==> r == Err::<Vec<UnpackEntry>, ArchiveError>(pe),
        parse_header(d@) matches Ok(p0) ==> (r == Err::<Vec<UnpackEntry>, ArchiveError>(
            ArchiveError::BadNodeTable,
        ) <==> !crate::trie::wf_struct(p0.0.nodes)),
        parse_header(d@) matches Ok(p0) ==> (crate::trie::wf_struct(p0.0.nodes)
            ==> (spec_decode_chunks(p0.0.chunks, d@.subrange(p0.1, d@.len() as int)) matches Err(
            de,
        ) ==> r == Err::<Vec<UnpackEntry>, ArchiveError>(de))),
        parse_header(d@) matches Ok(p0) ==> r == Err::<Vec<UnpackEntry>, ArchiveError>(
            ArchiveError::Truncated,
        ) ==> spec_decode_chunks(p0.0.chunks, d@.subrange(p0.1, d@.len() as int)) == Err::<
            Seq<Seq<u8>>,
            ArchiveError,
        >(ArchiveError::Truncated),
        parse_header(d@) matches Ok(p0) ==> unpack_viable(
            p0.0,
            d@.subrange(p0.1, d@.len() as int),
        ) ==> r is Ok,
        parse_header(d@) matches Ok(p0) ==> r matches Ok(out) ==> unpack_ok_post(
            p0.0,
            d@.subrange(p0.1, d@.len() as int),
            out@,
        ),
        parse_header(d@) matches Ok(p0) ==> r matches Err(e) ==> (e == ArchiveError::BadNodeTable
            || e == ArchiveError::Truncated || e == ArchiveError::DataCorrupted),
{
    let (header, hlen) = match crate::file_format::read_header(d) {
        Ok(p) => p,
        Err(e) => {
            return Err(e);
        },
    };
    let ghost hview = header@;
    let tbl = LookupTable::from_nodes(header.nodes);
    if !tbl.check_structure() {
        return Err(ArchiveError::BadNodeTable);
    }
    proof {
        assert(hview.nodes == tbl.nodes@);
    }
    let pairs = tbl.build_items();
    let sorted = sort_units_by_id(pairs);
    let ghost sp = crate::trie::entry_views(sorted@);
    let payload = &d[hlen..d.len()];
    let ghost pl = payload@;
    proof {
        assert(pl =~= d@.subrange(hlen as int, d@.len() as int));
    }
    let ds = match decode_chunks(payload, &header.chunks) {
        Ok(ds) => ds,
        Err(e) => {
            proof {
                lemma_decode_errs(hview.chunks, pl, 0);
            }
            return Err(e);
        },
    };
    let ghost ds0 = ds@;
    let ghost dsv = buf_views(ds0);
    let mut bw = BufferWriter::new(ds);
    proof {
        lemma_stream_is_flat(ds0);
        broadcast use vstd::seq_lib::group_to_multiset_ensures;

    }
    let mut out: Vec<UnpackEntry> = Vec::new();
    let mut last_id: u16 = 0;
    let mut last_path: Option<String> = None;
    let mut t: usize = 0;
    while t < sorted.len()
        invariant
            t <= sorted@.len(),
            out@.len() == t,
            sp == crate::trie::entry_views(sorted@),
            sp.len() == sorted@.len(),
            bw.wf(),
            bw.bufs@ == ds0,
            bw.consumed() == consumed_before(sp, hview.items, t as int),
            t > 0 ==> consumed_before(sp, hview.items, t as int) <= items_prefix_total(
                hview.items,
                sp[t - 1].1 as int + 1,
            ),
            forall|q: int, s: Seq<char>|
                #![trigger sp[q], utf16_of(s)]
                0 <= q < t && utf16_of(s) == sp[q].0 ==> entry_path(out@[q]) == s,
            forall|q: int| 0 <= q < t ==> ((#[trigger] sp[q]).1 == 0 <==> out@[q] is Dir),
            forall|q: int|
                0 <= q < t ==> ((#[trigger] out@[q]) is CopyOf <==> q > 0 && sp[q].1 != 0 && sp[q].1
                    == sp[q - 1].1),
            forall|q: int|
                0 <= q < t ==> ((#[trigger] out@[q]) matches UnpackEntry::File { path: _p, data }
                    ==> (sp[q].1 < hview.items.len() && data@ == flat_bytes(dsv).subrange(
                    consumed_before(sp, hview.items, q),
                    consumed_before(sp, hview.items, q) + hview.items[sp[q].1 as int].length,
                ))),
            forall|q: int|
                0 <= q < t ==> ((#[trigger] out@[q]) matches UnpackEntry::CopyOf {
                    path: _p,
                    source,
                } ==> exists|t2: int|
                    #![trigger out@[t2]]
                    0 <= t2 < q && out@[t2] is File && sp[t2].1 == sp[q].1 && entry_path(out@[t2])
                        == source@),
            t > 0 && sp[t - 1].1 != 0 ==> (last_path matches Some(lp) && exists|t2: int|
                #![trigger out@[t2]]
                0 <= t2 < t && out@[t2] is File && sp[t2].1 == sp[t - 1].1 && entry_path(out@[t2])
                    == lp@),
            t > 0 ==> last_id == sp[t - 1].1,
            t == 0 ==> last_id == 0,
        decreases sorted@.len() - t,
    {
        let ghost out_pre = out@;
        let ghost lp_pre = last_path;
        let path = crate::text::decode_utf16_string(&sorted[t].0);
        let id = sorted[t].1;
        proof {
            assert(sp[t as int] == (sorted@[t as int].0@, sorted@[t as int].1));
        }
        if id == 0 {
            proof {
                assert(!first_occurrence(sp, t as int));
                if t > 0 {
                    assert(sp[t as int - 1].1 <= sp[t as int].1);
                    assert(items_prefix_total(hview.items, sp[t as int - 1].1 as int + 1) <= items_prefix_total(
                        hview.items,
                        1,
                    )) by {
                        lemma_items_prefix_mono(
                            hview.items,
                            sp[t as int - 1].1 as int + 1,
                            1,
                        );
                    }
                }
            }
            out.push(UnpackEntry::Dir { path });
        } else if t > 0 && id == last_id {
            proof {
                assert(!first_occurrence(sp, t as int));
            }
            let src = match &last_path {
                Some(s) => s.clone(),
                None => {
                    proof {
                        assert(false);
                    }
                    String::new()
                },
            };
            proof {
                assert(exists|t2: int|
                    #![trigger out@[t2]]
                    0 <= t2 < t && out@[t2] is File && sp[t2 as int].1 == sp[t as int - 1].1
                        && entry_path(out@[t2]) == src@);
            }
            let ghost wit = choose|t2: int|
                #![trigger out@[t2]]
                0 <= t2 < t && out@[t2] is File && sp[t2 as int].1 == sp[t as int - 1].1
                    && entry_path(out@[t2]) == src@;
            out.push(UnpackEntry::CopyOf { path, source: src });
            proof {
                assert(out@[t as int] matches UnpackEntry::CopyOf { path: _p, source } && source@
                    == entry_path(out@[wit]));
                assert(out@[wit] is File && sp[wit].1 == sp[t as int].1);
            }
        } else {
            proof {
                assert(first_occurrence(sp, t as int));
                if t > 0 {
                    assert(sp[t as int - 1].1 < id);
                }
            }
            if (id as usize) >= header.items.len() {
                proof {
                    if unpack_viable(hview, pl) {
                        assert(sp.to_multiset().count(sp[t as int]) > 0);
                        assert(crate::trie::dfs_entries(hview.nodes, 0, Seq::empty()).contains(
                            sp[t as int],
                        ));
                        let j = choose|j: int|
                            0 <= j < crate::trie::dfs_entries(hview.nodes, 0, Seq::empty()).len()
                                && crate::trie::dfs_entries(hview.nodes, 0, Seq::empty())[j] == sp[
                            t as int];
                        assert(false);
                    }
                }
                return Err(ArchiveError::DataCorrupted);
            }
            let length = header.items[id as usize].length;
            proof {
                assert(hview.items[id as int].length == length as u32);
                assert(consumed_before(sp, hview.items, t as int) + length <= items_prefix_total(
                    hview.items,
                    id as int + 1,
                )) by {
                    if t > 0 {
                        lemma_items_prefix_mono(
                            hview.items,
                            sp[t as int - 1].1 as int + 1,
                            id as int,
                        );
                    } else {
                        lemma_items_prefix_mono(hview.items, 1, id as int);
                    }
                }
            }
            let data = match bw.write(length) {
                Ok(b) => b,
                Err(e) => {
                    proof {
                        if unpack_viable(hview, pl) {
                            lemma_items_prefix_mono(
                                hview.items,
                                id as int + 1,
                                hview.items.len() as int,
                            );
                            assert(false);
                        }
                    }
                    return Err(e);
                },
            };
            let ghost dv = data@;
            let path2 = path.clone();
            out.push(UnpackEntry::File { path, data });
            last_path = Some(path2);
            proof {
                assert(out@[t as int] is File);
                assert(entry_path(out@[t as int]) == path2@);
                assert(out@[t as int] matches UnpackEntry::File { path: _p, data: dd } && dd@
                    == dv);
                assert(dv == flat_bytes(dsv).subrange(
                    consumed_before(sp, hview.items, t as int),
                    consumed_before(sp, hview.items, t as int) + hview.items[sp[t as int].1 as int].length,
                ));
            }
        }
        proof {
            assert(forall|q: int| 0 <= q < t ==> #[trigger] out@[q] == out_pre[q]);
            assert forall|q: int| 0 <= q < t implies ((#[trigger] out@[q]) matches UnpackEntry::CopyOf {
                path: _p,
                source,
            } ==> exists|t2: int|
                #![trigger out@[t2]]
                0 <= t2 < q && out@[t2] is File && sp[t2].1 == sp[q].1 && entry_path(out@[t2])
                    == source@) by {
                match out_pre[q] {
                    UnpackEntry::CopyOf { path: _pp, source: so2 } => {
                        let t2 = choose|t2: int|
                            #![trigger out_pre[t2]]
                            0 <= t2 < q && out_pre[t2] is File && sp[t2].1 == sp[q].1 && entry_path(
                                out_pre[t2],
                            ) == so2@;
                        assert(out@[t2] == out_pre[t2]);
                    },
                    _ => {},
                }
            }
            if t > 0 && sp[t as int - 1].1 != 0 && id == 0 {
                assert(false);
            }
            if last_path == lp_pre && t > 0 && sp[t as int - 1].1 != 0 {
                match lp_pre {
                    Some(lp2) => {
                        let t2 = choose|t2: int|
                            #![trigger out_pre[t2]]
                            0 <= t2 < t && out_pre[t2] is File && sp[t2].1 == sp[t as int - 1].1
                                && entry_path(out_pre[t2]) == lp2@;
                        assert(out@[t2] == out_pre[t2]);
                    },
                    None => {},
                }
            }
        }
        last_id = id;
        t += 1;
    }
    proof {
        assert(sp.to_multiset() == crate::trie::dfs_entries(hview.nodes, 0, Seq::empty()).to_multiset());
        assert(chunks_view(header.chunks@) == hview.chunks);
        assert forall|k2: int| 0 <= k2 < hview.chunks.len() implies chunk_decodes(
            #[trigger] hview.chunks[k2],
            pl.subrange(
                cum_clen(hview.chunks, k2),
                cum_clen(hview.chunks, k2) + hview.chunks[k2].compressed_length,
            ),
            dsv[k2],
        ) by {
            assert(hview.chunks[k2] == header.chunks@[k2]@);
            assert(dsv[k2] == ds0[k2]@);
        }
        assert(unpacked_paths_ok(hview, pl, out@, sp));
        assert(exists|sp2: Seq<(Seq<u16>, u16)>|
            #[trigger] unpacked_paths_ok(hview, pl, out@, sp2));
        assert(unpack_ok_post(hview, pl, out@));
    }
    Ok(out)
}

/// What `list` reports of an archive.
pub struct ListInfo {
    /// Whether the solid flag bit is set.
    pub solid: bool,
    /// Declared number of directory entries.
    pub dir_count: usize,
    /// Declared number of file entries.
    pub file_count: usize,
    /// Number of trie nodes.
    pub node_count: usize,
    /// Number of items.
    pub item_count: usize,
    /// Number of chunks.
    pub chunk_count: usize,
    /// Every stored (path, item id), sorted by item id.
    pub entries: Vec<(String, u16)>,
}

/// Pairs of decoded paths and ids matching an id-sorted arrangement of the
/// trie's pairs.
pub open spec fn listed_paths_ok(
    nodes: Seq<crate::file_format::Node>,
    paths: Seq<(String, u16)>,
    sp: Seq<(Seq<u16>, u16)>,
) -> bool {
    &&& sp.to_multiset() == crate::trie::dfs_entries(nodes, 0, Seq::empty()).to_multiset()
    &&& sp.len() == paths.len()
    &&& (forall|t: int| 0 <= t < sp.len() ==> (#[trigger] paths[t]).1 == sp[t].1)
    &&& (forall|t: int, s: Seq<char>|
        #![trigger sp[t], utf16_of(s)]
        0 <= t < sp.len() && utf16_of(s) == sp[t].0 ==> paths[t].0@ == s)
    &&& (forall|i: int, j: int| 0 <= i < j < sp.len() ==> (#[trigger] sp[i]).1 <= (#[trigger] sp[j]).1)
}

/// The whole success contract of `list`, as one predicate.
pub open spec fn list_ok_post(h: crate::file_format::HeaderView, info: ListInfo) -> bool {
    &&& crate::trie::wf_struct(h.nodes)
    &&& info.solid == ((h.flags & crate::file_format::FILE_FLAG_SOLID) != 0)
    &&& info.dir_count == h.dir_count
    &&& info.file_count == h.file_count
    &&& info.node_count == h.nodes.len()
    &&& info.item_count == h.items.len()
    &&& info.chunk_count == h.chunks.len()
    &&& exists|sp: Seq<(Seq<u16>, u16)>| #[trigger] listed_paths_ok(h.nodes, info.entries@, sp)
}

/// Parses an archive and lists its stored paths without touching the
/// chunk payload.
#[verifier::loop_isolation(false)]
pub fn list(d: &[u8]) -> (r: Result<ListInfo, ArchiveError>)
    ensures
        parse_header(d@) matches Err(pe) ==> r == Err::<ListInfo, ArchiveError>(pe),
        parse_header(d@) matches Ok(p0) ==> r matches Err(e) ==> (e == ArchiveError::BadNodeTable
            && !crate::trie::wf_struct(p0.0.nodes)),
        parse_header(d@) matches Ok(p0) ==> r matches Ok(info) ==> list_ok_post(p0.0, info),
{
    let (header, _hlen) = match crate::file_format::read_header(d) {
        Ok(p) => p,
        Err(e) => {
            return Err(e);
        },
    };
    let ghost hview = header@;
    let dir_count = header.dir_count;
    let file_count = header.file_count;
    let item_count = header.items.len();
    let chunk_count = header.chunks.len();
    let flags = header.flags;
    let tbl = LookupTable::from_nodes(header.nodes);
    if !tbl.check_structure() {
        return Err(ArchiveError::BadNodeTable);
    }
    let node_count = tbl.nodes.len();
    let pairs = tbl.build_items();
    let sorted = sort_units_by_id(pairs);
    let ghost sp = crate::trie::entry_views(sorted@);
    let mut entries: Vec<(String, u16)> = Vec::new();
    let mut t: usize = 0;
    while t < sorted.len()
        invariant
            t <= sorted@.len(),
            entries@.len() == t,
            sp == crate::trie::entry_views(sorted@),
            sp.len() == sorted@.len(),
            forall|q: int| 0 <= q < t ==> (#[trigger] entries@[q]).1 == sp[q].1,
            forall|q: int, s: Seq<char>|
                #![trigger sp[q], utf16_of(s)]
                0 <= q < t && utf16_of(s) == sp[q].0 ==> entries@[q].0@ == s,
        decreases sorted@.len() - t,
    {
        let path = crate::text::decode_utf16_string(&sorted[t].0);
        let id = sorted[t].1;
        proof {
            assert(sp[t as int] == (sorted@[t as int].0@, sorted@[t as int].1));
        }
        entries.push((path, id));
        t += 1;
    }
    let solid = (flags & crate::file_format::FILE_FLAG_SOLID) != 0;
    let info = ListInfo { solid, dir_count, file_count, node_count, item_count, chunk_count, entries };
    proof {
        assert(hview.nodes == tbl.nodes@);
        assert(listed_paths_ok(hview.nodes, info.entries@, sp));
        assert(exists|sp2: Seq<(Seq<u16>, u16)>|
            #[trigger] listed_paths_ok(hview.nodes, info.entries@, sp2));
        assert(list_ok_post(hview, info));
    }
    Ok(info)
}

} // verus!
