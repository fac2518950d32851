//! On-disk layout of an archive: header, trie nodes, item table, chunk table.
//!
//! Everything is little-endian.  The layout is
//! `magic[4], version: u16, flags: u16, chunk_size: u32, dir_count: u32,
//! file_count: u32, node_count: u32, nodes, item_count: u32, items,
//! chunk_count: u32, chunks, payload`.

use vstd::prelude::*;

verus! {

/// The single supported format version.
pub const FILE_VERSION: u16 = 1;

/// Child index meaning "no child" in a trie node.
pub const NO_CHILD: u16 = 0xFFFF;

/// Hard ceiling on the node table: child indices are 16-bit and `0xFFFF`
/// is reserved for "no child".
pub const MAX_NODES: usize = 0xFFFE;

/// Hard ceiling on the item table: item ids are 16-bit.
pub const MAX_ITEMS: usize = 0xFFFE;

/// Everything that can go wrong while packing or reading an archive.
#[derive(Clone, Copy, PartialEq, Eq, Structural, Debug)]
pub enum ArchiveError {
    /// The archive does not start with the magic bytes.
    BadMagic,
    /// The archive's version field is not the supported version.
    BadVersion,
    /// The archive ends before the structure it announces.
    Truncated,
    /// A chunk record carries an unknown compression algorithm tag.
    BadAlgorithm,
    /// The node table is not a well-formed trie.
    BadNodeTable,
    /// A table would exceed a 16-bit or 32-bit limit of the format.
    LimitExceeded,
    /// The realized chunk table does not match the reserved one.
    InternalMismatch,
    /// A chunk's payload does not decompress to its declared length.
    DataCorrupted,
    /// A destination path contains a NUL character, which the path index
    /// cannot store.
    InvalidPath,
}

impl ArchiveError {
    /// A short human-readable description of the error.
    pub fn message(&self) -> &'static str {
        match self {
            ArchiveError::BadMagic => "invalid file magic",
            ArchiveError::BadVersion => "invalid file version",
            ArchiveError::Truncated => "archive is truncated",
            ArchiveError::BadAlgorithm => "invalid chunk compression algorithm",
            ArchiveError::BadNodeTable => "malformed path index",
            ArchiveError::LimitExceeded => "archive limits exceeded",
            ArchiveError::InternalMismatch => "chunk table mismatch",
            ArchiveError::DataCorrupted => "chunk data is corrupted",
            ArchiveError::InvalidPath => "destination path holds a NUL",
        }
    }
}

/// Archive-wide flag bits.
pub enum FileFlag {
    /// Chunks may span multiple items, up to the nominal chunk size.
    Solid,
}

/// Flag bit for the "solid" mode.
pub const FILE_FLAG_SOLID: u16 = 2;

/// Per-item flag bits.
pub enum ItemFlag {
    /// The item is the directory sentinel.
    Dir,
}

/// Flag bit marking the directory sentinel item.
pub const ITEM_FLAG_DIR: u16 = 1;

/// One node of the path trie, as stored on disk.
///
/// `ch` is one UTF-16 code unit; a node with `ch == 0` is a terminal and its
/// `eqkid` holds the item id of the path ending there.  `0xFFFF` means
/// "no child".
#[derive(Clone, Copy, PartialEq, Eq, Structural, Debug)]
pub struct Node {
    /// UTF-16 code unit, 0 at a terminal.
    pub ch: u16,
    /// Child taken when the looked-up unit is smaller than `ch`.
    pub lokid: u16,
    /// Child taken on an equal unit; the item id at a terminal.
    pub eqkid: u16,
    /// Child taken when the looked-up unit is greater than `ch`.
    pub hikid: u16,
}

impl Node {
    /// A fresh node with no character and no children.
    pub fn new() -> (r: Node)
        ensures
            r == (Node { ch: 0u16, lokid: NO_CHILD, eqkid: NO_CHILD, hikid: NO_CHILD }),
    {
        Node { ch: 0, lokid: NO_CHILD, eqkid: NO_CHILD, hikid: NO_CHILD }
    }
}

/// Compression algorithm of one chunk.
#[derive(Clone, Copy, PartialEq, Eq, Structural, Debug)]
pub enum AlgorithmType {
    /// Bytes are stored as they are.
    Store,
    /// Bytes are LZF-compressed.
    Lzf,
}

/// The tag under which an algorithm is stored on disk.
pub open spec fn algorithm_value(a: AlgorithmType) -> u16 {
    match a {
        AlgorithmType::Store => 0u16,
        AlgorithmType::Lzf => 1u16,
    }
}

/// Encodes an algorithm as its on-disk tag.
pub fn algorithm_to_u16(a: AlgorithmType) -> (r: u16)
    ensures
        r == algorithm_value(a),
{
    match a {
        AlgorithmType::Store => 0,
        AlgorithmType::Lzf => 1,
    }
}

/// Decodes an on-disk tag; tags other than 0 and 1 are unknown.
pub fn algorithm_from_u16(v: u16) -> (r: Option<AlgorithmType>)
    ensures
        v == 0 ==> r == Some(AlgorithmType::Store),
        v == 1 ==> r == Some(AlgorithmType::Lzf),
        v > 1 ==> r is None,
    {
    if v == 0 {
        Some(AlgorithmType::Store)
    } else if v == 1 {
        Some(AlgorithmType::Lzf)
    } else {
        None
    }
}

/// One stored byte range and how it was encoded.
#[derive(Clone, Copy, PartialEq, Eq, Structural, Debug)]
pub struct Chunk {
    /// How the chunk's bytes are encoded.
    pub algorithm: AlgorithmType,
    /// Reserved flag bits, written as given.
    pub flags: u16,
    /// Length of the chunk once decompressed.
    pub length: usize,
    /// Length of the chunk as stored in the payload.
    pub compressed_length: usize,
}

/// One unique content blob (or the directory sentinel).
///
/// Only `reference`, `flags`, `offset` and `length` are persisted; the digest
/// and the source file name exist during packing alone.
#[derive(Clone, Debug)]
pub struct Item {
    /// Content digest used as half of the dedup key.
    pub digest: Vec<u8>,
    /// Source path the bytes come from (not persisted).
    pub fname: String,
    /// How many path entries point at this item.
    pub reference: u16,
    /// Flag bits; bit 0 marks the directory sentinel.
    pub flags: u16,
    /// Byte offset in the logical uncompressed stream.
    pub offset: usize,
    /// Declared byte length.
    pub length: usize,
}

/// A parsed or under-construction archive header.
#[derive(Clone, Debug)]
pub struct Header {
    /// The magic bytes, always `K A r space`.
    pub magic: Vec<u8>,
    /// Format version.
    pub version: u16,
    /// Archive-wide flag bits.
    pub flags: u16,
    /// Nominal chunk size; 0 in per-file mode.
    pub chunk_size: usize,
    /// Number of directory entries.
    pub dir_count: usize,
    /// Number of file entries.
    pub file_count: usize,
    /// The serialized path trie.
    pub nodes: Vec<Node>,
    /// The item table.
    pub items: Vec<Item>,
    /// The chunk table.
    pub chunks: Vec<Chunk>,
}

/// The persisted fields of an item record.
#[verifier::ext_equal]
pub ghost struct ItemView {
    /// Reference count.
    pub reference: u16,
    /// Flag bits.
    pub flags: u16,
    /// Offset in the logical stream.
    pub offset: u32,
    /// Declared length.
    pub length: u32,
}

/// The persisted fields of a chunk record.
#[verifier::ext_equal]
pub ghost struct ChunkView {
    /// On-disk algorithm tag.
    pub algorithm: u16,
    /// Flag bits.
    pub flags: u16,
    /// Decompressed length.
    pub length: u32,
    /// Stored length.
    pub compressed_length: u32,
}

/// The persisted part of a header.
#[verifier::ext_equal]
pub ghost struct HeaderView {
    /// Archive-wide flag bits.
    pub flags: u16,
    /// Nominal chunk size.
    pub chunk_size: u32,
    /// Number of directory entries.
    pub dir_count: u32,
    /// Number of file entries.
    pub file_count: u32,
    /// The node table.
    pub nodes: Seq<Node>,
    /// The item table.
    pub items: Seq<ItemView>,
    /// The chunk table.
    pub chunks: Seq<ChunkView>,
}

/// The persisted views of a sequence of items.
pub open spec fn items_view(items: Seq<Item>) -> Seq<ItemView> {
    items.map_values(|it: Item| it@)
}

/// The persisted views of a sequence of chunks.
pub open spec fn chunks_view(chunks: Seq<Chunk>) -> Seq<ChunkView> {
    chunks.map_values(|c: Chunk| c@)
}

impl View for Item {
    type V = ItemView;

    open spec fn view(&self) -> ItemView {
        ItemView {
            reference: self.reference,
            flags: self.flags,
            offset: self.offset as u32,
            length: self.length as u32,
        }
    }
}

impl View for Chunk {
    type V = ChunkView;

    open spec fn view(&self) -> ChunkView {
        ChunkView {
            algorithm: algorithm_value(self.algorithm),
            flags: self.flags,
            length: self.length as u32,
            compressed_length: self.compressed_length as u32,
        }
    }
}

impl View for Header {
    type V = HeaderView;

    open spec fn view(&self) -> HeaderView {
        HeaderView {
            flags: self.flags,
            chunk_size: self.chunk_size as u32,
            dir_count: self.dir_count as u32,
            file_count: self.file_count as u32,
            nodes: self.nodes@,
            items: items_view(self.items@),
            chunks: chunks_view(self.chunks@),
        }
    }
}

/// The four magic bytes `K A r space`.
pub open spec fn spec_magic() -> Seq<u8> {
    seq![75u8, 65u8, 114u8, 32u8]
}

/// Builds the magic bytes.
pub fn magic_bytes() -> (r: Vec<u8>)
    ensures
        r@ == spec_magic(),
{
    let mut v: Vec<u8> = Vec::new();
    v.push(75);
    v.push(65);
    v.push(114);
    v.push(32);
    proof {
        assert(v@ =~= spec_magic());
    }
    v
}

// ---------------------------------------------------------------------------
// Little-endian encoding
// ---------------------------------------------------------------------------

/// Little-endian bytes of a 16-bit value.
pub open spec fn le16(v: u16) -> Seq<u8> {
    seq![(v % 256) as u8, (v / 256) as u8]
}

/// Little-endian bytes of a 32-bit value.
pub open spec fn le32(v: u32) -> Seq<u8> {
    seq![
        (v % 256) as u8,
        ((v / 256) % 256) as u8,
        ((v / 65536) % 256) as u8,
        ((v / 16777216) % 256) as u8,
    ]
}

/// The 16-bit value encoded at `pos`.
pub open spec fn rd16(d: Seq<u8>, pos: int) -> u16 {
    ((d[pos] as int) + 256 * (d[pos + 1] as int)) as u16
}

/// The 32-bit value encoded at `pos`.
pub open spec fn rd32(d: Seq<u8>, pos: int) -> u32 {
    ((d[pos] as int) + 256 * (d[pos + 1] as int) + 65536 * (d[pos + 2] as int) + 16777216 * (
    d[pos + 3] as int)) as u32
}

/// Reading two bytes that encode `v` gives back `v`.
pub proof fn lemma_rd16_le16(d: Seq<u8>, pos: int, v: u16)
    requires
        0 <= pos,
        pos + 2 <= d.len(),
        d[pos] == le16(v)[0],
        d[pos + 1] == le16(v)[1],
    ensures
        rd16(d, pos) == v,
{
    assert((v % 256) + 256 * (v / 256) == v) by (nonlinear_arith);
}

/// Reading four bytes that encode `v` gives back `v`.
pub proof fn lemma_rd32_le32(d: Seq<u8>, pos: int, v: u32)
    requires
        0 <= pos,
        pos + 4 <= d.len(),
        d[pos] == le32(v)[0],
        d[pos + 1] == le32(v)[1],
        d[pos + 2] == le32(v)[2],
        d[pos + 3] == le32(v)[3],
    ensures
        rd32(d, pos) == v,
{
    assert((v % 256) + 256 * ((v / 256) % 256) + 65536 * ((v / 65536) % 256) + 16777216 * ((v
        / 16777216) % 256) == v) by (nonlinear_arith);
}

/// Appends the little-endian bytes of a 16-bit value.
pub fn write_u16le(out: &mut Vec<u8>, v: u16)
    ensures
        final(out)@ == old(out)@ + le16(v),
{
    out.push((v % 256) as u8);
    out.push((v / 256) as u8);
    proof {
        assert(out@ =~= old(out)@ + le16(v));
    }
}

/// Appends the little-endian bytes of a 32-bit value.
pub fn write_u32le(out: &mut Vec<u8>, v: u32)
    ensures
        final(out)@ == old(out)@ + le32(v),
{
    out.push((v % 256) as u8);
    out.push(((v / 256) % 256) as u8);
    out.push(((v / 65536) % 256) as u8);
    out.push(((v / 16777216) % 256) as u8);
    proof {
        assert(out@ =~= old(out)@ + le32(v));
    }
}

/// Reads the 16-bit value at `pos`.
pub fn read_u16le(d: &[u8], pos: usize) -> (r: u16)
    requires
        pos + 2 <= d@.len(),
    ensures
        r == rd16(d@, pos as int),
{
    (d[pos] as u16) + 256 * (d[pos + 1] as u16)
}

/// Reads the 32-bit value at `pos`.
pub fn read_u32le(d: &[u8], pos: usize) -> (r: u32)
    requires
        pos + 4 <= d@.len(),
    ensures
        r == rd32(d@, pos as int),
{
    (d[pos] as u32) + 256 * (d[pos + 1] as u32) + 65536 * (d[pos + 2] as u32) + 16777216 * (
    d[pos + 3] as u32)
}

// ---------------------------------------------------------------------------
// Record serialization
// ---------------------------------------------------------------------------

/// On-disk bytes of one trie node.
pub open spec fn ser_node(n: Node) -> Seq<u8> {
    le16(n.ch) + le16(n.lokid) + le16(n.eqkid) + le16(n.hikid)
}

/// On-disk bytes of a record table: each record serialized by `f`, concatenated.
pub open spec fn ser_list<T>(s: Seq<T>, f: spec_fn(T) -> Seq<u8>) -> Seq<u8>
    decreases s.len(),
{
    if s.len() == 0 {
        Seq::empty()
    } else {
        f(s[0]) + ser_list(s.skip(1), f)
    }
}

/// A table of fixed-size records takes `w` bytes per record.
pub proof fn lemma_ser_list_len<T>(s: Seq<T>, f: spec_fn(T) -> Seq<u8>, w: int)
    requires
        forall|x: T| (#[trigger] f(x)).len() == w,
    ensures
        ser_list(s, f).len() == w * s.len(),
    decreases s.len(),
{
    if s.len() == 0 {
    } else {
        lemma_ser_list_len(s.skip(1), f, w);
        assert(w * s.len() == w + w * (s.len() - 1)) by (nonlinear_arith);
    }
}

/// Serializing one more record appends its bytes.
pub proof fn lemma_ser_list_snoc<T>(s: Seq<T>, f: spec_fn(T) -> Seq<u8>, i: int)
    requires
        0 <= i < s.len(),
    ensures
        ser_list(s.take(i + 1), f) == ser_list(s.take(i), f) + f(s[i]),
    decreases i,
{
    if i == 0 {
        let s1 = s.take(1);
        assert(s1.len() == 1);
        assert(s1[0] == s[0]);
        assert(s1.skip(1) =~= Seq::<T>::empty());
        assert(ser_list(s1.skip(1), f) == Seq::<u8>::empty());
        assert(ser_list(s1, f) == f(s[0]) + Seq::<u8>::empty());
        assert(s.take(0) =~= Seq::<T>::empty());
        assert(ser_list(s.take(0), f) == Seq::<u8>::empty());
        assert(f(s[0]) + Seq::<u8>::empty() =~= f(s[0]));
        assert(Seq::<u8>::empty() + f(s[0]) =~= f(s[0]));
    } else {
        lemma_ser_list_snoc(s.skip(1), f, i - 1);
        let a = s.take(i + 1);
        let b = s.take(i);
        assert(a[0] == s[0]);
        assert(b[0] == s[0]);
        assert(a.skip(1) =~= s.skip(1).take(i));
        assert(b.skip(1) =~= s.skip(1).take(i - 1));
        assert(s.skip(1)[i - 1] == s[i]);
        assert(ser_list(a, f) == f(s[0]) + ser_list(s.skip(1).take(i), f));
        assert(ser_list(b, f) == f(s[0]) + ser_list(s.skip(1).take(i - 1), f));
        assert(f(s[0]) + (ser_list(s.skip(1).take(i - 1), f) + f(s[i])) =~= (f(s[0]) + ser_list(
            s.skip(1).take(i - 1),
            f,
        )) + f(s[i]));
    }
}

/// The node encoder as one named closure.
pub open spec fn node_encoder() -> spec_fn(Node) -> Seq<u8> {
    |n: Node| ser_node(n)
}

/// The item encoder as one named closure.
pub open spec fn item_encoder() -> spec_fn(ItemView) -> Seq<u8> {
    |it: ItemView| ser_item(it)
}

/// The chunk encoder as one named closure.
pub open spec fn chunk_encoder() -> spec_fn(ChunkView) -> Seq<u8> {
    |c: ChunkView| ser_chunk(c)
}

/// On-disk bytes of a node table, without its count.
pub open spec fn ser_nodes(ns: Seq<Node>) -> Seq<u8> {
    ser_list(ns, node_encoder())
}

/// On-disk bytes of one item record.
pub open spec fn ser_item(it: ItemView) -> Seq<u8> {
    le16(it.reference) + le16(it.flags) + le32(it.offset) + le32(it.length)
}

/// On-disk bytes of an item table, without its count.
pub open spec fn ser_items(its: Seq<ItemView>) -> Seq<u8> {
    ser_list(its, item_encoder())
}

/// On-disk bytes of one chunk record.
pub open spec fn ser_chunk(c: ChunkView) -> Seq<u8> {
    le16(c.algorithm) + le16(c.flags) + le32(c.length) + le32(c.compressed_length)
}

/// On-disk bytes of a chunk table, without its count.
pub open spec fn ser_chunks(cs: Seq<ChunkView>) -> Seq<u8> {
    ser_list(cs, chunk_encoder())
}

/// Whether a header's tables fit the 32-bit count fields.
pub open spec fn counts_fit(h: HeaderView) -> bool {
    &&& h.nodes.len() <= 0xFFFF_FFFF
    &&& h.items.len() <= 0xFFFF_FFFF
    &&& h.chunks.len() <= 0xFFFF_FFFF
}

/// The whole serialized header, chunk table included, payload excluded.
pub open spec fn ser_header(h: HeaderView) -> Seq<u8> {
    spec_magic() + le16(FILE_VERSION) + le16(h.flags) + le32(h.chunk_size) + le32(h.dir_count)
        + le32(h.file_count) + le32(h.nodes.len() as u32) + ser_nodes(h.nodes) + le32(
    h.items.len() as u32) + ser_items(h.items) + le32(h.chunks.len() as u32) + ser_chunks(h.chunks)
}

/// Byte offset of the chunk-table count within a serialized header.
pub open spec fn chunk_table_offset(h: HeaderView) -> int {
    24 + 8 * (h.nodes.len() as int) + 4 + 12 * (h.items.len() as int)
}

/// The serialized header's total length.
pub proof fn lemma_ser_header_len(h: HeaderView)
    ensures
        ser_header(h).len() == chunk_table_offset(h) + 4 + 12 * h.chunks.len(),
        ser_nodes(h.nodes).len() == 8 * h.nodes.len(),
        ser_items(h.items).len() == 12 * h.items.len(),
        ser_chunks(h.chunks).len() == 12 * h.chunks.len(),
{
    lemma_ser_list_len(h.nodes, node_encoder(), 8);
    lemma_ser_list_len(h.items, item_encoder(), 12);
    lemma_ser_list_len(h.chunks, chunk_encoder(), 12);
}

// ---------------------------------------------------------------------------
// Parsing
// ---------------------------------------------------------------------------

/// A table of `n` records of width `w`, each decoded by `f`, starting at `pos`.
pub open spec fn parse_records<T>(
    d: Seq<u8>,
    pos: int,
    n: int,
    w: int,
    f: spec_fn(Seq<u8>, int) -> T,
) -> Seq<T>
    decreases n,
{
    if n <= 0 {
        Seq::empty()
    } else {
        seq![f(d, pos)] + parse_records(d, pos + w, n - 1, w, f)
    }
}

/// Parsing one more record appends it.
pub proof fn lemma_parse_records_snoc<T>(
    d: Seq<u8>,
    pos: int,
    i: int,
    w: int,
    f: spec_fn(Seq<u8>, int) -> T,
)
    requires
        i >= 0,
    ensures
        parse_records(d, pos, i + 1, w, f) == parse_records(d, pos, i, w, f).push(
            f(d, pos + w * i),
        ),
    decreases i,
{
    if i == 0 {
        assert(w * 0 == 0);
        assert(parse_records(d, pos + w, 0, w, f) == Seq::<T>::empty());
        assert(seq![f(d, pos)] + Seq::<T>::empty() =~= Seq::<T>::empty().push(f(d, pos)));
    } else {
        lemma_parse_records_snoc(d, pos + w, i - 1, w, f);
        assert(w * i == w + w * (i - 1)) by (nonlinear_arith);
        assert(seq![f(d, pos)] + parse_records(d, pos + w, i - 1, w, f).push(f(d, pos + w * i))
            =~= (seq![f(d, pos)] + parse_records(d, pos + w, i - 1, w, f)).push(f(d, pos + w * i)));
    }
}

/// Decoder closures, named so that spec and proofs mention one closure term.
pub open spec fn node_decoder() -> spec_fn(Seq<u8>, int) -> Node {
    |dd: Seq<u8>, p: int| parse_node_at(dd, p)
}

/// The item-record decoder as one named closure.
pub open spec fn item_decoder() -> spec_fn(Seq<u8>, int) -> ItemView {
    |dd: Seq<u8>, p: int| parse_item_at(dd, p)
}

/// The chunk-record decoder as one named closure.
pub open spec fn chunk_decoder() -> spec_fn(Seq<u8>, int) -> ChunkView {
    |dd: Seq<u8>, p: int| parse_chunk_at(dd, p)
}

/// The trie node encoded at `pos`.
pub open spec fn parse_node_at(d: Seq<u8>, pos: int) -> Node {
    Node {
        ch: rd16(d, pos),
        lokid: rd16(d, pos + 2),
        eqkid: rd16(d, pos + 4),
        hikid: rd16(d, pos + 6),
    }
}

/// The item record encoded at `pos`.
pub open spec fn parse_item_at(d: Seq<u8>, pos: int) -> ItemView {
    ItemView {
        reference: rd16(d, pos),
        flags: rd16(d, pos + 2),
        offset: rd32(d, pos + 4),
        length: rd32(d, pos + 8),
    }
}

/// The chunk record encoded at `pos`, its algorithm tag still raw.
pub open spec fn parse_chunk_at(d: Seq<u8>, pos: int) -> ChunkView {
    ChunkView {
        algorithm: rd16(d, pos),
        flags: rd16(d, pos + 2),
        length: rd32(d, pos + 4),
        compressed_length: rd32(d, pos + 8),
    }
}

/// Whether some chunk of the table carries an unknown algorithm tag.
pub open spec fn has_bad_algorithm(cs: Seq<ChunkView>) -> bool {
    exists|j: int| 0 <= j < cs.len() && cs[j].algorithm > 1
}

/// Parses a whole header from the front of `d`.
///
/// On success the parsed tables and the offset where the payload begins are
/// returned.  The errors are exactly: missing magic bytes, an unsupported
/// version, data ending before an announced table, and an unknown chunk
/// algorithm tag.
pub open spec fn parse_header(d: Seq<u8>) -> Result<(HeaderView, int), ArchiveError> {
    if d.len() < 4 || d.subrange(0, 4) != spec_magic() {
        Err(ArchiveError::BadMagic)
    } else if d.len() < 6 {
        Err(ArchiveError::Truncated)
    } else if rd16(d, 4) != FILE_VERSION {
        Err(ArchiveError::BadVersion)
    } else if d.len() < 24 {
        Err(ArchiveError::Truncated)
    } else {
        let n_nodes = rd32(d, 20) as int;
        if d.len() < 24 + 8 * n_nodes + 4 {
            Err(ArchiveError::Truncated)
        } else {
            let ipos = 24 + 8 * n_nodes;
            let n_items = rd32(d, ipos) as int;
            if d.len() < ipos + 4 + 12 * n_items + 4 {
                Err(ArchiveError::Truncated)
            } else {
                let cpos = ipos + 4 + 12 * n_items;
                let n_chunks = rd32(d, cpos) as int;
                if d.len() < cpos + 4 + 12 * n_chunks {
                    Err(ArchiveError::Truncated)
                } else {
                    let chunks = parse_records(d, cpos + 4, n_chunks, 12, chunk_decoder());
                    if has_bad_algorithm(chunks) {
                        Err(ArchiveError::BadAlgorithm)
                    } else {
                        Ok(
                            (
                                HeaderView {
                                    flags: rd16(d, 6),
                                    chunk_size: rd32(d, 8),
                                    dir_count: rd32(d, 12),
                                    file_count: rd32(d, 16),
                                    nodes: parse_records(d, 24, n_nodes, 8, node_decoder()),
                                    items: parse_records(d, ipos + 4, n_items, 12, item_decoder()),
                                    chunks: chunks,
                                },
                                cpos + 4 + 12 * n_chunks,
                            ),
                        )
                    }
                }
            }
        }
    }
}

/// The `j`-th parsed record is decoded at its own offset.
pub proof fn lemma_parse_records_index<T>(
    d: Seq<u8>,
    pos: int,
    n: int,
    w: int,
    f: spec_fn(Seq<u8>, int) -> T,
    j: int,
)
    requires
        0 <= j < n,
    ensures
        parse_records(d, pos, n, w, f).len() == n,
        parse_records(d, pos, n, w, f)[j] == f(d, pos + w * j),
    decreases n,
{
    lemma_parse_records_len(d, pos, n, w, f);
    if j == 0 {
        assert(w * 0 == 0);
    } else {
        lemma_parse_records_index(d, pos + w, n - 1, w, f, j - 1);
        assert(w * j == w + w * (j - 1)) by (nonlinear_arith);
    }
}

/// A parsed table has as many records as announced.
pub proof fn lemma_parse_records_len<T>(
    d: Seq<u8>,
    pos: int,
    n: int,
    w: int,
    f: spec_fn(Seq<u8>, int) -> T,
)
    requires
        n >= 0,
    ensures
        parse_records(d, pos, n, w, f).len() == n,
    decreases n,
{
    if n > 0 {
        lemma_parse_records_len(d, pos + w, n - 1, w, f);
    }
}

/// Whether a header's exec fields all fit the 32-bit records they were
/// read from.
pub open spec fn header_fields_bounded(h: Header) -> bool {
    &&& h.chunk_size <= 0xFFFF_FFFF
    &&& h.dir_count <= 0xFFFF_FFFF
    &&& h.file_count <= 0xFFFF_FFFF
    &&& (forall|k: int|
        0 <= k < h.chunks@.len() ==> (#[trigger] h.chunks@[k]).length <= 0xFFFF_FFFF
            && h.chunks@[k].compressed_length <= 0xFFFF_FFFF)
    &&& (forall|k: int|
        0 <= k < h.items@.len() ==> (#[trigger] h.items@[k]).length <= 0xFFFF_FFFF
            && h.items@[k].offset <= 0xFFFF_FFFF)
}

/// Parses an archive header from the front of `d`.
///
/// On success returns the header together with the offset at which the chunk
/// payload begins.  The result is exactly what `parse_header` says of the
/// bytes, error cases included.
#[verifier::loop_isolation(false)]
pub fn read_header(d: &[u8]) -> (r: Result<(Header, usize), ArchiveError>)
    ensures
        match r {
            Ok(p) => parse_header(d@) == Ok::<(HeaderView, int), ArchiveError>((p.0@, p.1 as int))
                && p.1 <= d@.len() && header_fields_bounded(p.0),
            Err(e) => parse_header(d@) == Err::<(HeaderView, int), ArchiveError>(e),
        },
{
    if d.len() < 4 || d[0] != 75 || d[1] != 65 || d[2] != 114 || d[3] != 32 {
        proof {
            if d@.len() >= 4 && d@.subrange(0, 4) == spec_magic() {
                assert(d@.subrange(0, 4)[0] == 75u8);
                assert(d@.subrange(0, 4)[1] == 65u8);
                assert(d@.subrange(0, 4)[2] == 114u8);
                assert(d@.subrange(0, 4)[3] == 32u8);
                assert(false);
            }
        }
        return Err(ArchiveError::BadMagic);
    }
    proof {
        assert(d@.subrange(0, 4) =~= spec_magic());
    }
    if d.len() < 6 {
        return Err(ArchiveError::Truncated);
    }
    let version = read_u16le(d, 4);
    if version != FILE_VERSION {
        return Err(ArchiveError::BadVersion);
    }
    if d.len() < 24 {
        return Err(ArchiveError::Truncated);
    }
    let flags = read_u16le(d, 6);
    let chunk_size = read_u32le(d, 8);
    let dir_count = read_u32le(d, 12);
    let file_count = read_u32le(d, 16);
    let n_nodes = read_u32le(d, 20);

    let dlen64: u64 = d.len() as u64;
    if dlen64 < 24 + 8 * (n_nodes as u64) + 4 {
        return Err(ArchiveError::Truncated);
    }
    let n_nodes_us: usize = n_nodes as usize;
    let ipos: usize = 24 + 8 * n_nodes_us;

    let mut nodes: Vec<Node> = Vec::new();
    let mut i: usize = 0;
    while i < n_nodes_us
        invariant
            i <= n_nodes_us,
            n_nodes_us == n_nodes as int,
            ipos == 24 + 8 * n_nodes_us,
            ipos + 4 <= d@.len(),
            nodes@ == parse_records(d@, 24, i as int, 8, node_decoder()),
        decreases n_nodes_us - i,
    {
        let base: usize = 24 + 8 * i;
        let n = Node {
            ch: read_u16le(d, base),
            lokid: read_u16le(d, base + 2),
            eqkid: read_u16le(d, base + 4),
            hikid: read_u16le(d, base + 6),
        };
        proof {
            lemma_parse_records_snoc(d@, 24, i as int, 8, node_decoder());
            assert(node_decoder()(d@, 24 + 8 * (i as int)) == parse_node_at(
                d@,
                24 + 8 * (i as int),
            ));
        }
        nodes.push(n);
        i += 1;
    }

    let n_items = read_u32le(d, ipos);
    if dlen64 < (ipos as u64) + 4 + 12 * (n_items as u64) + 4 {
        return Err(ArchiveError::Truncated);
    }
    let n_items_us: usize = n_items as usize;
    let cpos: usize = ipos + 4 + 12 * n_items_us;

    let mut items: Vec<Item> = Vec::new();
    let mut i: usize = 0;
    while i < n_items_us
        invariant
            i <= n_items_us,
            n_items_us == n_items as int,
            ipos + 4 + 12 * n_items_us == cpos,
            cpos + 4 <= d@.len(),
            items_view(items@) == parse_records(d@, ipos + 4, i as int, 12, item_decoder()),
            forall|k: int|
                0 <= k < items@.len() ==> (#[trigger] items@[k]).length <= 0xFFFF_FFFF
                    && items@[k].offset <= 0xFFFF_FFFF,
        decreases n_items_us - i,
    {
        let base: usize = ipos + 4 + 12 * i;
        let it = Item {
            digest: Vec::new(),
            fname: String::new(),
            reference: read_u16le(d, base),
            flags: read_u16le(d, base + 2),
            offset: read_u32le(d, base + 4) as usize,
            length: read_u32le(d, base + 8) as usize,
        };
        proof {
            lemma_parse_records_snoc(d@, ipos + 4, i as int, 12, item_decoder());
            assert(it@ =~= item_decoder()(d@, ipos + 4 + 12 * (i as int)));
            assert(items_view(items@.push(it)) =~= items_view(items@).push(it@));
        }
        items.push(it);
        i += 1;
    }

    let n_chunks = read_u32le(d, cpos);
    if dlen64 < (cpos as u64) + 4 + 12 * (n_chunks as u64) {
        return Err(ArchiveError::Truncated);
    }
    let n_chunks_us: usize = n_chunks as usize;
    let payload_off: usize = cpos + 4 + 12 * n_chunks_us;
    let ghost all_chunks = parse_records(d@, cpos + 4 as int, n_chunks as int, 12, chunk_decoder());

    let mut chunks: Vec<Chunk> = Vec::new();
    let mut i: usize = 0;
    while i < n_chunks_us
        invariant
            i <= n_chunks_us,
            n_chunks_us == n_chunks as int,
            cpos + 4 + 12 * n_chunks_us == payload_off,
            payload_off <= d@.len(),
            all_chunks == parse_records(d@, cpos + 4 as int, n_chunks as int, 12, chunk_decoder()),
            chunks_view(chunks@) == parse_records(d@, cpos + 4, i as int, 12, chunk_decoder()),
            forall|j: int| 0 <= j < i ==> (#[trigger] all_chunks[j]).algorithm <= 1,
            forall|k: int|
                0 <= k < chunks@.len() ==> (#[trigger] chunks@[k]).length <= 0xFFFF_FFFF
                    && chunks@[k].compressed_length <= 0xFFFF_FFFF,
        decreases n_chunks_us - i,
    {
        let base: usize = cpos + 4 + 12 * i;
        let alg_raw = read_u16le(d, base);
        proof {
            lemma_parse_records_index(d@, cpos + 4, n_chunks as int, 12, chunk_decoder(), i as int);
            assert(all_chunks[i as int] == parse_chunk_at(d@, base as int));
        }
        let alg = match algorithm_from_u16(alg_raw) {
            Some(a) => a,
            None => {
                proof {
                    lemma_parse_records_len(d@, cpos + 4, n_chunks as int, 12, chunk_decoder());
                    assert(all_chunks[i as int].algorithm > 1);
                    assert(has_bad_algorithm(all_chunks));
                }
                return Err(ArchiveError::BadAlgorithm);
            },
        };
        let c = Chunk {
            algorithm: alg,
            flags: read_u16le(d, base + 2),
            length: read_u32le(d, base + 4) as usize,
            compressed_length: read_u32le(d, base + 8) as usize,
        };
        proof {
            lemma_parse_records_snoc(d@, cpos + 4, i as int, 12, chunk_decoder());
            assert(c@ =~= chunk_decoder()(d@, cpos + 4 + 12 * (i as int)));
            assert(chunks_view(chunks@.push(c)) =~= chunks_view(chunks@).push(c@));
        }
        chunks.push(c);
        i += 1;
    }
    proof {
        lemma_parse_records_len(d@, cpos + 4, n_chunks as int, 12, chunk_decoder());
        assert(!has_bad_algorithm(all_chunks));
    }

    let h = Header {
        magic: magic_bytes(),
        version,
        flags,
        chunk_size: chunk_size as usize,
        dir_count: dir_count as usize,
        file_count: file_count as usize,
        nodes,
        items,
        chunks,
    };
    proof {
        let parsed = parse_header(d@);
        assert(parsed matches Ok(p) && p.0 =~= h@ && p.1 == payload_off as int);
    }
    Ok((h, payload_off))
}

// ---------------------------------------------------------------------------
// Parsing a serialized header gives the header back
// ---------------------------------------------------------------------------

/// Parsing a table of records that was serialized record by record
/// reproduces the records, provided one record's bytes decode to it.
pub proof fn lemma_parse_records_of_ser_list<T>(
    d: Seq<u8>,
    pos: int,
    recs: Seq<T>,
    w: int,
    enc: spec_fn(T) -> Seq<u8>,
    dec: spec_fn(Seq<u8>, int) -> T,
)
    requires
        0 <= pos,
        w > 0,
        pos + w * recs.len() <= d.len(),
        d.subrange(pos, pos + w * recs.len()) == ser_list(recs, enc),
        forall|x: T| (#[trigger] enc(x)).len() == w,
        forall|dd: Seq<u8>, p: int, x: T|
            #![trigger dec(dd, p), enc(x)]
            0 <= p && p + w <= dd.len() && dd.subrange(p, p + w) == enc(x) ==> dec(dd, p) == x,
    ensures
        parse_records(d, pos, recs.len() as int, w, dec) == recs,
    decreases recs.len(),
{
    if recs.len() == 0 {
        assert(parse_records(d, pos, 0, w, dec) =~= recs);
    } else {
        let n = recs.len() as int;
        lemma_ser_list_len(recs, enc, w);
        lemma_ser_list_len(recs.skip(1), enc, w);
        assert(w * n == w + w * (n - 1)) by (nonlinear_arith);
        assert(ser_list(recs, enc) == enc(recs[0]) + ser_list(recs.skip(1), enc));
        assert(d.subrange(pos, pos + w) =~= enc(recs[0])) by {
            assert(forall|k: int|
                0 <= k < w ==> #[trigger] d.subrange(pos, pos + w)[k] == d.subrange(
                    pos,
                    pos + w * n,
                )[k]);
        }
        assert(dec(d, pos) == recs[0]);
        assert(d.subrange(pos + w, pos + w + w * (recs.skip(1).len() as int)) =~= ser_list(
            recs.skip(1),
            enc,
        )) by {
            assert(forall|k: int|
                0 <= k < w * (n - 1) ==> #[trigger] d.subrange(pos + w, pos + w * n)[k]
                    == d.subrange(pos, pos + w * n)[w + k]);
        }
        lemma_parse_records_of_ser_list(d, pos + w, recs.skip(1), w, enc, dec);
        assert(parse_records(d, pos, n, w, dec) == seq![dec(d, pos)] + parse_records(
            d,
            pos + w,
            n - 1,
            w,
            dec,
        ));
        assert(seq![recs[0]] + recs.skip(1) =~= recs);
    }
}

/// A node's eight bytes decode to the node.
pub proof fn lemma_node_decode_inverse()
    ensures
        forall|dd: Seq<u8>, p: int, x: Node|
            #![trigger node_decoder()(dd, p), node_encoder()(x)]
            0 <= p && p + 8 <= dd.len() && dd.subrange(p, p + 8) == node_encoder()(x)
                ==> node_decoder()(dd, p) == x,
{
    assert forall|dd: Seq<u8>, p: int, x: Node|
        #![trigger node_decoder()(dd, p), node_encoder()(x)]
        0 <= p && p + 8 <= dd.len() && dd.subrange(p, p + 8) == node_encoder()(x) implies
        node_decoder()(dd, p) == x by {
        let s = dd.subrange(p, p + 8);
        assert(dd[p] == s[0] && dd[p + 1] == s[1] && dd[p + 2] == s[2] && dd[p + 3] == s[3]
            && dd[p + 4] == s[4] && dd[p + 5] == s[5] && dd[p + 6] == s[6] && dd[p + 7] == s[7]);
        lemma_rd16_le16(dd, p, x.ch);
        lemma_rd16_le16(dd, p + 2, x.lokid);
        lemma_rd16_le16(dd, p + 4, x.eqkid);
        lemma_rd16_le16(dd, p + 6, x.hikid);
    }
}

/// An item record's twelve bytes decode to the record.
pub proof fn lemma_item_decode_inverse()
    ensures
        forall|dd: Seq<u8>, p: int, x: ItemView|
            #![trigger item_decoder()(dd, p), item_encoder()(x)]
            0 <= p && p + 12 <= dd.len() && dd.subrange(p, p + 12) == item_encoder()(x)
                ==> item_decoder()(dd, p) == x,
{
    assert forall|dd: Seq<u8>, p: int, x: ItemView|
        #![trigger item_decoder()(dd, p), item_encoder()(x)]
        0 <= p && p + 12 <= dd.len() && dd.subrange(p, p + 12) == item_encoder()(x) implies
        item_decoder()(dd, p) == x by {
        let s = dd.subrange(p, p + 12);
        assert(s == ser_item(x));
        assert(dd[p] == s[0] && dd[p + 1] == s[1] && dd[p + 2] == s[2] && dd[p + 3] == s[3]
            && dd[p + 4] == s[4] && dd[p + 5] == s[5] && dd[p + 6] == s[6] && dd[p + 7] == s[7]
            && dd[p + 8] == s[8] && dd[p + 9] == s[9] && dd[p + 10] == s[10] && dd[p + 11]
            == s[11]);
        assert(s[4] == le32(x.offset)[0] && s[5] == le32(x.offset)[1] && s[6] == le32(
            x.offset,
        )[2] && s[7] == le32(x.offset)[3]);
        assert(s[8] == le32(x.length)[0] && s[9] == le32(x.length)[1] && s[10] == le32(
            x.length,
        )[2] && s[11] == le32(x.length)[3]);
        lemma_rd16_le16(dd, p, x.reference);
        lemma_rd16_le16(dd, p + 2, x.flags);
        lemma_rd32_le32(dd, p + 4, x.offset);
        lemma_rd32_le32(dd, p + 8, x.length);
        assert(item_decoder()(dd, p) =~= x);
    }
}

/// A chunk record's twelve bytes decode to the record.
pub proof fn lemma_chunk_decode_inverse()
    ensures
        forall|dd: Seq<u8>, p: int, x: ChunkView|
            #![trigger chunk_decoder()(dd, p), chunk_encoder()(x)]
            0 <= p && p + 12 <= dd.len() && dd.subrange(p, p + 12) == chunk_encoder()(x)
                ==> chunk_decoder()(dd, p) == x,
{
    assert forall|dd: Seq<u8>, p: int, x: ChunkView|
        #![trigger chunk_decoder()(dd, p), chunk_encoder()(x)]
        0 <= p && p + 12 <= dd.len() && dd.subrange(p, p + 12) == chunk_encoder()(x) implies
        chunk_decoder()(dd, p) == x by {
        let s = dd.subrange(p, p + 12);
        assert(s == ser_chunk(x));
        assert(dd[p] == s[0] && dd[p + 1] == s[1] && dd[p + 2] == s[2] && dd[p + 3] == s[3]
            && dd[p + 4] == s[4] && dd[p + 5] == s[5] && dd[p + 6] == s[6] && dd[p + 7] == s[7]
            && dd[p + 8] == s[8] && dd[p + 9] == s[9] && dd[p + 10] == s[10] && dd[p + 11]
            == s[11]);
        assert(s[4] == le32(x.length)[0] && s[5] == le32(x.length)[1] && s[6] == le32(
            x.length,
        )[2] && s[7] == le32(x.length)[3]);
        assert(s[8] == le32(x.compressed_length)[0] && s[9] == le32(x.compressed_length)[1]
            && s[10] == le32(x.compressed_length)[2] && s[11] == le32(x.compressed_length)[3]);
        lemma_rd16_le16(dd, p, x.algorithm);
        lemma_rd16_le16(dd, p + 2, x.flags);
        lemma_rd32_le32(dd, p + 4, x.length);
        lemma_rd32_le32(dd, p + 8, x.compressed_length);
        assert(chunk_decoder()(dd, p) =~= x);
    }
}

/// Byte-level facts about a serialized header followed by any payload.
#[verifier::rlimit(100)]
pub proof fn lemma_ser_header_fields(h: HeaderView, rest: Seq<u8>)
    requires
        counts_fit(h),
    ensures
        ({
            let d = ser_header(h) + rest;
            let nn = h.nodes.len() as int;
            let ni = h.items.len() as int;
            let nc = h.chunks.len() as int;
            let ipos = 24 + 8 * nn;
            let cpos = ipos + 4 + 12 * ni;
            &&& ser_header(h).len() == cpos + 4 + 12 * nc
            &&& d.len() == ser_header(h).len() + rest.len()
            &&& d.subrange(0, 4) == spec_magic()
            &&& rd16(d, 4) == FILE_VERSION
            &&& rd16(d, 6) == h.flags
            &&& rd32(d, 8) == h.chunk_size
            &&& rd32(d, 12) == h.dir_count
            &&& rd32(d, 16) == h.file_count
            &&& rd32(d, 20) == nn as u32
            &&& rd32(d, ipos) == ni as u32
            &&& rd32(d, cpos) == nc as u32
            &&& d.subrange(24, 24 + 8 * nn) == ser_nodes(h.nodes)
            &&& d.subrange(ipos + 4, ipos + 4 + 12 * ni) == ser_items(h.items)
            &&& d.subrange(cpos + 4, cpos + 4 + 12 * nc) == ser_chunks(h.chunks)
        }),
{
    let d = ser_header(h) + rest;
    let nn = h.nodes.len() as int;
    let ni = h.items.len() as int;
    let nc = h.chunks.len() as int;
    let ipos = 24 + 8 * nn;
    let cpos = ipos + 4 + 12 * ni;
    lemma_ser_header_len(h);
    let hdr = ser_header(h);
    assert(forall|k: int| 0 <= k < hdr.len() ==> d[k] == hdr[k]);
    assert(d.subrange(0, 4) =~= spec_magic());
    lemma_rd16_le16(d, 4, FILE_VERSION);
    lemma_rd16_le16(d, 6, h.flags);
    lemma_rd32_le32(d, 8, h.chunk_size);
    lemma_rd32_le32(d, 12, h.dir_count);
    lemma_rd32_le32(d, 16, h.file_count);
    lemma_rd32_le32(d, 20, nn as u32);
    lemma_rd32_le32(d, ipos, ni as u32);
    lemma_rd32_le32(d, cpos, nc as u32);
    assert(d.subrange(24, 24 + 8 * nn) =~= ser_nodes(h.nodes));
    assert(d.subrange(ipos + 4, ipos + 4 + 12 * ni) =~= ser_items(h.items));
    assert(d.subrange(cpos + 4, cpos + 4 + 12 * nc) =~= ser_chunks(h.chunks));
}

/// Parsing the node-table region of a serialized header gives the nodes back.
pub proof fn lemma_parse_nodes_of_ser(d: Seq<u8>, pos: int, ns: Seq<Node>)
    requires
        0 <= pos,
        pos + 8 * ns.len() <= d.len(),
        d.subrange(pos, pos + 8 * ns.len()) == ser_nodes(ns),
    ensures
        parse_records(d, pos, ns.len() as int, 8, node_decoder()) == ns,
{
    lemma_node_decode_inverse();
    lemma_parse_records_of_ser_list(d, pos, ns, 8, node_encoder(), node_decoder());
}

/// Parsing the item-table region of a serialized header gives the items back.
pub proof fn lemma_parse_items_of_ser(d: Seq<u8>, pos: int, its: Seq<ItemView>)
    requires
        0 <= pos,
        pos + 12 * its.len() <= d.len(),
        d.subrange(pos, pos + 12 * its.len()) == ser_items(its),
    ensures
        parse_records(d, pos, its.len() as int, 12, item_decoder()) == its,
{
    lemma_item_decode_inverse();
    lemma_parse_records_of_ser_list(d, pos, its, 12, item_encoder(), item_decoder());
}

/// Parsing the chunk-table region of a serialized header gives the chunks back.
pub proof fn lemma_parse_chunks_of_ser(d: Seq<u8>, pos: int, cs: Seq<ChunkView>)
    requires
        0 <= pos,
        pos + 12 * cs.len() <= d.len(),
        d.subrange(pos, pos + 12 * cs.len()) == ser_chunks(cs),
    ensures
        parse_records(d, pos, cs.len() as int, 12, chunk_decoder()) == cs,
{
    lemma_chunk_decode_inverse();
    lemma_parse_records_of_ser_list(d, pos, cs, 12, chunk_encoder(), chunk_decoder());
}

/// Parsing a serialized header, followed by any payload, yields exactly the
/// header that was serialized, and reports the payload's start.
#[verifier::rlimit(100)]
pub proof fn lemma_parse_of_ser(h: HeaderView, rest: Seq<u8>)
    requires
        counts_fit(h),
        !has_bad_algorithm(h.chunks),
    ensures
        parse_header(ser_header(h) + rest) == Ok::<(HeaderView, int), ArchiveError>(
            (h, ser_header(h).len() as int),
        ),
{
    let d = ser_header(h) + rest;
    let nn = h.nodes.len() as int;
    let ni = h.items.len() as int;
    let nc = h.chunks.len() as int;
    let ipos = 24 + 8 * nn;
    let cpos = ipos + 4 + 12 * ni;
    lemma_ser_header_fields(h, rest);
    let hdr = ser_header(h);

    lemma_parse_nodes_of_ser(d, 24, h.nodes);
    lemma_parse_items_of_ser(d, ipos + 4, h.items);
    lemma_parse_chunks_of_ser(d, cpos + 4, h.chunks);

    assert(rd32(d, 20) as int == nn);
    assert(rd32(d, ipos) as int == ni);
    assert(rd32(d, cpos) as int == nc);
    assert(parse_header(d) matches Ok(p) && p.0 =~= h && p.1 == hdr.len());
}

/// Swapping only the chunk table of a header rewrites only the serialized
/// chunk-table region.
pub proof fn lemma_ser_header_chunks_swap(h: HeaderView, cs2: Seq<ChunkView>)
    requires
        cs2.len() == h.chunks.len(),
    ensures
        ser_header(HeaderView { chunks: cs2, ..h }) == ser_header(h).subrange(
            0,
            chunk_table_offset(h),
        ) + le32(cs2.len() as u32) + ser_chunks(cs2),
{
    let h2 = HeaderView { chunks: cs2, ..h };
    lemma_ser_header_len(h);
    lemma_ser_header_len(h2);
    let prefix = spec_magic() + le16(FILE_VERSION) + le16(h.flags) + le32(h.chunk_size) + le32(
        h.dir_count,
    ) + le32(h.file_count) + le32(h.nodes.len() as u32) + ser_nodes(h.nodes) + le32(
        h.items.len() as u32,
    ) + ser_items(h.items);
    assert(prefix.len() == chunk_table_offset(h));
    assert(ser_header(h) == prefix + le32(h.chunks.len() as u32) + ser_chunks(h.chunks));
    assert(ser_header(h2) == prefix + le32(cs2.len() as u32) + ser_chunks(cs2));
    assert(ser_header(h).subrange(0, chunk_table_offset(h)) =~= prefix);
    assert(ser_header(h2) =~= ser_header(h).subrange(0, chunk_table_offset(h)) + le32(
        cs2.len() as u32,
    ) + ser_chunks(cs2));
}

// ---------------------------------------------------------------------------
// Writing
// ---------------------------------------------------------------------------

/// Serializes a whole header, placeholder or final chunk table included.
///
/// Returns the bytes and the offset of the chunk-table count, which
/// `update_header_data` can later overwrite with the realized table.
#[verifier::loop_isolation(false)]
#[verifier::rlimit(100)]
#[verifier::spinoff_prover]
pub fn serialize_header(h: &Header) -> (r: (Vec<u8>, usize))
    requires
        h.nodes@.len() <= 0xFFFF_FFFF,
        h.items@.len() <= 0xFFFF_FFFF,
        h.chunks@.len() <= 0xFFFF_FFFF,
        h.chunk_size <= 0xFFFF_FFFF,
        h.dir_count <= 0xFFFF_FFFF,
        h.file_count <= 0xFFFF_FFFF,
    ensures
        r.0@ == ser_header(h@),
        r.1 == chunk_table_offset(h@),
{
    let mut out: Vec<u8> = Vec::new();
    let mut m = magic_bytes();
    out.append(&mut m);
    write_u16le(&mut out, FILE_VERSION);
    write_u16le(&mut out, h.flags);
    write_u32le(&mut out, h.chunk_size as u32);
    write_u32le(&mut out, h.dir_count as u32);
    write_u32le(&mut out, h.file_count as u32);
    write_u32le(&mut out, h.nodes.len() as u32);
    let ghost nodes_base = out@;
    let mut i: usize = 0;
    while i < h.nodes.len()
        invariant
            i <= h.nodes@.len(),
            out@ == nodes_base + ser_nodes(h.nodes@.take(i as int)),
        decreases h.nodes@.len() - i,
    {
        let n = h.nodes[i];
        write_u16le(&mut out, n.ch);
        write_u16le(&mut out, n.lokid);
        write_u16le(&mut out, n.eqkid);
        write_u16le(&mut out, n.hikid);
        proof {
            lemma_ser_list_snoc(h.nodes@, node_encoder(), i as int);
            assert(node_encoder()(h.nodes@[i as int]) == ser_node(h.nodes@[i as int]));
            assert(out@ =~= nodes_base + ser_nodes(h.nodes@.take(i as int + 1)));
        }
        i += 1;
    }
    proof {
        assert(h.nodes@.take(h.nodes@.len() as int) =~= h.nodes@);
    }

    write_u32le(&mut out, h.items.len() as u32);
    let ghost items_base = out@;
    let mut i: usize = 0;
    while i < h.items.len()
        invariant
            i <= h.items@.len(),
            out@ == items_base + ser_items(items_view(h.items@).take(i as int)),
        decreases h.items@.len() - i,
    {
        let it = &h.items[i];
        write_u16le(&mut out, it.reference);
        write_u16le(&mut out, it.flags);
        write_u32le(&mut out, it.offset as u32);
        write_u32le(&mut out, it.length as u32);
        proof {
            lemma_ser_list_snoc(items_view(h.items@), item_encoder(), i as int);
            assert(item_encoder()(items_view(h.items@)[i as int]) == ser_item(h.items@[i as int]@));
            assert(out@ =~= items_base + ser_items(items_view(h.items@).take(i as int + 1)));
        }
        i += 1;
    }
    proof {
        assert(items_view(h.items@).take(items_view(h.items@).len() as int) =~= items_view(
            h.items@,
        ));
    }

    let off = out.len();
    proof {
        lemma_ser_list_len(h.nodes@, node_encoder(), 8);
        lemma_ser_list_len(items_view(h.items@), item_encoder(), 12);
        assert(off == chunk_table_offset(h@));
    }

    write_u32le(&mut out, h.chunks.len() as u32);
    let ghost chunks_base = out@;
    let mut i: usize = 0;
    while i < h.chunks.len()
        invariant
            i <= h.chunks@.len(),
            out@ == chunks_base + ser_chunks(chunks_view(h.chunks@).take(i as int)),
        decreases h.chunks@.len() - i,
    {
        let c = h.chunks[i];
        write_u16le(&mut out, algorithm_to_u16(c.algorithm));
        write_u16le(&mut out, c.flags);
        write_u32le(&mut out, c.length as u32);
        write_u32le(&mut out, c.compressed_length as u32);
        proof {
            lemma_ser_list_snoc(chunks_view(h.chunks@), chunk_encoder(), i as int);
            assert(chunk_encoder()(chunks_view(h.chunks@)[i as int]) == ser_chunk(
                h.chunks@[i as int]@,
            ));
            assert(out@ =~= chunks_base + ser_chunks(chunks_view(h.chunks@).take(i as int + 1)));
        }
        i += 1;
    }
    proof {
        assert(chunks_view(h.chunks@).take(chunks_view(h.chunks@).len() as int) =~= chunks_view(
            h.chunks@,
        ));
        assert(out@ =~= ser_header(h@));
    }
    (out, off)
}

/// Overwrites two bytes in place with a value's little-endian encoding.
pub fn store_u16le(out: &mut Vec<u8>, pos: usize, v: u16)
    requires
        pos + 2 <= old(out)@.len(),
    ensures
        final(out)@.len() == old(out)@.len(),
        final(out)@[pos as int] == le16(v)[0],
        final(out)@[pos as int + 1] == le16(v)[1],
        forall|j: int|
            0 <= j < old(out)@.len() && j != pos && j != pos + 1 ==> final(out)@[j] == old(
                out,
            )@[j],
{
    proof {
        assert(out.len() == out@.len());
    }
    out.set(pos, (v % 256) as u8);
    out.set(pos + 1, (v / 256) as u8);
}

/// Overwrites four bytes in place with a value's little-endian encoding.
pub fn store_u32le(out: &mut Vec<u8>, pos: usize, v: u32)
    requires
        pos + 4 <= old(out)@.len(),
    ensures
        final(out)@.len() == old(out)@.len(),
        final(out)@[pos as int] == le32(v)[0],
        final(out)@[pos as int + 1] == le32(v)[1],
        final(out)@[pos as int + 2] == le32(v)[2],
        final(out)@[pos as int + 3] == le32(v)[3],
        forall|j: int|
            0 <= j < old(out)@.len() && !(pos <= j < pos + 4) ==> final(out)@[j] == old(out)@[j],
{
    proof {
        assert(out.len() == out@.len());
    }
    out.set(pos, (v % 256) as u8);
    out.set(pos + 1, ((v / 256) % 256) as u8);
    out.set(pos + 2, ((v / 65536) % 256) as u8);
    out.set(pos + 3, ((v / 16777216) % 256) as u8);
}

/// Rewrites the reserved chunk table with the realized one.
///
/// Only the table region changes: the header before it and the payload after
/// it keep their bytes.
#[verifier::loop_isolation(false)]
#[verifier::rlimit(60)]
pub fn update_header_data(bytes: &mut Vec<u8>, off: usize, chunks: &Vec<Chunk>)
    requires
        chunks@.len() <= 0xFFFF_FFFF,
        off + 4 + 12 * chunks@.len() <= old(bytes)@.len(),
    ensures
        final(bytes)@ == old(bytes)@.subrange(0, off as int) + le32(chunks@.len() as u32)
            + ser_chunks(chunks_view(chunks@)) + old(bytes)@.subrange(
            off + 4 + 12 * chunks@.len(),
            old(bytes)@.len() as int,
        ),
{
    store_u32le(bytes, off, chunks.len() as u32);
    let ghost table_end = off + 4 + 12 * chunks@.len();
    let mut i: usize = 0;
    while i < chunks.len()
        invariant
            i <= chunks@.len(),
            bytes@.len() == old(bytes)@.len(),
            forall|j: int| 0 <= j < off ==> bytes@[j] == old(bytes)@[j],
            forall|j: int| table_end <= j < bytes@.len() ==> bytes@[j] == old(bytes)@[j],
            bytes@.subrange(off as int, off + 4) == le32(chunks@.len() as u32),
            bytes@.subrange(off + 4, off + 4 + 12 * (i as int)) == ser_chunks(
                chunks_view(chunks@).take(i as int),
            ),
        decreases chunks@.len() - i,
    {
        proof {
            assert(bytes.len() == bytes@.len());
        }
        let base = off + 4 + 12 * i;
        let c = chunks[i];
        let ghost before = bytes@;
        store_u16le(bytes, base, algorithm_to_u16(c.algorithm));
        store_u16le(bytes, base + 2, c.flags);
        store_u32le(bytes, base + 4, c.length as u32);
        store_u32le(bytes, base + 8, c.compressed_length as u32);
        proof {
            lemma_ser_list_snoc(chunks_view(chunks@), chunk_encoder(), i as int);
            lemma_ser_list_len(chunks_view(chunks@).take(i as int), chunk_encoder(), 12);
            lemma_ser_list_len(chunks_view(chunks@).take(i as int + 1), chunk_encoder(), 12);
            assert(chunk_encoder()(chunks_view(chunks@)[i as int]) == ser_chunk(
                chunks@[i as int]@,
            ));
            assert(bytes@.subrange(off as int, off + 4) =~= le32(chunks@.len() as u32));
            assert(bytes@.subrange(off + 4, off + 4 + 12 * (i as int + 1)) =~= ser_chunks(
                chunks_view(chunks@).take(i as int + 1),
            ));
        }
        i += 1;
    }
    proof {
        lemma_ser_list_len(chunks_view(chunks@), chunk_encoder(), 12);
        assert(chunks_view(chunks@).take(chunks_view(chunks@).len() as int) =~= chunks_view(
            chunks@,
        ));
        assert(bytes@ =~= old(bytes)@.subrange(0, off as int) + le32(chunks@.len() as u32)
            + ser_chunks(chunks_view(chunks@)) + old(bytes)@.subrange(
            off + 4 + 12 * chunks@.len(),
            old(bytes)@.len() as int,
        ));
    }
}

} // verus!
