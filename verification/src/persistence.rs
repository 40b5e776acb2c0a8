use vstd::prelude::*;

use crate::coords::ChunkCoord;
use crate::ordering::{
    apply_order, is_sorting_order, priority_lt, sorted_order, yzx_priority, ChunkPriority,
};
use crate::terrain::{chunk_in_world_range, is_generated_chunk, TerrainSource};
use crate::voxels::{BlockId, Chunk, ChunkView, CHUNK_VOLUME};
use crate::world::VoxelWorld;

verus! {

/// Size of the file header: magic, seed and chunk count.
pub const CHUNK_SAVE_HEADER_LEN: usize = 20;

/// Size of one chunk record: coordinate, revision and blocks.
pub const CHUNK_RECORD_LEN: usize = 65552;

/// Why a chunk save could not be read.
#[derive(Debug, Clone, Copy, PartialEq, Eq, Structural)]
pub enum ChunkSaveError {
    /// The file does not start with the chunk save magic.
    InvalidHeader,
    /// The file ends before the data it announces.
    UnexpectedEof,
}

/// The magic that opens a chunk save file: `AQCHNK1` and a zero byte.
pub open spec fn chunk_save_magic() -> Seq<u8> {
    seq![0x41u8, 0x51u8, 0x43u8, 0x48u8, 0x4Eu8, 0x4Bu8, 0x31u8, 0x00u8]
}

pub open spec fn le16(v: u16) -> Seq<u8> {
    seq![(v & 0xFF) as u8, (v >> 8u16) as u8]
}

pub open spec fn le32(v: u32) -> Seq<u8> {
    seq![(v & 0xFF) as u8, ((v >> 8u32) & 0xFF) as u8, ((v >> 16u32) & 0xFF) as u8, (v >> 24u32) as u8]
}

pub open spec fn le64(v: u64) -> Seq<u8> {
    le32((v & 0xFFFF_FFFF) as u32) + le32((v >> 32u64) as u32)
}

/// The little-endian `u16` stored at `bytes[i..i + 2]`.
pub open spec fn read_le16(bytes: Seq<u8>, i: int) -> u16 {
    ((bytes[i] as u16) | ((bytes[i + 1] as u16) << 8u16)) as u16
}

/// The little-endian `u32` stored at `bytes[i..i + 4]`.
pub open spec fn read_le32(bytes: Seq<u8>, i: int) -> u32 {
    ((bytes[i] as u32) | ((bytes[i + 1] as u32) << 8u32) | ((bytes[i + 2] as u32) << 16u32) | ((
    bytes[i + 3] as u32) << 24u32)) as u32
}

/// The little-endian `u64` stored at `bytes[i..i + 8]`.
pub open spec fn read_le64(bytes: Seq<u8>, i: int) -> u64 {
    ((read_le32(bytes, i) as u64) | ((read_le32(bytes, i + 4) as u64) << 32u64)) as u64
}

/// The little-endian encoding of a sequence of blocks.
pub open spec fn blocks_bytes(blocks: Seq<BlockId>) -> Seq<u8>
    decreases blocks.len(),
{
    if blocks.len() == 0 {
        Seq::empty()
    } else {
        blocks_bytes(blocks.drop_last()) + le16(blocks.last())
    }
}

/// The record of one chunk: x, y, z, revision, then its blocks.
pub open spec fn chunk_record(c: ChunkView) -> Seq<u8> {
    le32(c.coord.x as u32) + le32(c.coord.y as u32) + le32(c.coord.z as u32) + le32(c.revision)
        + blocks_bytes(c.blocks)
}

/// The records of a sequence of chunks, in order.
pub open spec fn chunk_records(cs: Seq<ChunkView>) -> Seq<u8>
    decreases cs.len(),
{
    if cs.len() == 0 {
        Seq::empty()
    } else {
        chunk_records(cs.drop_last()) + chunk_record(cs.last())
    }
}

/// The bytes of a chunk save file holding `cs` in order.
pub open spec fn chunk_save_bytes(seed: u64, cs: Seq<ChunkView>) -> Seq<u8> {
    chunk_save_magic() + le64(seed) + le32(cs.len() as u32) + chunk_records(cs)
}

/// The chunk read from the record that starts at byte `off`.
pub open spec fn record_coord(bytes: Seq<u8>, off: int) -> ChunkCoord {
    ChunkCoord {
        x: read_le32(bytes, off) as i32,
        y: read_le32(bytes, off + 4) as i32,
        z: read_le32(bytes, off + 8) as i32,
    }
}

/// Whether `bytes` is a readable chunk save: it opens with the magic and holds every
/// record its header announces.
pub open spec fn chunk_save_readable(bytes: Seq<u8>) -> bool {
    &&& bytes.len() >= CHUNK_SAVE_HEADER_LEN
    &&& bytes.subrange(0, 8) == chunk_save_magic()
    &&& bytes.len() >= CHUNK_SAVE_HEADER_LEN + read_le32(bytes, 16) * CHUNK_RECORD_LEN
}

/// `c` is the chunk stored by record `i` of the save `bytes`.
pub open spec fn loaded_from_record(bytes: Seq<u8>, i: int, c: ChunkView) -> bool {
    let off = CHUNK_SAVE_HEADER_LEN + i * CHUNK_RECORD_LEN;
    &&& c.wf()
    &&& c.coord == record_coord(bytes, off)
    &&& c.revision == read_le32(bytes, off + 12)
    &&& c.subchunk_dirty_mask == 0
    &&& c.subchunk_visible_mask == 0
    &&& forall|j: int| 0 <= j < CHUNK_VOLUME ==> #[trigger] c.blocks[j] == read_le16(bytes, off + 16 + 2 * j)
}

proof fn lemma_i32_bits_round_trip(v: i32)
    ensures
        (v as u32) as i32 == v,
{
    assert((v as u32) as i32 == v) by (bit_vector);
}

proof fn lemma_le16_round_trip(v: u16)
    ensures
        read_le16(le16(v), 0) == v,
{
    let b0 = (v & 0xFF) as u8;
    let b1 = (v >> 8u16) as u8;
    assert(((b0 as u16) | ((b1 as u16) << 8u16)) == v) by (bit_vector)
        requires
            b0 == (v & 0xFF) as u8,
            b1 == (v >> 8u16) as u8,
    ;
}

proof fn lemma_le32_round_trip(v: u32)
    ensures
        read_le32(le32(v), 0) == v,
{
    let b0 = (v & 0xFF) as u8;
    let b1 = ((v >> 8u32) & 0xFF) as u8;
    let b2 = ((v >> 16u32) & 0xFF) as u8;
    let b3 = (v >> 24u32) as u8;
    assert(((b0 as u32) | ((b1 as u32) << 8u32) | ((b2 as u32) << 16u32) | ((b3 as u32) << 24u32))
        == v) by (bit_vector)
        requires
            b0 == (v & 0xFF) as u8,
            b1 == ((v >> 8u32) & 0xFF) as u8,
            b2 == ((v >> 16u32) & 0xFF) as u8,
            b3 == (v >> 24u32) as u8,
    ;
}

/// Appends the little-endian bytes of `value`.
pub fn write_u16(out: &mut Vec<u8>, value: BlockId)
    ensures
        final(out)@ == old(out)@ + le16(value),
{
    out.push((value & 0xFF) as u8);
    out.push((value >> 8) as u8);
    assert(final(out)@ =~= old(out)@ + le16(value));
}

/// Appends the little-endian bytes of `value`.
pub fn write_u32(out: &mut Vec<u8>, value: u32)
    ensures
        final(out)@ == old(out)@ + le32(value),
{
    out.push((value & 0xFF) as u8);
    out.push(((value >> 8) & 0xFF) as u8);
    out.push(((value >> 16) & 0xFF) as u8);
    out.push((value >> 24) as u8);
    assert(final(out)@ =~= old(out)@ + le32(value));
}

/// Appends the little-endian bytes of `value`.
pub fn write_i32(out: &mut Vec<u8>, value: i32)
    ensures
        final(out)@ == old(out)@ + le32(value as u32),
{
    write_u32(out, value as u32);
}

/// Appends the little-endian bytes of `value`.
pub fn write_u64(out: &mut Vec<u8>, value: u64)
    ensures
        final(out)@ == old(out)@ + le64(value),
{
    write_u32(out, (value & 0xFFFF_FFFF) as u32);
    write_u32(out, (value >> 32) as u32);
    assert(final(out)@ =~= old(out)@ + le64(value));
}

/// Reads the little-endian `u16` at `*pos` and moves past it.
pub fn read_u16(bytes: &[u8], pos: &mut usize) -> (r: Result<BlockId, ChunkSaveError>)
    ensures
        r is Ok <==> *old(pos) + 2 <= bytes@.len(),
        r matches Ok(v) ==> v == read_le16(bytes@, *old(pos) as int) && *final(pos) == *old(pos) + 2,
        r matches Err(e) ==> e == ChunkSaveError::UnexpectedEof && *final(pos) == *old(pos),
{
    if bytes.len() < 2 || *pos > bytes.len() - 2 {
        return Err(ChunkSaveError::UnexpectedEof);
    }
    let p = *pos;
    let v = (bytes[p] as u16) | ((bytes[p + 1] as u16) << 8);
    *pos = p + 2;
    Ok(v)
}

/// Reads the little-endian `u32` at `*pos` and moves past it.
pub fn read_u32(bytes: &[u8], pos: &mut usize) -> (r: Result<u32, ChunkSaveError>)
    ensures
        r is Ok <==> *old(pos) + 4 <= bytes@.len(),
        r matches Ok(v) ==> v == read_le32(bytes@, *old(pos) as int) && *final(pos) == *old(pos) + 4,
        r matches Err(e) ==> e == ChunkSaveError::UnexpectedEof && *final(pos)
            == *old(pos),
{
    if bytes.len() < 4 || *pos > bytes.len() - 4 {
        return Err(ChunkSaveError::UnexpectedEof);
    }
    let p = *pos;
    let v = (bytes[p] as u32) | ((bytes[p + 1] as u32) << 8) | ((bytes[p + 2] as u32) << 16) | ((
    bytes[p + 3] as u32) << 24);
    *pos = p + 4;
    Ok(v)
}

/// Reads the little-endian `i32` at `*pos` and moves past it.
pub fn read_i32(bytes: &[u8], pos: &mut usize) -> (r: Result<i32, ChunkSaveError>)
    ensures
        r is Ok <==> *old(pos) + 4 <= bytes@.len(),
        r matches Ok(v) ==> v == read_le32(bytes@, *old(pos) as int) as i32 && *final(pos) == *old(pos) + 4,
        r matches Err(e) ==> e == ChunkSaveError::UnexpectedEof && *final(pos)
            == *old(pos),
{
    match read_u32(bytes, pos) {
        Ok(v) => Ok(v as i32),
        Err(e) => Err(e),
    }
}

/// Reads the little-endian `u64` at `*pos` and moves past it.
pub fn read_u64(bytes: &[u8], pos: &mut usize) -> (r: Result<u64, ChunkSaveError>)
    ensures
        r is Ok <==> *old(pos) + 8 <= bytes@.len(),
        r matches Ok(v) ==> v == read_le64(bytes@, *old(pos) as int) && *final(pos) == *old(pos) + 8,
        r matches Err(e) ==> e == ChunkSaveError::UnexpectedEof && *final(pos)
            == *old(pos),
{
    if bytes.len() < 8 || *pos > bytes.len() - 8 {
        return Err(ChunkSaveError::UnexpectedEof);
    }
    let lo = read_u32(bytes, pos);
    let hi = read_u32(bytes, pos);
    match (lo, hi) {
        (Ok(lo), Ok(hi)) => Ok((lo as u64) | ((hi as u64) << 32)),
        _ => Err(ChunkSaveError::UnexpectedEof),
    }
}

/// The views of a sequence of chunk references.
pub open spec fn chunk_views(cs: Seq<&Chunk>) -> Seq<ChunkView> {
    cs.map_values(|c: &Chunk| c@)
}

proof fn lemma_blocks_bytes_step(s: Seq<BlockId>, j: int)
    requires
        0 <= j < s.len(),
    ensures
        blocks_bytes(s.take(j + 1)) == blocks_bytes(s.take(j)) + le16(s[j]),
{
    assert(s.take(j + 1).drop_last() =~= s.take(j));
}

proof fn lemma_records_step(cs: Seq<ChunkView>, i: int)
    requires
        0 <= i < cs.len(),
    ensures
        chunk_records(cs.take(i + 1)) == chunk_records(cs.take(i)) + chunk_record(cs[i]),
{
    assert(cs.take(i + 1).drop_last() =~= cs.take(i));
}

proof fn lemma_blocks_bytes_index(s: Seq<BlockId>)
    ensures
        blocks_bytes(s).len() == 2 * s.len(),
        forall|j: int|
            0 <= j < s.len() ==> #[trigger] read_le16(blocks_bytes(s), 2 * j) == s[j],
    decreases s.len(),
{
    if s.len() > 0 {
        let p = s.drop_last();
        lemma_blocks_bytes_index(p);
        let b = blocks_bytes(s);
        assert(b == blocks_bytes(p) + le16(s.last()));
        assert forall|j: int| 0 <= j < s.len() implies #[trigger] read_le16(blocks_bytes(s), 2 * j)
            == s[j] by {
            if j < s.len() - 1 {
                assert(read_le16(blocks_bytes(p), 2 * j) == p[j]);
                assert(b[2 * j] == blocks_bytes(p)[2 * j]);
                assert(b[2 * j + 1] == blocks_bytes(p)[2 * j + 1]);
            } else {
                lemma_le16_round_trip(s.last());
                assert(b[2 * j] == le16(s.last())[0]);
                assert(b[2 * j + 1] == le16(s.last())[1]);
            }
        }
    }
}

/// Facts about the bytes of one record.
proof fn lemma_record_index(c: ChunkView)
    requires
        c.blocks.len() == CHUNK_VOLUME,
    ensures
        chunk_record(c).len() == CHUNK_RECORD_LEN,
        record_coord(chunk_record(c), 0) == c.coord,
        read_le32(chunk_record(c), 12) == c.revision,
        forall|j: int|
            0 <= j < CHUNK_VOLUME ==> #[trigger] read_le16(chunk_record(c), 16 + 2 * j) == c.blocks[j],
{
    let r = chunk_record(c);
    let bb = blocks_bytes(c.blocks);
    lemma_blocks_bytes_index(c.blocks);
    lemma_le32_round_trip(c.coord.x as u32);
    lemma_le32_round_trip(c.coord.y as u32);
    lemma_le32_round_trip(c.coord.z as u32);
    lemma_le32_round_trip(c.revision);
    let hx = le32(c.coord.x as u32);
    let hy = le32(c.coord.y as u32);
    let hz = le32(c.coord.z as u32);
    let hr = le32(c.revision);
    assert(r == hx + hy + hz + hr + bb);
    assert(r.subrange(0, 4) =~= hx);
    assert(r.subrange(4, 8) =~= hy);
    assert(r.subrange(8, 12) =~= hz);
    assert(r.subrange(12, 16) =~= hr);
    assert(read_le32(r, 0) == read_le32(hx, 0));
    assert(read_le32(r, 4) == read_le32(hy, 0));
    assert(read_le32(r, 8) == read_le32(hz, 0));
    assert(read_le32(r, 12) == read_le32(hr, 0));
    lemma_i32_bits_round_trip(c.coord.x);
    lemma_i32_bits_round_trip(c.coord.y);
    lemma_i32_bits_round_trip(c.coord.z);
    assert forall|j: int| 0 <= j < CHUNK_VOLUME implies #[trigger] read_le16(r, 16 + 2 * j)
        == c.blocks[j] by {
        assert(read_le16(bb, 2 * j) == c.blocks[j]);
        assert(r[16 + 2 * j] == bb[2 * j]);
        assert(r[16 + 2 * j + 1] == bb[2 * j + 1]);
    }
}

proof fn lemma_records_index(cs: Seq<ChunkView>)
    requires
        forall|i: int| 0 <= i < cs.len() ==> #[trigger] cs[i].blocks.len() == CHUNK_VOLUME,
    ensures
        chunk_records(cs).len() == cs.len() * CHUNK_RECORD_LEN,
        forall|i: int, k: int|
            #![trigger chunk_record(cs[i])[k]]
            0 <= i < cs.len() && 0 <= k < CHUNK_RECORD_LEN ==> chunk_records(cs)[i
                * CHUNK_RECORD_LEN + k] == chunk_record(cs[i])[k],
    decreases cs.len(),
{
    if cs.len() > 0 {
        let p = cs.drop_last();
        lemma_records_index(p);
        lemma_record_index(cs.last());
        let all = chunk_records(cs);
        assert(all == chunk_records(p) + chunk_record(cs.last()));
        assert forall|i: int, k: int|
            #![trigger chunk_record(cs[i])[k]]
            0 <= i < cs.len() && 0 <= k < CHUNK_RECORD_LEN implies chunk_records(cs)[i
                * CHUNK_RECORD_LEN + k] == chunk_record(cs[i])[k] by {
            if i < cs.len() - 1 {
                assert(chunk_records(p)[i * CHUNK_RECORD_LEN + k] == chunk_record(p[i])[k]);
                assert(i * CHUNK_RECORD_LEN + k < p.len() * CHUNK_RECORD_LEN) by (nonlinear_arith)
                    requires
                        i < p.len(),
                        k < CHUNK_RECORD_LEN,
                ;
            } else {
                assert(i * CHUNK_RECORD_LEN == p.len() * CHUNK_RECORD_LEN);
            }
        }
    }
}

/// Reading back a chunk save gives back every chunk written: its coordinate, its
/// revision and all its blocks, in order, and the seed.
pub proof fn lemma_chunk_save_round_trip(seed: u64, cs: Seq<ChunkView>)
    requires
        cs.len() <= u32::MAX,
        forall|i: int| 0 <= i < cs.len() ==> #[trigger] cs[i].blocks.len() == CHUNK_VOLUME,
    ensures
        chunk_save_readable(chunk_save_bytes(seed, cs)),
        read_le32(chunk_save_bytes(seed, cs), 16) == cs.len(),
        read_le64(chunk_save_bytes(seed, cs), 8) == seed,
        forall|i: int|
            0 <= i < cs.len() ==> #[trigger] record_coord(
                chunk_save_bytes(seed, cs),
                CHUNK_SAVE_HEADER_LEN + i * CHUNK_RECORD_LEN,
            ) == cs[i].coord && read_le32(
                chunk_save_bytes(seed, cs),
                CHUNK_SAVE_HEADER_LEN + i * CHUNK_RECORD_LEN + 12,
            ) == cs[i].revision,
        forall|i: int, j: int|
            0 <= i < cs.len() && 0 <= j < CHUNK_VOLUME ==> #[trigger] read_le16(
                chunk_save_bytes(seed, cs),
                CHUNK_SAVE_HEADER_LEN + i * CHUNK_RECORD_LEN + 16 + 2 * j,
            ) == #[trigger] cs[i].blocks[j],
{
    let b = chunk_save_bytes(seed, cs);
    let recs = chunk_records(cs);
    lemma_records_index(cs);
    lemma_le32_round_trip(cs.len() as u32);
    lemma_le32_round_trip((seed & 0xFFFF_FFFF) as u32);
    lemma_le32_round_trip((seed >> 32u64) as u32);
    let lo = (seed & 0xFFFF_FFFF) as u32;
    let hi = (seed >> 32u64) as u32;
    assert(((lo as u64) | ((hi as u64) << 32u64)) == seed) by (bit_vector)
        requires
            lo == (seed & 0xFFFF_FFFF) as u32,
            hi == (seed >> 32u64) as u32,
    ;
    let head = chunk_save_magic() + le64(seed) + le32(cs.len() as u32);
    assert(b == head + recs);
    assert(head.len() == 20);
    assert(b.subrange(0, 8) =~= chunk_save_magic());
    assert(b.subrange(8, 12) =~= le32(lo));
    assert(b.subrange(12, 16) =~= le32(hi));
    assert(b.subrange(16, 20) =~= le32(cs.len() as u32));
    assert(read_le32(b, 8) == read_le32(le32(lo), 0));
    assert(read_le32(b, 12) == read_le32(le32(hi), 0));
    assert(read_le32(b, 16) == read_le32(le32(cs.len() as u32), 0));
    assert(b.len() == 20 + cs.len() * CHUNK_RECORD_LEN);
    assert forall|i: int|
        0 <= i < cs.len() implies #[trigger] record_coord(b, CHUNK_SAVE_HEADER_LEN + i * CHUNK_RECORD_LEN)
        == cs[i].coord && read_le32(b, CHUNK_SAVE_HEADER_LEN + i * CHUNK_RECORD_LEN + 12)
        == cs[i].revision by {
        let off = CHUNK_SAVE_HEADER_LEN + i * CHUNK_RECORD_LEN;
        let r = chunk_record(cs[i]);
        lemma_record_index(cs[i]);
        assert forall|k: int| 0 <= k < 16 implies b[off + k] == r[k] by {
            assert(recs[i * CHUNK_RECORD_LEN + k] == r[k]);
        }
    }
    assert forall|i: int, j: int|
        0 <= i < cs.len() && 0 <= j < CHUNK_VOLUME implies #[trigger] read_le16(
            b,
            CHUNK_SAVE_HEADER_LEN + i * CHUNK_RECORD_LEN + 16 + 2 * j,
        ) == #[trigger] cs[i].blocks[j] by {
        let r = chunk_record(cs[i]);
        lemma_record_index(cs[i]);
        assert(recs[i * CHUNK_RECORD_LEN + 16 + 2 * j] == r[16 + 2 * j]);
        assert(recs[i * CHUNK_RECORD_LEN + 16 + 2 * j + 1] == r[16 + 2 * j + 1]);
        assert(read_le16(r, 16 + 2 * j) == cs[i].blocks[j]);
    }
}

/// The bytes of a chunk save holding `chunks` in the given order.
pub fn encode_chunks(seed: u64, chunks: &[&Chunk]) -> (out: Vec<u8>)
    ensures
        out@ == chunk_save_bytes(seed, chunk_views(chunks@)),
{
    let ghost views = chunk_views(chunks@);
    let mut out: Vec<u8> = Vec::new();
    out.push(0x41u8);
    out.push(0x51u8);
    out.push(0x43u8);
    out.push(0x48u8);
    out.push(0x4Eu8);
    out.push(0x4Bu8);
    out.push(0x31u8);
    out.push(0x00u8);
    write_u64(&mut out, seed);
    write_u32(&mut out, chunks.len() as u32);
    let ghost head = out@;
    assert(head =~= chunk_save_magic() + le64(seed) + le32(views.len() as u32));
    assert(views.take(0) =~= Seq::<ChunkView>::empty());

    let mut i: usize = 0;
    while i < chunks.len()
        invariant
            0 <= i <= chunks@.len(),
            views == chunk_views(chunks@),
            head == chunk_save_magic() + le64(seed) + le32(views.len() as u32),
            out@ == head + chunk_records(views.take(i as int)),
        decreases chunks@.len() - i,
    {
        let chunk = chunks[i];
        let coord = chunk.coord();
        let ghost before = out@;
        write_i32(&mut out, coord.x);
        write_i32(&mut out, coord.y);
        write_i32(&mut out, coord.z);
        write_u32(&mut out, chunk.revision());
        let blocks = chunk.blocks();
        let ghost rec_head = out@;
        assert(blocks@.take(0) =~= Seq::<BlockId>::empty());
        let mut j: usize = 0;
        while j < blocks.len()
            invariant
                0 <= j <= blocks@.len(),
                out@ == rec_head + blocks_bytes(blocks@.take(j as int)),
            decreases blocks@.len() - j,
        {
            proof {
                lemma_blocks_bytes_step(blocks@, j as int);
            }
            write_u16(&mut out, blocks[j]);
            assert(out@ =~= rec_head + blocks_bytes(blocks@.take(j + 1)));
            j = j + 1;
        }
        proof {
            assert(blocks@.take(j as int) =~= blocks@);
            assert(views[i as int] == chunk@);
            lemma_records_step(views, i as int);
            assert(out@ =~= head + chunk_records(views.take(i + 1)));
        }
        i = i + 1;
    }
    assert(views.take(i as int) =~= views);
    out
}

/// Reads a chunk save. It fails with `UnexpectedEof` where the bytes end before the
/// magic, the header or an announced record, and with `InvalidHeader` where the magic
/// differs; otherwise it returns one chunk per record, in order, rebuilt from its
/// blocks, clean and with the stored revision.
pub fn decode_chunks(bytes: &[u8]) -> (r: Result<Vec<Chunk>, ChunkSaveError>)
    ensures
        r is Ok <==> chunk_save_readable(bytes@),
        r matches Err(e) ==> (e == ChunkSaveError::InvalidHeader <==> (bytes@.len() >= 8
            && bytes@.subrange(0, 8) != chunk_save_magic())),
        r matches Ok(cs) ==> {
            &&& cs@.len() == read_le32(bytes@, 16)
            &&& forall|i: int| 0 <= i < cs@.len() ==> loaded_from_record(bytes@, i, #[trigger] cs@[i]@)
        },
{
    if bytes.len() < 8 {
        return Err(ChunkSaveError::UnexpectedEof);
    }
    let magic_ok = bytes[0] == 0x41u8 && bytes[1] == 0x51u8 && bytes[2] == 0x43u8 && bytes[3]
        == 0x48u8 && bytes[4] == 0x4Eu8 && bytes[5] == 0x4Bu8 && bytes[6] == 0x31u8 && bytes[7]
        == 0x00u8;
    proof {
        if magic_ok {
            assert(bytes@.subrange(0, 8) =~= chunk_save_magic());
        } else {
            assert(bytes@.subrange(0, 8) != chunk_save_magic()) by {
                if bytes@.subrange(0, 8) == chunk_save_magic() {
                    assert(bytes@.subrange(0, 8)[0] == bytes@[0]);
                    assert(bytes@.subrange(0, 8)[1] == bytes@[1]);
                    assert(bytes@.subrange(0, 8)[2] == bytes@[2]);
                    assert(bytes@.subrange(0, 8)[3] == bytes@[3]);
                    assert(bytes@.subrange(0, 8)[4] == bytes@[4]);
                    assert(bytes@.subrange(0, 8)[5] == bytes@[5]);
                    assert(bytes@.subrange(0, 8)[6] == bytes@[6]);
                    assert(bytes@.subrange(0, 8)[7] == bytes@[7]);
                }
            }
        }
    }
    if !magic_ok {
        return Err(ChunkSaveError::InvalidHeader);
    }
    let mut pos: usize = 8;
    let _seed = match read_u64(bytes, &mut pos) {
        Ok(v) => v,
        Err(e) => return Err(e),
    };
    let chunk_count = match read_u32(bytes, &mut pos) {
        Ok(v) => v,
        Err(e) => return Err(e),
    };
    let ghost n = chunk_count as int;
    let mut chunks: Vec<Chunk> = Vec::new();
    let mut i: u32 = 0;
    while i < chunk_count
        invariant
            bytes@.len() >= CHUNK_SAVE_HEADER_LEN,
            bytes@.subrange(0, 8) == chunk_save_magic(),
            chunk_count == read_le32(bytes@, 16),
            0 <= i <= chunk_count,
            pos == CHUNK_SAVE_HEADER_LEN + i * CHUNK_RECORD_LEN,
            pos <= bytes@.len(),
            chunks@.len() == i,
            forall|k: int| 0 <= k < i ==> loaded_from_record(bytes@, k, #[trigger] chunks@[k]@),
        decreases chunk_count - i,
    {
        let ghost off = pos as int;
        if bytes.len() - pos < CHUNK_RECORD_LEN {
            proof {
                assert(bytes@.len() < CHUNK_SAVE_HEADER_LEN + chunk_count * CHUNK_RECORD_LEN)
                    by (nonlinear_arith)
                    requires
                        bytes@.len() < pos + CHUNK_RECORD_LEN,
                        pos == CHUNK_SAVE_HEADER_LEN + i * CHUNK_RECORD_LEN,
                        i < chunk_count,
                ;
            }
            return Err(ChunkSaveError::UnexpectedEof);
        }
        let x = match read_i32(bytes, &mut pos) {
            Ok(v) => v,
            Err(e) => return Err(e),
        };
        let y = match read_i32(bytes, &mut pos) {
            Ok(v) => v,
            Err(e) => return Err(e),
        };
        let z = match read_i32(bytes, &mut pos) {
            Ok(v) => v,
            Err(e) => return Err(e),
        };
        let revision = match read_u32(bytes, &mut pos) {
            Ok(v) => v,
            Err(e) => return Err(e),
        };
        let mut blocks: Vec<BlockId> = Vec::with_capacity(CHUNK_VOLUME);
        let mut j: usize = 0;
        while j < CHUNK_VOLUME
            invariant
                0 <= j <= CHUNK_VOLUME,
                off + CHUNK_RECORD_LEN <= bytes@.len(),
                pos == off + 16 + 2 * j,
                blocks@.len() == j,
                forall|t: int| 0 <= t < j ==> #[trigger] blocks@[t] == read_le16(bytes@, off + 16 + 2 * t),
            decreases CHUNK_VOLUME - j,
        {
            let b = match read_u16(bytes, &mut pos) {
                Ok(v) => v,
                Err(e) => return Err(e),
            };
            blocks.push(b);
            j = j + 1;
        }
        let chunk = Chunk::from_blocks(ChunkCoord::new(x, y, z), blocks, revision);
        chunks.push(chunk);
        proof {
            assert(loaded_from_record(bytes@, i as int, chunks@[i as int]@));
        }
        i = i + 1;
    }
    proof {
        assert(bytes@.len() >= CHUNK_SAVE_HEADER_LEN + read_le32(bytes@, 16) * CHUNK_RECORD_LEN);
    }
    Ok(chunks)
}

/// The sort keys of chunks by their coordinates, `y` then `z` then `x`.
pub open spec fn save_keys(cs: Seq<&Chunk>) -> Seq<ChunkPriority> {
    cs.map_values(|c: &Chunk| yzx_priority(c@.coord))
}

/// The chunks of a save in file order: by `y`, then `z`, then `x`, chunks at equal
/// coordinates in their given order.
pub fn order_chunks_for_save<'a>(chunks: &[&'a Chunk]) -> (r: Vec<&'a Chunk>)
    ensures
        exists|order: Seq<int>|
            #[trigger] is_sorting_order(save_keys(chunks@), order) && r@ == order.map_values(
                |j: int| chunks@[j],
            ),
{
    let mut keys: Vec<ChunkPriority> = Vec::new();
    let mut i: usize = 0;
    while i < chunks.len()
        invariant
            0 <= i <= chunks@.len(),
            keys@.len() == i,
            forall|j: int| 0 <= j < i ==> #[trigger] keys@[j] == yzx_priority(chunks@[j]@.coord),
        decreases chunks@.len() - i,
    {
        let c = chunks[i].coord();
        keys.push(ChunkPriority { rank: 0, depth: 0, distance: 0, y: c.y, z: c.z, x: c.x });
        i = i + 1;
    }
    proof {
        assert(keys@ =~= save_keys(chunks@));
    }
    let order = sorted_order(keys.as_slice());
    let ghost o = order@.map_values(|x: usize| x as int);
    proof {
        assert forall|a: int| 0 <= a < order@.len() implies #[trigger] order@[a] < chunks@.len() by {
            assert(o[a] == order@[a] as int);
        }
    }
    let r = apply_order(chunks, order.as_slice());
    proof {
        assert(r@ =~= o.map_values(|j: int| chunks@[j]));
        assert(is_sorting_order(save_keys(chunks@), o));
    }
    r
}

/// The bytes of a chunk save of `chunks` for `seed`, the chunks in file order.
pub fn encode_saved_chunks(seed: u64, chunks: &[&Chunk]) -> (out: Vec<u8>)
    ensures
        exists|order: Seq<int>|
            #[trigger] is_sorting_order(save_keys(chunks@), order) && out@ == chunk_save_bytes(
                seed,
                chunk_views(order.map_values(|j: int| chunks@[j])),
            ),
{
    let ordered = order_chunks_for_save(chunks);
    encode_chunks(seed, ordered.as_slice())
}

/// Whether two block sequences are equal.
fn same_blocks(a: &[BlockId], b: &[BlockId]) -> (eq: bool)
    ensures
        eq == (a@ == b@),
{
    if a.len() != b.len() {
        return false;
    }
    let mut i: usize = 0;
    while i < a.len()
        invariant
            a@.len() == b@.len(),
            0 <= i <= a@.len(),
            forall|j: int| 0 <= j < i ==> a@[j] == b@[j],
        decreases a@.len() - i,
    {
        if a[i] != b[i] {
            return false;
        }
        i = i + 1;
    }
    assert(a@ =~= b@);
    true
}

/// Generating the chunk at `c` for `seed` can give blocks other than those of `v`.
pub open spec fn generated_differs(seed: u64, c: ChunkCoord, v: ChunkView) -> bool {
    exists|g: ChunkView| is_generated_chunk(seed, c, g) && g.blocks != v.blocks
}

/// Generating the chunk at `c` for `seed` can give the blocks of `v`.
pub open spec fn generated_matches(seed: u64, c: ChunkCoord, v: ChunkView) -> bool {
    exists|g: ChunkView| is_generated_chunk(seed, c, g) && g.blocks == v.blocks
}

/// The loaded chunks whose blocks differ from the chunk the world's seed generates
/// there, in `y`, `z`, `x` order: what a save has to keep.
pub fn modified_chunks<'a, T: TerrainSource>(world: &'a VoxelWorld<T>) -> (r: Vec<&'a Chunk>)
    requires
        world.wf(),
        forall|c: ChunkCoord| #[trigger] world@.contains_key(c) ==> chunk_in_world_range(c),
    ensures
        forall|a: int| 0 <= a < r@.len() ==> {
            let c = (#[trigger] r@[a])@.coord;
            &&& world@.contains_key(c)
            &&& r@[a]@ == world@[c]
            &&& r@[a].wf()
            &&& generated_differs(world.seed_spec(), c, world@[c])
        },
        forall|c: ChunkCoord|
            #[trigger] world@.contains_key(c) && !(exists|a: int|
                0 <= a < r@.len() && r@[a]@.coord == c) ==> generated_matches(world.seed_spec(), c, world@[c]),
        forall|a: int, b: int|
            0 <= a < b < r@.len() ==> priority_lt(
                yzx_priority((#[trigger] r@[a])@.coord),
                yzx_priority((#[trigger] r@[b])@.coord),
            ),
{
    let coords = world.loaded_chunk_coords();
    let mut r: Vec<&'a Chunk> = Vec::new();
    let mut i: usize = 0;
    while i < coords.len()
        invariant
            world.wf(),
            forall|c: ChunkCoord| #[trigger] world@.contains_key(c) ==> chunk_in_world_range(c),
            0 <= i <= coords@.len(),
            forall|c: ChunkCoord| coords@.contains(c) <==> world@.contains_key(c),
            forall|a: int, b: int|
                0 <= a < b < coords@.len() ==> priority_lt(
                    yzx_priority(#[trigger] coords@[a]),
                    yzx_priority(#[trigger] coords@[b]),
                ),
            forall|a: int| 0 <= a < r@.len() ==> {
                let c = (#[trigger] r@[a])@.coord;
                &&& world@.contains_key(c)
                &&& r@[a]@ == world@[c]
                &&& r@[a].wf()
                &&& generated_differs(world.seed_spec(), c, world@[c])
                &&& exists|k: int| 0 <= k < i && coords@[k] == c
            },
            forall|k: int|
                0 <= k < i && !(exists|a: int| 0 <= a < r@.len() && r@[a]@.coord == coords@[k])
                    ==> generated_matches(world.seed_spec(), #[trigger] coords@[k], world@[coords@[k]]),
            forall|a: int, b: int|
                0 <= a < b < r@.len() ==> priority_lt(
                    yzx_priority((#[trigger] r@[a])@.coord),
                    yzx_priority((#[trigger] r@[b])@.coord),
                ),
            forall|a: int, k: int|
                0 <= a < r@.len() && i <= k < coords@.len() ==> priority_lt(
                    yzx_priority((#[trigger] r@[a])@.coord),
                    yzx_priority(#[trigger] coords@[k]),
                ),
        decreases coords@.len() - i,
    {
        let c = coords[i];
        proof {
            assert(coords@.contains(c));
        }
        let chunk = world.get_chunk(c).unwrap();
        let generated = world.generate_chunk(c);
        let ghost before = r@;
        if !same_blocks(chunk.blocks(), generated.blocks()) {
            r.push(chunk);
        }
        proof {
            world.lemma_view_wf();
            assert(chunk@.coord == c);
            assert forall|a: int| 0 <= a < r@.len() implies {
                let d = (#[trigger] r@[a])@.coord;
                &&& world@.contains_key(d)
                &&& r@[a]@ == world@[d]
                &&& r@[a].wf()
                &&& generated_differs(world.seed_spec(), d, world@[d])
                &&& exists|k: int| 0 <= k < i + 1 && coords@[k] == d
            } by {
                if a < before.len() {
                    assert(r@[a] == before[a]);
                    let d = r@[a]@.coord;
                    let k = choose|k: int| 0 <= k < i && coords@[k] == d;
                    assert(0 <= k < i + 1 && coords@[k] == d);
                } else {
                    assert(r@[a] == chunk);
                    assert(is_generated_chunk(world.seed_spec(), c, generated@) && generated@.blocks
                        != world@[c].blocks);
                    assert(coords@[i as int] == c);
                }
            }
            assert forall|k: int|
                0 <= k < i + 1 && !(exists|a: int| 0 <= a < r@.len() && r@[a]@.coord == coords@[k])
                    implies generated_matches(world.seed_spec(), #[trigger] coords@[k], world@[coords@[k]]) by {
                if k < i {
                    assert(!(exists|a: int| 0 <= a < before.len() && before[a]@.coord == coords@[k])) by {
                        if exists|a: int| 0 <= a < before.len() && before[a]@.coord == coords@[k] {
                            let a = choose|a: int| 0 <= a < before.len() && before[a]@.coord == coords@[k];
                            assert(r@[a] == before[a]);
                            assert(0 <= a < r@.len() && r@[a]@.coord == coords@[k]);
                        }
                    }
                } else {
                    assert(coords@[k] == c);
                    if chunk@.blocks != generated@.blocks {
                        assert(r@[before.len() as int]@.coord == coords@[k]);
                    } else {
                        assert(is_generated_chunk(world.seed_spec(), coords@[k], generated@)
                            && generated@.blocks == world@[coords@[k]].blocks);
                    }
                }
            }
            assert forall|a: int, b: int| 0 <= a < b < r@.len() implies priority_lt(
                yzx_priority((#[trigger] r@[a])@.coord),
                yzx_priority((#[trigger] r@[b])@.coord),
            ) by {
                if b < before.len() {
                    assert(r@[a] == before[a] && r@[b] == before[b]);
                } else {
                    assert(r@[a] == before[a]);
                    assert(r@[b]@.coord == coords@[i as int]);
                }
            }
            assert forall|a: int, k: int| 0 <= a < r@.len() && i + 1 <= k < coords@.len() implies priority_lt(
                yzx_priority((#[trigger] r@[a])@.coord),
                yzx_priority(#[trigger] coords@[k]),
            ) by {
                if a < before.len() {
                    assert(r@[a] == before[a]);
                } else {
                    assert(r@[a]@.coord == coords@[i as int]);
                }
            }
        }
        i = i + 1;
    }
    proof {
        assert forall|c: ChunkCoord|
            #[trigger] world@.contains_key(c) && !(exists|a: int| 0 <= a < r@.len() && r@[a]@.coord == c)
                implies generated_matches(world.seed_spec(), c, world@[c]) by {
            assert(coords@.contains(c));
            let k = choose|k: int| 0 <= k < coords@.len() && coords@[k] == c;
        }
    }
    r
}

/// What a save does with the saved copy of a chunk the player changed.
pub enum SavedChunkUpdate<'a> {
    /// Drop the saved copy: the chunk is no longer loaded, or its blocks are again those
    /// the world's seed generates there.
    Remove,
    /// Keep this chunk as the saved copy.
    Store(&'a Chunk),
}

/// What a save does with the saved copy of the changed chunk at `coord`: a chunk no
/// longer loaded, or whose blocks equal those generated there, loses its saved copy;
/// any other is stored.
pub fn saved_chunk_update<'a, T: TerrainSource>(world: &'a VoxelWorld<T>, coord: ChunkCoord) -> (r:
    SavedChunkUpdate<'a>)
    requires
        world.wf(),
        chunk_in_world_range(coord),
    ensures
        !world@.contains_key(coord) ==> r is Remove,
        world@.contains_key(coord) ==> match r {
            SavedChunkUpdate::Remove => generated_matches(world.seed_spec(), coord, world@[coord]),
            SavedChunkUpdate::Store(chunk) => chunk@ == world@[coord] && chunk.wf()
                && generated_differs(world.seed_spec(), coord, world@[coord]),
        },
{
    let chunk = match world.get_chunk(coord) {
        Some(c) => c,
        None => return SavedChunkUpdate::Remove,
    };
    let generated = world.generate_chunk(coord);
    if same_blocks(chunk.blocks(), generated.blocks()) {
        SavedChunkUpdate::Remove
    } else {
        SavedChunkUpdate::Store(chunk)
    }
}

} // verus!
