//! The RIFF chunk layout of a wave container, as far as the vendor chunk
//! needs it: finding the chunk before the sample data on load, and putting it
//! back in front of the sample data on save. The samples themselves are
//! decoded and encoded by the audio codec.
use vstd::prelude::*;

verus! {

/// Where the first chunk starts: after `RIFF`, the size and `WAVE`.
pub const FIRST_CHUNK: usize = 12;

/// Why a vendor chunk cannot be put into an encoded container.
#[derive(Debug, Clone, Copy, PartialEq, Eq, Structural)]
pub enum RiffError {
    /// The container has no `data` chunk to put it in front of.
    NoDataChunk,
    /// The container would grow past what its 32-bit size field can hold.
    TooLarge,
    /// The vendor chunk claims more bytes than the container holds.
    TruncatedChunk,
}

/// The identifier of the sample data chunk, `data`.
pub open spec fn data_id() -> Seq<u8> {
    seq![0x64u8, 0x61u8, 0x74u8, 0x61u8]
}

/// The identifier of the vendor chunk, `clm `.
pub open spec fn clm_id() -> Seq<u8> {
    seq![0x63u8, 0x6cu8, 0x6du8, 0x20u8]
}

/// The little-endian 32-bit number in `b` at `off`.
pub open spec fn le32(b: Seq<u8>, off: int) -> nat {
    (b[off] + 256 * b[off + 1] + 65536 * b[off + 2] + 16777216 * b[off + 3]) as nat
}

/// The four little-endian bytes of `v`.
pub open spec fn le32_bytes(v: nat) -> Seq<u8> {
    seq![
        (v % 256) as u8,
        ((v / 256) % 256) as u8,
        ((v / 65536) % 256) as u8,
        ((v / 16777216) % 256) as u8,
    ]
}

/// A chunk body's length rounded up to an even number of bytes.
pub open spec fn padded(n: nat) -> nat {
    n + n % 2
}

/// The identifier of the chunk whose header starts at `off`.
pub open spec fn chunk_id(b: Seq<u8>, off: int) -> Seq<u8> {
    b.subrange(off, off + 4)
}

/// The body length of the chunk whose header starts at `off`.
pub open spec fn chunk_size(b: Seq<u8>, off: int) -> nat {
    le32(b, off + 4)
}

/// Where the chunk after the one at `off` starts.
pub open spec fn next_chunk(b: Seq<u8>, off: int) -> int {
    off + 8 + padded(chunk_size(b, off))
}

/// The offset of the first chunk from `off` on whose identifier is `id`,
/// walking chunk by chunk and giving up at the end of `b` or at a chunk
/// named `stop` that is not `id`.
pub open spec fn find_chunk(b: Seq<u8>, off: int, id: Seq<u8>, stop: Seq<u8>) -> Option<int>
    decreases (if 0 <= off <= b.len() {
        b.len() - off
    } else {
        0
    }),
{
    if off < 0 || off + 8 > b.len() {
        None
    } else if chunk_id(b, off) == id {
        Some(off)
    } else if chunk_id(b, off) == stop {
        None
    } else {
        find_chunk(b, next_chunk(b, off), id, stop)
    }
}

/// The vendor chunk that comes before the sample data: its whole body, or
/// `TruncatedChunk` where the body runs past the end of the container, or
/// nothing where there is no such chunk.
pub open spec fn vendor_block(b: Seq<u8>) -> Result<Option<Seq<u8>>, RiffError> {
    match find_chunk(b, FIRST_CHUNK as int, clm_id(), data_id()) {
        Some(off) => if off + 8 + chunk_size(b, off) <= b.len() {
            Ok(Some(b.subrange(off + 8, off + 8 + chunk_size(b, off))))
        } else {
            Err(RiffError::TruncatedChunk)
        },
        None => Ok(None),
    }
}

/// The container `wav`, whose `data` chunk starts at `d`, with a vendor
/// chunk holding `body` placed right before the `data` chunk and the RIFF
/// size grown to match.
pub open spec fn with_vendor_chunk(wav: Seq<u8>, d: int, body: Seq<u8>) -> Seq<u8> {
    let pad: Seq<u8> = if body.len() % 2 == 1 {
        seq![0u8]
    } else {
        Seq::empty()
    };
    wav.subrange(0, 4) + le32_bytes(le32(wav, 4) + 8 + padded(body.len())) + wav.subrange(8, d)
        + clm_id() + le32_bytes(body.len()) + body + pad + wav.subrange(d, wav.len() as int)
}

fn read_le32(b: &Vec<u8>, off: usize) -> (r: u32)
    requires
        off + 4 <= b.len(),
    ensures
        r == le32(b@, off as int),
{
    b[off] as u32 + 256 * (b[off + 1] as u32) + 65536 * (b[off + 2] as u32) + 16777216 * (
    b[off + 3] as u32)
}

fn push_le32(out: &mut Vec<u8>, v: u32)
    ensures
        final(out)@ == old(out)@ + le32_bytes(v as nat),
{
    out.push((v % 256) as u8);
    out.push(((v / 256) % 256) as u8);
    out.push(((v / 65536) % 256) as u8);
    out.push(((v / 16777216) % 256) as u8);
    assert(final(out)@ =~= old(out)@ + le32_bytes(v as nat));
}

fn id_at(b: &Vec<u8>, off: usize, id: [u8; 4]) -> (r: bool)
    requires
        off + 4 <= b.len(),
    ensures
        r == (chunk_id(b@, off as int) == id@),
{
    let r = b[off] == id[0] && b[off + 1] == id[1] && b[off + 2] == id[2] && b[off + 3] == id[3];
    if r {
        assert(chunk_id(b@, off as int) =~= id@);
    } else {
        assert(chunk_id(b@, off as int) != id@) by {
            if chunk_id(b@, off as int) == id@ {
                assert(chunk_id(b@, off as int)[0] == b@[off as int]);
                assert(chunk_id(b@, off as int)[1] == b@[off + 1]);
                assert(chunk_id(b@, off as int)[2] == b@[off + 2]);
                assert(chunk_id(b@, off as int)[3] == b@[off + 3]);
            }
        }
    }
    r
}

/// Walks the chunks of `b` from `start` and returns where the first chunk
/// named `id` starts, stopping at the end or at a chunk named `stop`.
pub fn locate_chunk(b: &Vec<u8>, start: usize, id: [u8; 4], stop: [u8; 4]) -> (r: Option<usize>)
    ensures
        match r {
            Some(o) => find_chunk(b@, start as int, id@, stop@) == Some(o as int),
            None => find_chunk(b@, start as int, id@, stop@) is None,
        },
{
    let mut off: usize = start;
    while off <= b.len() && b.len() - off >= 8
        invariant
            find_chunk(b@, off as int, id@, stop@) == find_chunk(b@, start as int, id@, stop@),
        decreases b.len() - off,
    {
        if id_at(b, off, id) {
            return Some(off);
        }
        if id_at(b, off, stop) {
            return None;
        }
        let size = read_le32(b, off + 4);
        let next: u128 = off as u128 + 8 + size as u128 + (size % 2) as u128;
        if next > b.len() as u128 {
            assert(find_chunk(b@, next as int, id@, stop@) is None);
            return None;
        }
        off = next as usize;
    }
    None
}

/// The vendor chunk of an encoded container: the whole body of the first
/// `clm ` chunk before the `data` chunk, byte for byte.
pub fn vendor_chunk(wav: &Vec<u8>) -> (r: Result<Option<Vec<u8>>, RiffError>)
    ensures
        match r {
            Ok(Some(v)) => vendor_block(wav@) == Ok::<Option<Seq<u8>>, RiffError>(Some(v@)),
            Ok(None) => vendor_block(wav@) == Ok::<Option<Seq<u8>>, RiffError>(None),
            Err(e) => vendor_block(wav@) == Err::<Option<Seq<u8>>, RiffError>(e),
        },
{
    let clm: [u8; 4] = [0x63, 0x6c, 0x6d, 0x20];
    let data: [u8; 4] = [0x64, 0x61, 0x74, 0x61];
    assert(clm@ =~= clm_id());
    assert(data@ =~= data_id());
    match locate_chunk(wav, FIRST_CHUNK, clm, data) {
        Some(off) => {
            proof {
                lemma_found_in_range(wav@, FIRST_CHUNK as int, clm_id(), data_id());
            }
            assert(off + 8 <= wav.len());
            let size = read_le32(wav, off + 4);
            let start = off + 8;
            if size as u64 > (wav.len() - start) as u64 {
                return Err(RiffError::TruncatedChunk);
            }
            let end = start + size as usize;
            let mut body: Vec<u8> = Vec::new();
            let mut k: usize = start;
            while k < end
                invariant
                    start <= k <= end <= wav.len(),
                    body@ == wav@.subrange(start as int, k as int),
                decreases end - k,
            {
                body.push(wav[k]);
                assert(wav@.subrange(start as int, k + 1) =~= wav@.subrange(start as int, k as int).push(wav@[k as int]));
                k = k + 1;
            }
            Ok(Some(body))
        },
        None => Ok(None),
    }
}

fn extend_from(out: &mut Vec<u8>, src: &Vec<u8>, from: usize, to: usize)
    requires
        from <= to <= src.len(),
    ensures
        final(out)@ == old(out)@ + src@.subrange(from as int, to as int),
{
    let mut k: usize = from;
    while k < to
        invariant
            from <= k <= to <= src.len(),
            out@ == old(out)@ + src@.subrange(from as int, k as int),
        decreases to - k,
    {
        out.push(src[k]);
        assert(src@.subrange(from as int, k + 1) =~= src@.subrange(from as int, k as int).push(src@[k as int]));
        k = k + 1;
    }
}

/// Puts a vendor chunk holding `body` into an encoded container, right in
/// front of its `data` chunk, and grows the RIFF size by the bytes added.
pub fn insert_vendor_chunk(wav: &Vec<u8>, body: &Vec<u8>) -> (r: Result<Vec<u8>, RiffError>)
    ensures
        r matches Err(RiffError::NoDataChunk) <==> (wav.len() < FIRST_CHUNK || find_chunk(
            wav@,
            FIRST_CHUNK as int,
            data_id(),
            data_id(),
        ) is None),
        r matches Err(RiffError::TooLarge) ==> wav.len() >= FIRST_CHUNK,
        r matches Err(RiffError::TooLarge) ==> le32(wav@, 4) + 8 + padded(body@.len())
            >= 0x1_0000_0000,
        r matches Ok(out) ==> {
            &&& find_chunk(wav@, FIRST_CHUNK as int, data_id(), data_id()) matches Some(d)
            &&& wav.len() >= FIRST_CHUNK
            &&& le32(wav@, 4) + 8 + padded(body@.len()) < 0x1_0000_0000
            &&& out@ == with_vendor_chunk(wav@, d, body@)
        },
        (wav.len() >= FIRST_CHUNK && find_chunk(wav@, FIRST_CHUNK as int, data_id(), data_id()) is Some
            && le32(wav@, 4) + 8 + padded(body@.len()) < 0x1_0000_0000) ==> r is Ok,
{
    let data: [u8; 4] = [0x64, 0x61, 0x74, 0x61];
    assert(data@ =~= data_id());
    if wav.len() < FIRST_CHUNK {
        return Err(RiffError::NoDataChunk);
    }
    let d = match locate_chunk(wav, FIRST_CHUNK, data, data) {
        Some(d) => d,
        None => {
            return Err(RiffError::NoDataChunk);
        },
    };
    proof {
        lemma_found_in_range(wav@, FIRST_CHUNK as int, data_id(), data_id());
    }
    let riff_size = read_le32(wav, 4);
    if body.len() as u64 >= 0x1_0000_0000 || riff_size as u64 + 8 + body.len() as u64 + (body.len() % 2) as u64
        >= 0x1_0000_0000 {
        return Err(RiffError::TooLarge);
    }
    let grown = (riff_size as u64 + 8 + body.len() as u64 + (body.len() % 2) as u64) as u32;
    let mut out: Vec<u8> = Vec::new();
    extend_from(&mut out, wav, 0, 4);
    push_le32(&mut out, grown);
    extend_from(&mut out, wav, 8, d);
    out.push(0x63);
    out.push(0x6c);
    out.push(0x6d);
    out.push(0x20);
    push_le32(&mut out, body.len() as u32);
    extend_from(&mut out, body, 0, body.len());
    if body.len() % 2 == 1 {
        out.push(0);
    }
    extend_from(&mut out, wav, d, wav.len());
    proof {
        assert(body@.subrange(0, body.len() as int) =~= body@);
        assert(out@ =~= with_vendor_chunk(wav@, d as int, body@));
    }
    Ok(out)
}

/// A chunk that the walk finds lies at or after where it started, with its
/// whole header inside `b`.
proof fn lemma_found_in_range(b: Seq<u8>, off: int, id: Seq<u8>, stop: Seq<u8>)
    ensures
        find_chunk(b, off, id, stop) matches Some(o) ==> off <= o && o + 8 <= b.len(),
    decreases (if 0 <= off <= b.len() {
        b.len() - off
    } else {
        0
    }),
{
    if off < 0 || off + 8 > b.len() {
    } else if chunk_id(b, off) == id {
    } else if chunk_id(b, off) == stop {
    } else {
        lemma_found_in_range(b, next_chunk(b, off), id, stop);
    }
}

/// Reading the four little-endian bytes of a 32-bit number gives the number.
proof fn lemma_le32_bytes(v: nat)
    requires
        v < 0x1_0000_0000,
    ensures
        le32(le32_bytes(v), 0) == v,
{
    let r1 = v / 256;
    let r2 = r1 / 256;
    let r3 = r2 / 256;
    vstd::arithmetic::div_mod::lemma_fundamental_div_mod(v as int, 256);
    vstd::arithmetic::div_mod::lemma_fundamental_div_mod(r1 as int, 256);
    vstd::arithmetic::div_mod::lemma_fundamental_div_mod(r2 as int, 256);
    vstd::arithmetic::div_mod::lemma_div_denominator(v as int, 256, 256);
    vstd::arithmetic::div_mod::lemma_div_denominator(r1 as int, 256, 256);
    vstd::arithmetic::div_mod::lemma_div_denominator(v as int, 65536, 256);
    assert(r3 < 256);
    vstd::arithmetic::div_mod::lemma_small_mod(r3, 256);
    let b = le32_bytes(v);
    assert(b[0] == v % 256);
    assert(b[1] == r1 % 256);
    assert(b[2] == r2 % 256);
    assert(b[3] == r3);
}

/// Walking the chunks of `out`, which agrees with `wav` on every byte from 8
/// up to `d` and has a vendor chunk header at `d`, meets that header where the
/// walk over `wav` meets its `data` chunk, when `wav` has no vendor chunk on
/// the way.
proof fn lemma_walk_to_inserted(wav: Seq<u8>, out: Seq<u8>, off: int, d: int)
    requires
        8 <= off <= d,
        d + 8 <= out.len(),
        forall|k: int| 8 <= k < d ==> out[k] == wav[k],
        chunk_id(out, d) == clm_id(),
        find_chunk(wav, off, data_id(), data_id()) == Some(d),
        find_chunk(wav, off, clm_id(), data_id()) is None,
    ensures
        find_chunk(out, off, clm_id(), data_id()) == Some(d),
    decreases d - off,
{
    if off < d {
        let next = next_chunk(wav, off);
        lemma_found_in_range(wav, next, data_id(), data_id());
        assert(chunk_id(out, off) =~= chunk_id(wav, off));
        assert(chunk_size(out, off) == chunk_size(wav, off));
        lemma_walk_to_inserted(wav, out, next, d);
    }
}

/// A vendor chunk put into a container is read back from it whole, byte for
/// byte, when the container had no vendor chunk before its sample data. The
/// body's length must fit the chunk's 32-bit size field.
pub proof fn lemma_vendor_chunk_round_trip(wav: Seq<u8>, body: Seq<u8>)
    requires
        find_chunk(wav, FIRST_CHUNK as int, clm_id(), data_id()) is None,
        body.len() < 0x1_0000_0000,
    ensures
        find_chunk(wav, FIRST_CHUNK as int, data_id(), data_id()) matches Some(d) ==> vendor_block(
            with_vendor_chunk(wav, d, body),
        ) == Ok::<Option<Seq<u8>>, RiffError>(Some(body)),
{
    if let Some(d) = find_chunk(wav, FIRST_CHUNK as int, data_id(), data_id()) {
        lemma_found_in_range(wav, FIRST_CHUNK as int, data_id(), data_id());
        let out = with_vendor_chunk(wav, d, body);
        let size_bytes = le32_bytes(le32(wav, 4) + 8 + padded(body.len()));
        let len_bytes = le32_bytes(body.len());
        assert(out.len() >= d + 8 + body.len());
        assert forall|k: int| 8 <= k < d implies out[k] == wav[k] by {}
        assert(chunk_id(out, d) =~= clm_id());
        lemma_le32_bytes(body.len());
        assert(out.subrange(d + 4, d + 8) =~= len_bytes);
        assert(chunk_size(out, d) == le32(len_bytes, 0));
        lemma_walk_to_inserted(wav, out, FIRST_CHUNK as int, d);
        assert(out.subrange(d + 8, d + 8 + body.len()) =~= body);
    }
}

} // verus!
