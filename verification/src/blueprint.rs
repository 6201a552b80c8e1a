use base64::Engine;
use vstd::prelude::*;
use vstd::string::StringExecFns;
use crate::error::{BlueprintError, BlueprintErrorView};
use crate::ink::{InkLayer, RGBA, lemma_layer_bytes_len, spec_layer_bytes};

verus! {

/// The four big-endian bytes of a 32-bit value.
pub open spec fn spec_be32(x: u32) -> Seq<u8> {
    seq![
        (x / 0x1000000) as u8,
        ((x / 0x10000) % 0x100) as u8,
        ((x / 0x100) % 0x100) as u8,
        (x % 0x100) as u8,
    ]
}

/// The value the four bytes of a big-endian field denote.
pub open spec fn spec_be32_val(b: Seq<u8>) -> int {
    b[0] * 0x1000000 + b[1] * 0x10000 + b[2] * 0x100 + b[3]
}

/// Reading back a big-endian field yields the value it was built from.
pub proof fn lemma_be32_round_trip(x: u32)
    ensures
        spec_be32_val(spec_be32(x)) == x,
{
}

pub fn u32_be_bytes(x: u32) -> (v: Vec<u8>)
    ensures
        v@ == spec_be32(x),
{
    let mut v: Vec<u8> = Vec::new();
    v.push((x / 0x1000000) as u8);
    v.push(((x / 0x10000) % 0x100) as u8);
    v.push(((x / 0x100) % 0x100) as u8);
    v.push((x % 0x100) as u8);
    proof {
        assert(v@ =~= spec_be32(x));
    }
    v
}

fn push_bytes(dst: &mut Vec<u8>, src: &Vec<u8>)
    ensures
        final(dst)@ == old(dst)@ + src@,
{
    let n = src.len();
    let mut k: usize = 0;
    while k < n
        invariant
            n == src@.len(),
            k <= n,
            dst@ == old(dst)@ + src@.take(k as int),
        decreases n - k,
    {
        dst.push(src[k]);
        proof {
            assert(dst@ =~= old(dst)@ + src@.take(k + 1 as int));
        }
        k = k + 1;
    }
    proof {
        assert(src@.take(n as int) =~= src@);
    }
}

/// The blueprint chunk: big-endian width, height and block length, four
/// reserved zero bytes, the big-endian uncompressed byte count, then
/// the compressed payload.
pub open spec fn spec_chunk(
    width: u32,
    height: u32,
    block_len: u32,
    ulen: u32,
    compressed: Seq<u8>,
) -> Seq<u8> {
    spec_be32(width) + spec_be32(height) + spec_be32(block_len) + seq![0u8, 0u8, 0u8, 0u8]
        + spec_be32(ulen) + compressed
}

/// The byte a base64 digit value 0 to 63 encodes to, in the standard
/// alphabet `A-Z a-z 0-9 + /`.
pub open spec fn spec_b64_byte(v: int) -> u8 {
    if v < 26 {
        (65 + v) as u8
    } else if v < 52 {
        (97 + (v - 26)) as u8
    } else if v < 62 {
        (48 + (v - 52)) as u8
    } else if v == 62 {
        43
    } else {
        47
    }
}

pub open spec fn spec_b64_char(v: int) -> char {
    spec_b64_byte(v) as char
}

/// Standard base64 with `=` padding: each three input bytes become four
/// digits; one or two leftover bytes become two or three digits and
/// padding.
pub open spec fn spec_base64(bytes: Seq<u8>) -> Seq<char>
    decreases bytes.len(),
{
    if bytes.len() == 0 {
        Seq::empty()
    } else if bytes.len() == 1 {
        let b0 = bytes[0] as int;
        seq![spec_b64_char(b0 / 4), spec_b64_char((b0 % 4) * 16), '=', '=']
    } else if bytes.len() == 2 {
        let b0 = bytes[0] as int;
        let b1 = bytes[1] as int;
        seq![
            spec_b64_char(b0 / 4),
            spec_b64_char((b0 % 4) * 16 + b1 / 16),
            spec_b64_char((b1 % 16) * 4),
            '=',
        ]
    } else {
        let b0 = bytes[0] as int;
        let b1 = bytes[1] as int;
        let b2 = bytes[2] as int;
        seq![
            spec_b64_char(b0 / 4),
            spec_b64_char((b0 % 4) * 16 + b1 / 16),
            spec_b64_char((b1 % 16) * 4 + b2 / 64),
            spec_b64_char(b2 % 64),
        ] + spec_base64(bytes.skip(3))
    }
}

/// The chunk's fixed-offset fields decode back to exactly the width,
/// height, block length and uncompressed length they were built from;
/// the reserved bytes are zero and the remainder is the compressed
/// payload unchanged.
pub proof fn lemma_chunk_fields(
    width: u32,
    height: u32,
    block_len: u32,
    ulen: u32,
    compressed: Seq<u8>,
)
    ensures
        spec_chunk(width, height, block_len, ulen, compressed).len() == 20 + compressed.len(),
        spec_be32_val(spec_chunk(width, height, block_len, ulen, compressed).subrange(0, 4))
            == width,
        spec_be32_val(spec_chunk(width, height, block_len, ulen, compressed).subrange(4, 8))
            == height,
        spec_be32_val(spec_chunk(width, height, block_len, ulen, compressed).subrange(8, 12))
            == block_len,
        spec_chunk(width, height, block_len, ulen, compressed).subrange(12, 16) == seq![
            0u8,
            0u8,
            0u8,
            0u8,
        ],
        spec_be32_val(spec_chunk(width, height, block_len, ulen, compressed).subrange(16, 20))
            == ulen,
        spec_chunk(width, height, block_len, ulen, compressed).skip(20) == compressed,
{
    let c = spec_chunk(width, height, block_len, ulen, compressed);
    assert(c.subrange(0, 4) =~= spec_be32(width));
    assert(c.subrange(4, 8) =~= spec_be32(height));
    assert(c.subrange(8, 12) =~= spec_be32(block_len));
    assert(c.subrange(12, 16) =~= seq![0u8, 0u8, 0u8, 0u8]);
    assert(c.subrange(16, 20) =~= spec_be32(ulen));
    assert(c.skip(20) =~= compressed);
    lemma_be32_round_trip(width);
    lemma_be32_round_trip(height);
    lemma_be32_round_trip(block_len);
    lemma_be32_round_trip(ulen);
}

/// What the zstd compressor emits at maximum level for the given bytes.
pub uninterp spec fn zstd_of(data: Seq<u8>) -> Seq<u8>;

/// Relies on zstd::stream::encode_all at level 22 (the maximum): one
/// compressed frame, a function of the input bytes alone.
#[verifier::external_body]
fn zstd_compress(data: &Vec<u8>) -> (r: Result<Vec<u8>, BlueprintError>)
    ensures
        r matches Ok(v) ==> v@ == zstd_of(data@),
        r matches Err(e) ==> e@ == BlueprintErrorView::Compression,
{
    match zstd::stream::encode_all(data.as_slice(), 22) {
        Ok(v) => Ok(v),
        Err(_) => Err(BlueprintError::Compression),
    }
}

/// The 20-byte SHA-1 digest of a text's UTF-8 bytes.
pub uninterp spec fn sha1_of(text: Seq<char>) -> Seq<u8>;

/// Relies on sha1_smol::Sha1: update then digest yields the 20-byte
/// SHA-1 of the text's bytes, a function of the text alone.
#[verifier::external_body]
fn sha1_digest(text: &str) -> (r: Vec<u8>)
    ensures
        r@ == sha1_of(text@),
        r@.len() == 20,
{
    let mut hasher = sha1_smol::Sha1::new();
    hasher.update(text.as_bytes());
    hasher.digest().bytes().to_vec()
}

/// Relies on the base64 crate's STANDARD engine: RFC 4648 base64 in the
/// standard alphabet, with `=` padding. The length bound keeps the call
/// from its only panic, an output-size overflow.
#[verifier::external_body]
fn base64_encode(data: &Vec<u8>) -> (r: String)
    requires
        4 * data@.len() + 4 <= usize::MAX,
    ensures
        r@ == spec_base64(data@),
{
    base64::engine::general_purpose::STANDARD.encode(data.as_slice())
}

/// The finished artifact: the `VCB+` tag, the base64 of the first six
/// digest bytes of the chunk's base64 text, then that text itself.
pub open spec fn spec_blueprint_chars(cells: Seq<RGBA>, width: u32, height: u32) -> Seq<char> {
    let bytes = spec_layer_bytes(cells);
    let compressed = zstd_of(bytes);
    let chunk = spec_chunk(
        width,
        height,
        (compressed.len() + 12) as u32,
        bytes.len() as u32,
        compressed,
    );
    let b64 = spec_base64(chunk);
    "VCB+"@ + spec_base64(sha1_of(b64).take(6)) + b64
}

/// Serializes a finished canvas into the sandbox's framed, compressed,
/// hashed and base64-encoded clipboard string.
pub fn generate_logic_blueprint(ink_buffer: &InkLayer, width: u32, height: u32) -> (r: Result<
    String,
    BlueprintError,
>)
    ensures
        r matches Ok(s) ==> s@ == spec_blueprint_chars(ink_buffer@, width, height) && 4
            * ink_buffer@.len() <= u32::MAX && zstd_of(spec_layer_bytes(ink_buffer@)).len() + 12
            <= u32::MAX,
        r matches Err(e) ==> e@ == BlueprintErrorView::Oversize || e@
            == BlueprintErrorView::Compression,
        4 * ink_buffer@.len() > u32::MAX ==> (r matches Err(e) && e@
            == BlueprintErrorView::Oversize),
        (r matches Err(e) && e@ == BlueprintErrorView::Oversize) ==> 4 * ink_buffer@.len()
            > u32::MAX || zstd_of(spec_layer_bytes(ink_buffer@)).len() + 12 > u32::MAX || 20
            + zstd_of(spec_layer_bytes(ink_buffer@)).len() > (usize::MAX - 4) / 4,
{
    let bytes = ink_buffer.to_be_bytes();
    proof {
        lemma_layer_bytes_len(ink_buffer@);
    }
    if bytes.len() > u32::MAX as usize {
        return Err(BlueprintError::Oversize);
    }
    let ulen = bytes.len() as u32;
    let compressed = match zstd_compress(&bytes) {
        Ok(c) => c,
        Err(e) => {
            return Err(e);
        },
    };
    if compressed.len() > (u32::MAX - 12) as usize {
        return Err(BlueprintError::Oversize);
    }
    let block_len = compressed.len() as u32 + 12;
    let mut chunk: Vec<u8> = u32_be_bytes(width);
    let part_height = u32_be_bytes(height);
    push_bytes(&mut chunk, &part_height);
    let part_block = u32_be_bytes(block_len);
    push_bytes(&mut chunk, &part_block);
    chunk.push(0);
    chunk.push(0);
    chunk.push(0);
    chunk.push(0);
    let part_ulen = u32_be_bytes(ulen);
    push_bytes(&mut chunk, &part_ulen);
    push_bytes(&mut chunk, &compressed);
    proof {
        assert(chunk@ =~= spec_chunk(width, height, block_len, ulen, zstd_of(bytes@)));
    }
    if chunk.len() > (usize::MAX - 4) / 4 {
        proof {
            assert(chunk@.len() == 20 + zstd_of(spec_layer_bytes(ink_buffer@)).len());
        }
        return Err(BlueprintError::Oversize);
    }
    let b64_chunk = base64_encode(&chunk);
    let hash = sha1_digest(b64_chunk.as_str());
    let mut hash6: Vec<u8> = Vec::new();
    hash6.push(hash[0]);
    hash6.push(hash[1]);
    hash6.push(hash[2]);
    hash6.push(hash[3]);
    hash6.push(hash[4]);
    hash6.push(hash[5]);
    proof {
        assert(hash6@ =~= sha1_of(b64_chunk@).take(6));
    }
    let b64_hash = base64_encode(&hash6);
    let mut out = String::from_str("VCB+");
    out.append(b64_hash.as_str());
    out.append(b64_chunk.as_str());
    proof {
        assert(out@ =~= spec_blueprint_chars(ink_buffer@, width, height));
    }
    Ok(out)
}

} // verus!
