use crate::decoder::{decode_codes, decode_from_lzwstream};
use crate::encoder::{encode_codes, encode_to_lzwstream, lemma_codes_len, padded};
use crate::error::LzwError;
use crate::stream::{
    bitstream_to_lzwstream, container, lzwstream_to_bitstream, read_container, ReadOutcome,
};
use vstd::prelude::*;

verus! {

/// The container that `input` compresses to.
pub open spec fn compressed(input: Seq<u8>) -> Seq<u8> {
    let codes = encode_codes(input);
    container(padded(codes), codes.len())
}

/// Compresses `src` into a container. Fails only where the number of codes
/// does not fit the container's 32-bit size field.
pub fn lzw_encode(src: &[u8]) -> (r: Result<Vec<u8>, LzwError>)
    ensures
        r is Err <==> encode_codes(src@).len() > u32::MAX,
        r matches Err(e) ==> e is ErrCompress,
        r matches Ok(v) ==> v@ == compressed(src@),
        src@.len() <= u32::MAX ==> r is Ok,
{
    proof {
        lemma_codes_len(src@);
    }
    let stream = encode_to_lzwstream(src);
    lzwstream_to_bitstream(&stream)
}

/// Decompresses a container: `ErrInvalidLzw` for a wrong magic or a code
/// that names no entry, `ErrDecompress` for a misaligned or short payload.
pub fn lzw_decode(src: &[u8]) -> (r: Result<Vec<u8>, LzwError>)
    ensures
        match read_container(src@) {
            ReadOutcome::BadMagic => r matches Err(LzwError::ErrInvalidLzw),
            ReadOutcome::Misaligned => r matches Err(LzwError::ErrDecompress(_)),
            ReadOutcome::Truncated => r matches Err(LzwError::ErrDecompress(_)),
            ReadOutcome::Stream(codes, _) => match decode_codes(codes) {
                None => r matches Err(LzwError::ErrInvalidLzw),
                Some(bytes) => r matches Ok(v) && v@ == bytes,
            },
        },
{
    let stream = bitstream_to_lzwstream(src)?;
    proof {
        assert(stream.symbols() =~= stream.data@);
    }
    decode_from_lzwstream(&stream)
}

} // verus!
