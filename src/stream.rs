use vstd::prelude::*;
use crate::error::LzwError;
use vstd::arithmetic::div_mod::lemma_fundamental_div_mod_converse;

verus! {

/// One 12-bit code, held in 16 bits.
pub type SymbolUnit = u16;

/// Number of codes in the table: codes are 12 bits wide.
pub const LZW_SIZE: usize = 4096;

/// A symbol stream: `data` holds the codes, padded to an even count, and
/// `size` the number of codes before padding.
pub struct LzwStream {
    pub data: Vec<SymbolUnit>,
    pub size: usize,
}

impl LzwStream {
    /// The codes that the stream carries, padding left out.
    pub open spec fn symbols(&self) -> Seq<u16> {
        self.data@.take(self.size as int)
    }
}

/// Every entry is a 12-bit code.
pub open spec fn all_codes(s: Seq<u16>) -> bool {
    forall|i: int| 0 <= i < s.len() ==> #[trigger] s[i] < LZW_SIZE
}

/// The four magic bytes at the start of a container: "LZWS".
pub open spec fn magic() -> Seq<u8> {
    seq![0x4cu8, 0x5au8, 0x57u8, 0x53u8]
}

/// `n` as four little-endian bytes.
pub open spec fn le32(n: nat) -> Seq<u8> {
    seq![(n % 256) as u8, ((n / 256) % 256) as u8, ((n / 65536) % 256) as u8, ((n / 16777216) % 256) as u8]
}

/// The number that four little-endian bytes hold.
pub open spec fn from_le32(b: Seq<u8>) -> nat {
    (b[0] + b[1] * 256 + b[2] * 65536 + b[3] * 16777216) as nat
}

/// Byte `i` of the packed form of `d`: each pair of codes `(s0, s1)` becomes
/// `low8(s0)`, `low8(s1)`, `high4(s1) << 4 | high4(s0)`.
pub open spec fn packed_byte(d: Seq<u16>, i: int) -> u8 {
    let s0 = d[2 * (i / 3)];
    let s1 = d[2 * (i / 3) + 1];
    if i % 3 == 0 {
        (s0 % 256) as u8
    } else if i % 3 == 1 {
        (s1 % 256) as u8
    } else {
        ((s1 / 256) % 16 * 16 + (s0 / 256) % 16) as u8
    }
}

/// The payload that packs the codes `d`, three bytes for each pair.
pub open spec fn pack_payload(d: Seq<u16>) -> Seq<u8> {
    Seq::new((3 * (d.len() / 2)) as nat, |i: int| packed_byte(d, i))
}

/// Code `i` of the unpacked form of the payload `p`.
pub open spec fn unpacked_code(p: Seq<u8>, i: int) -> u16 {
    let t = p[3 * (i / 2) + 2];
    if i % 2 == 0 {
        (p[3 * (i / 2)] + (t % 16) * 256) as u16
    } else {
        (p[3 * (i / 2) + 1] + (t / 16) * 256) as u16
    }
}

/// The codes that the payload `p` unpacks to, two for each three bytes.
pub open spec fn unpack_payload(p: Seq<u8>) -> Seq<u16> {
    Seq::new((2 * (p.len() / 3)) as nat, |i: int| unpacked_code(p, i))
}

/// The container for a stream of `size` codes stored as `data`.
pub open spec fn container(data: Seq<u16>, size: nat) -> Seq<u8> {
    magic() + le32(size) + pack_payload(data)
}

/// How reading the container `b` turns out.
pub enum ReadOutcome {
    BadMagic,
    Misaligned,
    Truncated,
    Stream(Seq<u16>, nat),
}

/// What the bytes `b` hold as a container.
pub open spec fn read_container(b: Seq<u8>) -> ReadOutcome {
    if b.len() < 8 || b.take(4) != magic() {
        ReadOutcome::BadMagic
    } else if (b.len() - 8) % 3 != 0 {
        ReadOutcome::Misaligned
    } else {
        let size = from_le32(b.subrange(4, 8));
        let codes = unpack_payload(b.skip(8));
        if codes.len() < size {
            ReadOutcome::Truncated
        } else {
            ReadOutcome::Stream(codes.take(size as int), size)
        }
    }
}

/// Packs a stream into a container: magic, little-endian size, payload.
/// Fails when the stored codes are not an even count, when one of them is
/// wider than 12 bits, or when the size does not fit the 32-bit size field.
pub fn lzwstream_to_bitstream(bitstream: &LzwStream) -> (r: Result<Vec<u8>, LzwError>)
    ensures
        bitstream.data@.len() % 2 != 0 || bitstream.size > u32::MAX || !all_codes(bitstream.data@)
            <==> r is Err,
        r matches Err(e) ==> e is ErrCompress,
        r matches Ok(v) ==> v@ == container(bitstream.data@, bitstream.size as nat),
{
    let n = bitstream.data.len();
    if n % 2 != 0 {
        return Err(LzwError::ErrCompress("Invalid data size".to_owned()));
    }
    if bitstream.size > 0xffff_ffffusize {
        return Err(LzwError::ErrCompress("Too many symbols for the size field".to_owned()));
    }
    let mut res: Vec<u8> = vec![0x4cu8, 0x5au8, 0x57u8, 0x53u8];
    let size = bitstream.size as u32;
    res.push((size % 256) as u8);
    res.push(((size / 256) % 256) as u8);
    res.push(((size / 65536) % 256) as u8);
    res.push(((size / 16777216) % 256) as u8);
    proof {
        assert(res@ =~= magic() + le32(bitstream.size as nat));
    }
    let ghost d = bitstream.data@;
    let mut k: usize = 0;
    while k < n
        invariant
            n == d.len(),
            d == bitstream.data@,
            n % 2 == 0,
            k % 2 == 0,
            k <= n,
            forall|i: int| 0 <= i < k ==> #[trigger] d[i] < LZW_SIZE,
            res@.len() == 8 + 3 * (k / 2),
            res@.take(8) == magic() + le32(bitstream.size as nat),
            forall|i: int| 0 <= i < 3 * (k / 2) ==> #[trigger] res@[8 + i] == packed_byte(d, i),
        decreases n - k,
    {
        let s0: u16 = bitstream.data[k];
        let s1: u16 = bitstream.data[k + 1];
        if s0 >= 4096 || s1 >= 4096 {
            proof {
                if s0 >= 4096 {
                    assert(d[k as int] >= LZW_SIZE);
                } else {
                    assert(d[k + 1] >= LZW_SIZE);
                }
            }
            return Err(LzwError::ErrCompress("Symbol wider than 12 bits".to_owned()));
        }
        let h0: u8 = (s0 >> 8u16) as u8;
        let h1: u8 = (s1 >> 8u16) as u8;
        assert(h0 == (s0 / 256) % 16 && h1 == (s1 / 256) % 16) by (bit_vector)
            requires s0 < 4096u16, s1 < 4096u16, h0 == (s0 >> 8u16) as u8, h1 == (s1 >> 8u16) as u8;
        let mixed: u8 = (h1 << 4u8) | h0;
        assert(mixed == h1 * 16 + h0) by (bit_vector)
            requires h0 < 16u8, h1 < 16u8, mixed == (h1 << 4u8) | h0;
        let ghost before = res@;
        res.push((s0 & 0xffu16) as u8);
        res.push((s1 & 0xffu16) as u8);
        res.push(mixed);
        assert((s0 & 0xffu16) as u8 == (s0 % 256) as u8 && (s1 & 0xffu16) as u8 == (s1 % 256) as u8) by (bit_vector);
        proof {
            assert forall|i: int| 0 <= i < k + 2 implies #[trigger] d[i] < LZW_SIZE by {
                if i >= k {
                    assert(i == k || i == k + 1);
                }
            }
            assert forall|i: int| 0 <= i < 3 * ((k + 2) / 2) implies #[trigger] res@[8 + i] == packed_byte(d, i) by {
                if i >= 3 * (k / 2) {
                    assert(i / 3 == k / 2);
                } else {
                    assert(res@[8 + i] == before[8 + i]);
                }
            }
            assert(res@.take(8) =~= before.take(8));
        }
        k = k + 2;
    }
    proof {
        let c = container(d, bitstream.size as nat);
        assert(c.len() == res@.len());
        assert forall|i: int| 0 <= i < res@.len() implies res@[i] == c[i] by {
            if i < 8 {
                assert(res@[i] == res@.take(8)[i]);
            } else {
                assert(res@[8 + (i - 8)] == packed_byte(d, i - 8));
            }
        }
        assert(res@ =~= c);
    }
    Ok(res)
}

/// Reads a container back into a stream: checks the magic, reads the
/// declared size, unpacks the payload and drops the codes past that size.
pub fn bitstream_to_lzwstream(data: &[u8]) -> (r: Result<LzwStream, LzwError>)
    ensures
        match read_container(data@) {
            ReadOutcome::BadMagic => r matches Err(LzwError::ErrInvalidLzw),
            ReadOutcome::Misaligned => r matches Err(LzwError::ErrDecompress(_)),
            ReadOutcome::Truncated => r matches Err(LzwError::ErrDecompress(_)),
            ReadOutcome::Stream(codes, size) => r matches Ok(s) && s.data@ == codes
                && s.size == size,
        },
        r matches Ok(s) ==> s.data@.len() == s.size && all_codes(s.data@),
{
    let len = data.len();
    if len < 8 || data[0] != 0x4cu8 || data[1] != 0x5au8 || data[2] != 0x57u8 || data[3] != 0x53u8 {
        proof {
            if len >= 8 {
                assert(data@.take(4) != magic()) by {
                    if data@.take(4) == magic() {
                        assert(data@[0] == data@.take(4)[0]);
                        assert(data@[1] == data@.take(4)[1]);
                        assert(data@[2] == data@.take(4)[2]);
                        assert(data@[3] == data@.take(4)[3]);
                    }
                }
            }
        }
        return Err(LzwError::ErrInvalidLzw);
    }
    assert(data@.take(4) =~= magic());
    let size32: u32 = data[4] as u32 + (data[5] as u32) * 256 + (data[6] as u32) * 65536
        + (data[7] as u32) * 16777216;
    let size = size32 as usize;
    assert(size == from_le32(data@.subrange(4, 8)));
    if (len - 8) % 3 != 0 {
        return Err(LzwError::ErrDecompress("Invalid bitstream size".to_owned()));
    }
    let ghost p = data@.skip(8);
    let mut codes: Vec<u16> = Vec::new();
    let mut j: usize = 8;
    while j < len
        invariant
            len == data@.len(),
            p == data@.skip(8),
            8 <= j <= len,
            (j - 8) % 3 == 0,
            (len - 8) % 3 == 0,
            codes@.len() == 2 * ((j - 8) / 3),
            forall|i: int| 0 <= i < codes@.len() ==> #[trigger] codes@[i] == unpacked_code(p, i),
            all_codes(codes@),
        decreases len - j,
    {
        let b0: u8 = data[j];
        let b1: u8 = data[j + 1];
        let b2: u8 = data[j + 2];
        let s0: u16 = (b0 as u16) | (((b2 & 0xfu8) as u16) << 8u16);
        let s1: u16 = (b1 as u16) | ((((b2 >> 4u8) & 0xfu8) as u16) << 8u16);
        assert(s0 == b0 + (b2 % 16) * 256 && s0 < 4096) by (bit_vector)
            requires s0 == (b0 as u16) | (((b2 & 0xfu8) as u16) << 8u16);
        assert(s1 == b1 + (b2 / 16) * 256 && s1 < 4096) by (bit_vector)
            requires s1 == (b1 as u16) | ((((b2 >> 4u8) & 0xfu8) as u16) << 8u16);
        let ghost before = codes@;
        let ghost k = codes@.len() as int;
        codes.push(s0);
        codes.push(s1);
        proof {
            assert(3 * (k / 2) == j - 8);
            assert((k + 1) / 2 == k / 2);
            assert(p[j - 8] == data@[j as int]);
            assert(p[j - 7] == data@[j + 1]);
            assert(p[j - 6] == data@[j + 2]);
            assert forall|i: int| 0 <= i < codes@.len() implies #[trigger] codes@[i] == unpacked_code(p, i) by {
                if i < k {
                    assert(codes@[i] == before[i]);
                }
            }
            assert forall|i: int| 0 <= i < codes@.len() implies #[trigger] codes@[i] < LZW_SIZE by {
                if i < k {
                    assert(codes@[i] == before[i]);
                }
            }
        }
        j = j + 3;
    }
    assert(codes@ =~= unpack_payload(p));
    if codes.len() < size {
        return Err(LzwError::ErrDecompress("Invalid bitstream".to_owned()));
    }
    while codes.len() > size
        invariant
            size <= codes@.len(),
            codes@.take(size as int) == unpack_payload(p).take(size as int),
            all_codes(codes@),
        decreases codes@.len(),
    {
        let ghost before = codes@;
        codes.pop();
        assert(codes@.take(size as int) =~= before.take(size as int));
        assert forall|i: int| 0 <= i < codes@.len() implies #[trigger] codes@[i] < LZW_SIZE by {
            assert(codes@[i] == before[i]);
        }
    }
    assert(codes@ =~= codes@.take(size as int));
    Ok(LzwStream { data: codes, size })
}

/// Four little-endian bytes give back the number they were written from.
proof fn lemma_le32_round_trip(n: nat)
    requires
        n <= u32::MAX,
    ensures
        from_le32(le32(n)) == n,
{
    assert(from_le32(le32(n)) == n);
}

/// The three bytes that pack two 12-bit codes give the two codes back.
proof fn lemma_pair_unpacks(s0: u16, s1: u16)
    requires
        s0 < 4096,
        s1 < 4096,
    ensures
        ({
            let t = ((s1 / 256) % 16 * 16 + (s0 / 256) % 16) as u8;
            &&& ((s0 % 256) as u8 + (t % 16) * 256) as u16 == s0
            &&& ((s1 % 256) as u8 + (t / 16) * 256) as u16 == s1
        }),
{
    let h0 = (s0 / 256) as int;
    let h1 = (s1 / 256) as int;
    assert(h0 < 16 && h1 < 16);
    let t = h1 * 16 + h0;
    lemma_fundamental_div_mod_converse(t, 16, h1, h0);
    lemma_fundamental_div_mod_converse(s0 as int, 256, h0, (s0 % 256) as int);
    lemma_fundamental_div_mod_converse(s1 as int, 256, h1, (s1 % 256) as int);
}

/// A stream of 12-bit codes stored as an even count with at most one padding
/// entry, and a size that fits the size field, survives packing and reading
/// back: the same size and the same codes, the padding dropped.
pub proof fn lemma_container_round_trip(data: Seq<u16>, size: nat)
    requires
        data.len() % 2 == 0,
        size <= data.len() <= size + 1,
        size <= u32::MAX,
        all_codes(data),
    ensures
        read_container(container(data, size)) == ReadOutcome::Stream(data.take(size as int), size),
{
    let d = data;
    let n = size;
    let b = container(d, n);
    assert(b.take(4) =~= magic());
    assert(b.subrange(4, 8) =~= le32(n));
    lemma_le32_round_trip(n);
    let p = b.skip(8);
    assert(p =~= pack_payload(d));
    let u = unpack_payload(p);
    assert(u.len() == d.len());
    assert forall|i: int| 0 <= i < u.len() implies u[i] == d[i] by {
        let q = i / 2;
        assert(p[3 * q] == packed_byte(d, 3 * q));
        assert(p[3 * q + 1] == packed_byte(d, 3 * q + 1));
        assert(p[3 * q + 2] == packed_byte(d, 3 * q + 2));
        assert((3 * q) / 3 == q);
        assert((3 * q + 1) / 3 == q && (3 * q + 1) % 3 == 1);
        assert((3 * q + 2) / 3 == q && (3 * q + 2) % 3 == 2);
        lemma_pair_unpacks(d[2 * q], d[2 * q + 1]);
        if i % 2 == 0 {
            assert(i == 2 * q);
        } else {
            assert(i == 2 * q + 1);
        }
    }
    assert(u =~= d);
}

} // verus!
