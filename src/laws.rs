use crate::codec::compressed;
use crate::decoder::{boot_table, dec_run, dec_step, dec_wf, decode_codes, DecModel};
use crate::encoder::{
    enc_run, enc_step, enc_wf, encode_codes, lemma_codes_len, lemma_enc_run_wf,
    lemma_encode_codes_bounded, link_key, padded, EncModel,
};
use crate::stream::{
    all_codes, from_le32, lemma_container_round_trip, magic, read_container, unpack_payload,
    ReadOutcome, LZW_SIZE,
};
use vstd::arithmetic::div_mod::lemma_fundamental_div_mod_converse;
use vstd::prelude::*;

verus! {

/// The table that a decoder works on next: a full one is reset first.
pub open spec fn eff_table(d: Seq<Seq<u8>>) -> Seq<Seq<u8>> {
    if d.len() == LZW_SIZE {
        boot_table()
    } else {
        d
    }
}

/// The byte sequences of the encoder's codes after one more byte: the
/// forward table written out by code.
pub open spec fn table_step(t: Seq<Seq<u8>>, s: EncModel, b: u8) -> Seq<Seq<u8>> {
    let tr = if s.size == LZW_SIZE { boot_table() } else { t };
    let links = if s.size == LZW_SIZE { Map::empty() } else { s.links };
    match s.cur {
        None => tr,
        Some(c) => if links.contains_key(link_key(c, b)) {
            tr
        } else {
            tr.push(tr[c as int].push(b))
        },
    }
}

/// The encoder's forward table, by code, after reading `x`.
pub open spec fn enc_table(x: Seq<u8>) -> Seq<Seq<u8>>
    decreases x.len(),
{
    if x.len() == 0 {
        boot_table()
    } else {
        table_step(enc_table(x.drop_last()), enc_run(x.drop_last()), x.last())
    }
}

/// The first 256 entries are the single bytes.
pub open spec fn boot_prefix(t: Seq<Seq<u8>>) -> bool {
    &&& t.len() >= 256
    &&& forall|i: int| 0 <= i < 256 ==> #[trigger] t[i] == seq![i as u8]
}

/// No entry is empty.
pub open spec fn nonempty_entries(t: Seq<Seq<u8>>) -> bool {
    forall|i: int| 0 <= i < t.len() ==> (#[trigger] t[i]).len() > 0
}

/// What holds between the encoder after `x` and the decoder after the codes
/// the encoder has emitted so far.
pub open spec fn in_sync(x: Seq<u8>) -> bool {
    let s = enc_run(x);
    let t = enc_table(x);
    &&& enc_wf(s)
    &&& t.len() == s.size
    &&& boot_prefix(t)
    &&& nonempty_entries(t)
    &&& forall|k: u32| #[trigger] s.links.contains_key(k) ==> k / 256 < s.size
        && t[s.links[k] as int] == t[(k / 256) as int].push((k % 256) as u8)
    &&& (x.len() == 0 <==> s.cur is None)
    &&& dec_run(s.out) matches Some(dm) && {
        &&& dec_wf(dm)
        &&& boot_prefix(dm.dict)
        &&& (s.cur matches Some(c) ==> x == dm.out + t[c as int])
        &&& (s.out.len() == 0 ==> dm.dict == boot_table() && dm.prev.len() == 0 && t == boot_table()
            && dm.out.len() == 0)
        &&& (s.out.len() > 0 ==> dm.prev.len() > 0 && (s.cur matches Some(c) ==> t == eff_table(
            dm.dict,
        ).push(dm.prev.push(t[c as int][0]))))
    }
}

proof fn lemma_boot_table()
    ensures
        boot_prefix(boot_table()),
        nonempty_entries(boot_table()),
        boot_table().len() == 256,
{
    assert forall|i: int| 0 <= i < 256 implies (#[trigger] boot_table()[i]).len() > 0 by {
        assert(boot_table()[i] == seq![i as u8]);
    }
}

proof fn lemma_key(c: u16, b: u8)
    requires
        c < LZW_SIZE,
    ensures
        link_key(c, b) == c * 256 + b,
        link_key(c, b) / 256 == c,
        link_key(c, b) % 256 == b,
{
    lemma_fundamental_div_mod_converse(c * 256 + b, 256, c as int, b as int);
}

/// The decoder, handed the code that the encoder emits for its current
/// match, decodes it to that match and ends with the encoder's table.
proof fn lemma_emit(tr: Seq<Seq<u8>>, dm: DecModel, c: u16)
    requires
        c < tr.len() <= LZW_SIZE,
        boot_prefix(tr),
        nonempty_entries(tr),
        dec_wf(dm),
        boot_prefix(dm.dict),
        (dm.prev.len() == 0 && dm.dict == boot_table() && tr == boot_table()) || (dm.prev.len() > 0
            && tr == eff_table(dm.dict).push(dm.prev.push(tr[c as int][0]))) || (dm.prev.len() > 0
            && tr == boot_table() && dm.dict.len() + 1 == LZW_SIZE),
    ensures
        dec_step(dm, c) matches Some(dm2) && {
            &&& dm2.out == dm.out + tr[c as int]
            &&& dm2.prev == tr[c as int]
            &&& dec_wf(dm2)
            &&& boot_prefix(dm2.dict)
            &&& dm2.prev.len() > 0
            &&& (dm2.dict == tr || (dm2.dict.len() == LZW_SIZE && tr == boot_table()))
        },
{
    lemma_boot_table();
    let d = eff_table(dm.dict);
    let w = tr[c as int];
    if dm.prev.len() == 0 && dm.dict == boot_table() && tr == boot_table() {
        assert(dec_step(dm, c) == Some(DecModel { dict: d, prev: w, out: dm.out + w }));
    } else if dm.prev.len() > 0 && tr == eff_table(dm.dict).push(dm.prev.push(w[0])) {
        if c == d.len() {
            assert(w == dm.prev.push(w[0]));
            assert(w[0] == dm.prev[0]);
            let d2 = d.push(dm.prev.push(dm.prev[0]));
            assert(d2 =~= tr);
            assert(dec_step(dm, c) == Some(DecModel { dict: d2, prev: w, out: dm.out + w }));
        } else {
            assert(d[c as int] == w);
            let d2 = d.push(dm.prev.push(w[0]));
            assert(d2 =~= tr);
            assert(dec_step(dm, c) == Some(DecModel { dict: d2, prev: w, out: dm.out + w }));
        }
        let dm2 = dec_step(dm, c).unwrap();
        assert forall|i: int| 0 <= i < dm2.dict.len() implies (#[trigger] dm2.dict[i]).len() > 0 by {
            assert(dm2.dict[i] == tr[i]);
        }
    } else {
        assert(d == dm.dict);
        assert(dm.dict[c as int] == seq![c as u8]);
        assert(w == seq![c as u8]);
        let d2 = d.push(dm.prev.push(w[0]));
        assert(dec_step(dm, c) == Some(DecModel { dict: d2, prev: w, out: dm.out + w }));
        assert forall|i: int| 0 <= i < d2.len() implies (#[trigger] d2[i]).len() > 0 by {
            if i < d.len() {
                assert(d2[i] == d[i]);
            }
        }
        assert forall|i: int| 0 <= i < 256 implies #[trigger] d2[i] == seq![i as u8] by {
            assert(d2[i] == d[i]);
        }
    }
}

proof fn lemma_in_sync_step(x: Seq<u8>, b: u8)
    requires
        in_sync(x),
    ensures
        in_sync(x.push(b)),
{
    lemma_boot_table();
    let x2 = x.push(b);
    assert(x2.drop_last() =~= x);
    let s = enc_run(x);
    let t = enc_table(x);
    let s2 = enc_run(x2);
    let t2 = enc_table(x2);
    assert(s2 == enc_step(s, b));
    assert(t2 == table_step(t, s, b));
    lemma_enc_run_wf(x2);
    let dm = dec_run(s.out).unwrap();
    match s.cur {
        None => {
            assert(x =~= Seq::<u8>::empty());
            assert(s.out.len() == 0);
            assert(t2 == t);
            assert(x2 =~= dm.out + t2[b as int]);
        },
        Some(c) => {
            let links = if s.size == LZW_SIZE { Map::<u32, u16>::empty() } else { s.links };
            let tr = if s.size == LZW_SIZE { boot_table() } else { t };
            let key = link_key(c, b);
            lemma_key(c, b);
            assert(t[c as int] == tr[c as int]);
            if links.contains_key(key) {
                assert(s.size != LZW_SIZE);
                let c2 = s.links[key];
                assert(s2.cur == Some(c2));
                assert(t2 == t);
                assert(s2.out == s.out);
                assert(t[c2 as int] == t[c as int].push(b));
                assert(x2 =~= dm.out + t2[c2 as int]);
                assert(256 <= c2 < s.size);
                assert(s.out.len() > 0);
            } else {
                assert(s2.out == s.out.push(c));
                assert(s2.out.drop_last() =~= s.out);
                assert(t2 == tr.push(tr[c as int].push(b)));
                if s.size == LZW_SIZE {
                    assert(s.out.len() > 0);
                    assert(eff_table(dm.dict).len() + 1 == LZW_SIZE);
                    assert(dm.dict.len() + 1 == LZW_SIZE);
                }
                lemma_emit(tr, dm, c);
                let dm2 = dec_step(dm, c).unwrap();
                assert(dec_run(s2.out) == Some(dm2));
                assert(t2[b as int] == seq![b]);
                assert(x2 =~= dm2.out + t2[b as int]);
                assert(eff_table(dm2.dict) == tr);
                assert(t2 =~= eff_table(dm2.dict).push(dm2.prev.push(t2[b as int][0])));
                assert forall|i: int| 0 <= i < 256 implies #[trigger] t2[i] == seq![i as u8] by {
                    assert(t2[i] == tr[i]);
                }
                assert forall|i: int| 0 <= i < t2.len() implies (#[trigger] t2[i]).len() > 0 by {
                    if i < tr.len() {
                        assert(t2[i] == tr[i]);
                    }
                }
                assert forall|k: u32| #[trigger] s2.links.contains_key(k) implies k / 256 < s2.size
                    && t2[s2.links[k] as int] == t2[(k / 256) as int].push((k % 256) as u8) by {
                    if k != key {
                        assert(links.contains_key(k));
                        assert(s2.links[k] == links[k]);
                        assert(t2[links[k] as int] == tr[links[k] as int]);
                        assert(t2[(k / 256) as int] == tr[(k / 256) as int]);
                    }
                }
            }
        },
    }
}

/// The encoder and the decoder stay in step over any input.
proof fn lemma_in_sync(x: Seq<u8>)
    ensures
        in_sync(x),
    decreases x.len(),
{
    if x.len() == 0 {
        lemma_boot_table();
        assert(dec_run(Seq::<u16>::empty()) == Some(
            DecModel { dict: boot_table(), prev: Seq::empty(), out: Seq::empty() },
        ));
    } else {
        lemma_in_sync(x.drop_last());
        lemma_in_sync_step(x.drop_last(), x.last());
        assert(x.drop_last().push(x.last()) =~= x);
    }
}

/// Decoding the codes that any input encodes to gives back that input.
pub proof fn lemma_decode_encode_codes(x: Seq<u8>)
    ensures
        decode_codes(encode_codes(x)) == Some(x),
{
    lemma_in_sync(x);
    let s = enc_run(x);
    let t = enc_table(x);
    let dm = dec_run(s.out).unwrap();
    match s.cur {
        None => {
            assert(x =~= Seq::<u8>::empty());
        },
        Some(c) => {
            let codes = s.out.push(c);
            assert(codes.drop_last() =~= s.out);
            lemma_emit(t, dm, c);
        },
    }
}

/// Decompressing what any input compresses to gives back that input, where
/// the input is short enough for the container's 32-bit size field.
pub proof fn lemma_round_trip(x: Seq<u8>)
    requires
        x.len() <= u32::MAX,
    ensures
        read_container(compressed(x)) matches ReadOutcome::Stream(codes, _) && decode_codes(codes)
            == Some(x),
{
    lemma_codes_len(x);
    let codes = encode_codes(x);
    lemma_encode_codes_bounded(x);
    let p = padded(codes);
    assert(all_codes(p)) by {
        assert forall|i: int| 0 <= i < p.len() implies #[trigger] p[i] < LZW_SIZE by {
            if i < codes.len() {
                assert(p[i] == codes[i]);
            }
        }
    }
    lemma_container_round_trip(p, codes.len());
    assert(p.take(codes.len() as int) =~= codes);
    lemma_decode_encode_codes(x);
}

/// A damaged container is refused: a wrong magic byte as a bad container, a
/// payload that is not a whole number of three-byte groups as misaligned, and
/// a declared size past the codes that the payload holds as truncated.
pub proof fn lemma_corruption_detected(b: Seq<u8>, i: int)
    ensures
        0 <= i < 4 && i < b.len() && b[i] != magic()[i] ==> read_container(b)
            == ReadOutcome::BadMagic,
        b.len() >= 8 && b.take(4) == magic() && (b.len() - 8) % 3 != 0 ==> read_container(b)
            == ReadOutcome::Misaligned,
        b.len() >= 8 && b.take(4) == magic() && (b.len() - 8) % 3 == 0 && from_le32(
            b.subrange(4, 8),
        ) > unpack_payload(b.skip(8)).len() ==> read_container(b) == ReadOutcome::Truncated,
{
    if 0 <= i < 4 && i < b.len() && b[i] != magic()[i] && b.len() >= 8 {
        assert(b.take(4)[i] == b[i]);
    }
}

/// The forward and reverse tables move in step: once the encoder has emitted
/// a code, the decoder that has read the emitted codes holds, after its own
/// reset of a full table, one entry fewer than the encoder.
pub proof fn lemma_tables_in_step(x: Seq<u8>)
    ensures
        enc_run(x).out.len() > 0 ==> (dec_run(enc_run(x).out) matches Some(dm) && eff_table(
            dm.dict,
        ).len() + 1 == enc_run(x).size),
{
    lemma_in_sync(x);
}

/// A full table is reset to the 256 single bytes before the next entry is
/// made: on the encoder's side at the next byte, on the decoder's at the next
/// code.
pub proof fn lemma_full_tables_reset(s: EncModel, b: u8, dm: DecModel, c: u16)
    ensures
        s.size == LZW_SIZE ==> enc_step(s, b).size <= 257,
        dm.dict.len() == LZW_SIZE ==> (dec_step(dm, c) matches Some(t) ==> t.dict.len() <= 257
            && t.dict.take(256) == boot_table()),
{
    if dm.dict.len() == LZW_SIZE {
        if let Some(t) = dec_step(dm, c) {
            assert(t.dict.take(256) =~= boot_table());
        }
    }
}

} // verus!
