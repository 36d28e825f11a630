use crate::error::LzwError;
use crate::stream::{LzwStream, LZW_SIZE};
use vstd::prelude::*;

verus! {

/// The decoder's state as mathematical values.
pub struct DecModel {
    /// The reverse table: entry `i` is the byte sequence of code `i`.
    pub dict: Seq<Seq<u8>>,
    /// The sequence that the previous code decoded to.
    pub prev: Seq<u8>,
    /// Bytes decoded so far.
    pub out: Seq<u8>,
}

/// The 256 single-byte entries that every table starts with.
pub open spec fn boot_table() -> Seq<Seq<u8>> {
    Seq::new(256, |i: int| seq![i as u8])
}

/// The state before any code: the bootstrap table, nothing decoded.
pub open spec fn dec_init() -> DecModel {
    DecModel { dict: boot_table(), prev: Seq::empty(), out: Seq::empty() }
}

/// One code: reset a full table, then decode the code. A code equal to the
/// table size names the entry that the encoder made from the previous
/// sequence and its own first byte; any other code must already be in the
/// table, and extends the previous sequence by its first byte as a new entry.
/// `None` where the code names no entry.
pub open spec fn dec_step(s: DecModel, code: u16) -> Option<DecModel> {
    let d = if s.dict.len() == LZW_SIZE { boot_table() } else { s.dict };
    if code == d.len() {
        if s.prev.len() == 0 {
            None
        } else {
            let w = s.prev.push(s.prev[0]);
            Some(DecModel { dict: d.push(w), prev: w, out: s.out + w })
        }
    } else if code > d.len() {
        None
    } else {
        let w = d[code as int];
        let d2 = if s.prev.len() > 0 { d.push(s.prev.push(w[0])) } else { d };
        Some(DecModel { dict: d2, prev: w, out: s.out + w })
    }
}

/// The state after the codes `codes`, or `None` where one names no entry.
pub open spec fn dec_run(codes: Seq<u16>) -> Option<DecModel>
    decreases codes.len(),
{
    if codes.len() == 0 {
        Some(dec_init())
    } else {
        match dec_run(codes.drop_last()) {
            None => None,
            Some(s) => dec_step(s, codes.last()),
        }
    }
}

/// The bytes that `codes` decode to, or `None` where one names no entry.
pub open spec fn decode_codes(codes: Seq<u16>) -> Option<Seq<u8>> {
    match dec_run(codes) {
        Some(s) => Some(s.out),
        None => None,
    }
}

/// The bounds that every reachable decoder state keeps.
pub open spec fn dec_wf(s: DecModel) -> bool {
    &&& 256 <= s.dict.len() <= LZW_SIZE
    &&& forall|i: int| 0 <= i < s.dict.len() ==> (#[trigger] s.dict[i]).len() > 0
}

proof fn lemma_boot_wf()
    ensures
        dec_wf(dec_init()),
{
    assert forall|i: int| 0 <= i < boot_table().len() implies (#[trigger] boot_table()[i]).len() > 0 by {
        assert(boot_table()[i] == seq![i as u8]);
    }
}

proof fn lemma_dec_step_wf(s: DecModel, code: u16)
    requires
        dec_wf(s),
    ensures
        dec_step(s, code) matches Some(t) ==> dec_wf(t),
{
    lemma_boot_wf();
    let d = if s.dict.len() == LZW_SIZE { boot_table() } else { s.dict };
    if let Some(t) = dec_step(s, code) {
        assert forall|i: int| 0 <= i < t.dict.len() implies (#[trigger] t.dict[i]).len() > 0 by {
            if i < d.len() {
                assert(t.dict[i] == d[i]);
            }
        }
    }
}

/// A decoder that takes its codes one at a time.
pub struct Decoder {
    dict: Vec<Vec<u8>>,
    prev: Vec<u8>,
    out: Vec<u8>,
}

/// A fresh reverse table: the 256 single bytes.
fn create_table() -> (r: Vec<Vec<u8>>)
    ensures
        r@.map_values(|v: Vec<u8>| v@) == boot_table(),
{
    let mut t: Vec<Vec<u8>> = Vec::new();
    let mut b: usize = 0;
    while b < 256
        invariant
            b <= 256,
            t@.len() == b,
            forall|i: int| 0 <= i < b ==> (#[trigger] t@[i])@ == seq![i as u8],
        decreases 256 - b,
    {
        let v: Vec<u8> = vec![b as u8];
        t.push(v);
        b = b + 1;
    }
    assert(t@.map_values(|v: Vec<u8>| v@) =~= boot_table());
    t
}

/// A copy of `v`.
fn copy_bytes(v: &Vec<u8>) -> (r: Vec<u8>)
    ensures
        r@ == v@,
{
    let mut r: Vec<u8> = Vec::with_capacity(v.len());
    let mut i: usize = 0;
    while i < v.len()
        invariant
            i <= v@.len(),
            r@ == v@.take(i as int),
        decreases v@.len() - i,
    {
        r.push(v[i]);
        i = i + 1;
        assert(r@ =~= v@.take(i as int));
    }
    assert(v@.take(i as int) =~= v@);
    r
}

impl Decoder {
    /// The state as mathematical values.
    pub closed spec fn model(&self) -> DecModel {
        DecModel {
            dict: self.dict@.map_values(|v: Vec<u8>| v@),
            prev: self.prev@,
            out: self.out@,
        }
    }

    /// The state is one that the decoder can reach.
    #[verifier::type_invariant]
    spec fn wf(&self) -> bool {
        dec_wf(self.model())
    }

    /// A decoder that has read nothing.
    pub fn new() -> (r: Decoder)
        ensures
            r.model() == dec_init(),
    {
        proof {
            lemma_boot_wf();
        }
        let dict = create_table();
        let prev: Vec<u8> = Vec::new();
        let out: Vec<u8> = Vec::new();
        assert(prev@ =~= Seq::<u8>::empty());
        assert(out@ =~= Seq::<u8>::empty());
        Decoder { dict, prev, out }
    }

    /// Reads one code; fails with `ErrInvalidLzw` where it names no entry.
    pub fn push_code(&mut self, code: u16) -> (r: Result<(), LzwError>)
        ensures
            match dec_step(old(self).model(), code) {
                None => r matches Err(LzwError::ErrInvalidLzw),
                Some(t) => r is Ok && final(self).model() == t,
            },
    {
        proof {
            use_type_invariant(&*self);
            lemma_dec_step_wf(self.model(), code);
            lemma_boot_wf();
        }
        let ghost s = self.model();
        let mut st = Decoder::new();
        std::mem::swap(&mut st, self);
        proof {
            use_type_invariant(&st);
        }
        let Decoder { mut dict, mut prev, mut out } = st;
        if dict.len() == LZW_SIZE {
            dict = create_table();
        }
        let ghost d = dict@.map_values(|v: Vec<u8>| v@);
        assert(d == (if s.dict.len() == LZW_SIZE { boot_table() } else { s.dict }));
        let n = dict.len();
        let c = code as usize;
        if c == n {
            if prev.len() == 0 {
                *self = Decoder { dict, prev, out };
                return Err(LzwError::ErrInvalidLzw);
            }
            let first = prev[0];
            prev.push(first);
            let w = copy_bytes(&prev);
            dict.push(w);
            assert(dict@.map_values(|v: Vec<u8>| v@) =~= d.push(s.prev.push(s.prev[0])));
        } else if c > n {
            *self = Decoder { dict, prev, out };
            return Err(LzwError::ErrInvalidLzw);
        } else {
            assert(dict@[c as int]@ == d[c as int]);
            let first = dict[c][0];
            if prev.len() > 0 {
                prev.push(first);
                let e = copy_bytes(&prev);
                dict.push(e);
                assert(dict@.map_values(|v: Vec<u8>| v@) =~= d.push(s.prev.push(d[c as int][0])));
            }
            assert(dict@[c as int]@ == d[c as int]);
            prev = copy_bytes(&dict[c]);
        }
        let mut k: usize = 0;
        let ghost out0 = out@;
        while k < prev.len()
            invariant
                k <= prev@.len(),
                out@ == out0 + prev@.take(k as int),
            decreases prev@.len() - k,
        {
            out.push(prev[k]);
            k = k + 1;
            assert(out@ =~= out0 + prev@.take(k as int));
        }
        assert(prev@.take(k as int) =~= prev@);
        *self = Decoder { dict, prev, out };
        Ok(())
    }

    /// Number of bytes decoded so far.
    pub fn produced(&self) -> (r: usize)
        ensures
            r == self.model().out.len(),
    {
        self.out.len()
    }

    /// The bytes decoded so far.
    pub fn finish(self) -> (r: Vec<u8>)
        ensures
            r@ == self.model().out,
    {
        self.out
    }
}

/// Decodes the codes of a stream, the padding left out. A size past the
/// stored codes is refused as `ErrDecompress`.
pub fn decode_from_lzwstream(src: &LzwStream) -> (r: Result<Vec<u8>, LzwError>)
    ensures
        src.size > src.data@.len() ==> r matches Err(LzwError::ErrDecompress(_)),
        src.size <= src.data@.len() ==> match decode_codes(src.symbols()) {
            None => r matches Err(LzwError::ErrInvalidLzw),
            Some(bytes) => r matches Ok(v) && v@ == bytes,
        },
{
    if src.size > src.data.len() {
        return Err(LzwError::ErrDecompress("Invalid bitstream".to_owned()));
    }
    let mut dec = Decoder::new();
    let mut i: usize = 0;
    while i < src.size
        invariant
            i <= src.size <= src.data@.len(),
            dec_run(src.data@.take(i as int)) == Some(dec.model()),
        decreases src.size - i,
    {
        assert(src.data@.take(i + 1).drop_last() =~= src.data@.take(i as int));
        match dec.push_code(src.data[i]) {
            Ok(()) => {},
            Err(e) => {
                proof {
                    assert(src.data@.take(i + 1) =~= src.symbols().take(i + 1));
                    lemma_dec_run_none_extends(src.data@.take(i + 1), src.symbols());
                }
                return Err(e);
            },
        }
        i = i + 1;
    }
    Ok(dec.finish())
}

/// Once a prefix of the codes names no entry, the whole does not decode.
proof fn lemma_dec_run_none_extends(a: Seq<u16>, b: Seq<u16>)
    requires
        a.len() <= b.len(),
        a == b.take(a.len() as int),
        dec_run(a) is None,
    ensures
        dec_run(b) is None,
    decreases b.len() - a.len(),
{
    if b.len() > a.len() {
        assert(b.drop_last().take(a.len() as int) =~= a);
        lemma_dec_run_none_extends(a, b.drop_last());
    } else {
        assert(a =~= b);
    }
}

} // verus!
