use crate::stream::{all_codes, LzwStream, LZW_SIZE};
use std::collections::HashMap;
use vstd::prelude::*;

verus! {

broadcast use vstd::std_specs::hash::group_hash_axioms;

/// The encoder's state as mathematical values. The forward table maps each
/// sequence to a code; a sequence of one byte `b` has code `b`, and every
/// longer one is an earlier entry `c` extended by one byte `b`, found under
/// `link_key(c, b)` in `links`.
pub struct EncModel {
    /// Extensions: `link_key(c, b)` to the code of the entry `c` followed by `b`.
    pub links: Map<u32, u16>,
    /// Number of table entries, the 256 single bytes included.
    pub size: nat,
    /// Code of the sequence matched so far, if any byte was read.
    pub cur: Option<u16>,
    /// Codes emitted so far.
    pub out: Seq<u16>,
}

/// Where the extension of entry `c` by byte `b` is looked up.
pub open spec fn link_key(c: u16, b: u8) -> u32 {
    (c * 256 + b) as u32
}

/// The state before any input: the 256 single bytes, nothing matched.
pub open spec fn enc_init() -> EncModel {
    EncModel { links: Map::empty(), size: 256, cur: None, out: Seq::empty() }
}

/// One input byte: reset a full table, then extend the match by `b`, or emit
/// the match, enter its extension as the next code and start again from `b`.
pub open spec fn enc_step(s: EncModel, b: u8) -> EncModel {
    let links = if s.size == LZW_SIZE { Map::empty() } else { s.links };
    let size = if s.size == LZW_SIZE { 256 } else { s.size };
    match s.cur {
        None => EncModel { links, size, cur: Some(b as u16), out: s.out },
        Some(c) => if links.contains_key(link_key(c, b)) {
            EncModel { links, size, cur: Some(links[link_key(c, b)]), out: s.out }
        } else {
            EncModel {
                links: links.insert(link_key(c, b), size as u16),
                size: size + 1,
                cur: Some(b as u16),
                out: s.out.push(c),
            }
        },
    }
}

/// The state after reading `input`.
pub open spec fn enc_run(input: Seq<u8>) -> EncModel
    decreases input.len(),
{
    if input.len() == 0 {
        enc_init()
    } else {
        enc_step(enc_run(input.drop_last()), input.last())
    }
}

/// The codes emitted once the input ends: the pending match is emitted too.
pub open spec fn finish_codes(s: EncModel) -> Seq<u16> {
    match s.cur {
        Some(c) => s.out.push(c),
        None => s.out,
    }
}

/// The codes that `input` encodes to.
pub open spec fn encode_codes(input: Seq<u8>) -> Seq<u16> {
    finish_codes(enc_run(input))
}

/// The codes padded with a zero to an even count.
pub open spec fn padded(c: Seq<u16>) -> Seq<u16> {
    if c.len() % 2 == 1 {
        c.push(0)
    } else {
        c
    }
}

/// The bounds that every reachable encoder state keeps.
pub open spec fn enc_wf(s: EncModel) -> bool {
    &&& 256 <= s.size <= LZW_SIZE
    &&& forall|k: u32| #[trigger] s.links.contains_key(k) ==> 256 <= s.links[k] < s.size
    &&& s.cur matches Some(c) ==> c < s.size
    &&& s.size == LZW_SIZE ==> (s.cur matches Some(c) ==> c < 256)
    &&& all_codes(s.out)
}

proof fn lemma_enc_step_wf(s: EncModel, b: u8)
    requires
        enc_wf(s),
    ensures
        enc_wf(enc_step(s, b)),
{
    let t = enc_step(s, b);
    assert forall|i: int| 0 <= i < t.out.len() implies #[trigger] t.out[i] < LZW_SIZE by {
        if i < s.out.len() {
            assert(t.out[i] == s.out[i]);
        }
    }
}

/// Every state that the encoder reaches keeps the bounds.
pub proof fn lemma_enc_run_wf(input: Seq<u8>)
    ensures
        enc_wf(enc_run(input)),
    decreases input.len(),
{
    if input.len() > 0 {
        lemma_enc_run_wf(input.drop_last());
        lemma_enc_step_wf(enc_run(input.drop_last()), input.last());
    }
}

/// Every code that the encoder emits is a 12-bit code.
pub proof fn lemma_encode_codes_bounded(input: Seq<u8>)
    ensures
        all_codes(encode_codes(input)),
{
    lemma_enc_run_wf(input);
    let s = enc_run(input);
    let c = encode_codes(input);
    assert forall|i: int| 0 <= i < c.len() implies #[trigger] c[i] < LZW_SIZE by {
        if i < s.out.len() {
            assert(c[i] == s.out[i]);
        }
    }
}

proof fn lemma_enc_run_len(x: Seq<u8>)
    ensures
        x.len() == 0 ==> enc_run(x).cur is None && enc_run(x).out.len() == 0,
        x.len() > 0 ==> enc_run(x).cur is Some && enc_run(x).out.len() < x.len(),
    decreases x.len(),
{
    if x.len() > 0 {
        lemma_enc_run_len(x.drop_last());
    }
}

/// There are never more codes than input bytes.
pub proof fn lemma_codes_len(x: Seq<u8>)
    ensures
        encode_codes(x).len() <= x.len(),
{
    lemma_enc_run_len(x);
}

/// An encoder that takes its input one byte at a time.
pub struct Encoder {
    links: HashMap<u32, u16>,
    size: u16,
    cur: Option<u16>,
    out: Vec<u16>,
}

impl Encoder {
    /// The state as mathematical values.
    pub closed spec fn model(&self) -> EncModel {
        EncModel { links: self.links@, size: self.size as nat, cur: self.cur, out: self.out@ }
    }

    /// The state is one that the encoder can reach.
    #[verifier::type_invariant]
    spec fn wf(&self) -> bool {
        enc_wf(self.model())
    }

    /// An encoder that has read nothing.
    pub fn new() -> (r: Encoder)
        ensures
            r.model() == enc_init(),
    {
        let links: HashMap<u32, u16> = HashMap::new();
        assert(links@ =~= Map::empty());
        Encoder { links, size: 256, cur: None, out: Vec::new() }
    }

    /// Reads one byte.
    pub fn push_byte(&mut self, b: u8)
        ensures
            final(self).model() == enc_step(old(self).model(), b),
    {
        proof {
            use_type_invariant(&*self);
            lemma_enc_step_wf(self.model(), b);
        }
        let mut st = Encoder::new();
        std::mem::swap(&mut st, self);
        proof {
            use_type_invariant(&st);
        }
        let Encoder { mut links, mut size, mut cur, mut out } = st;
        if size as usize == LZW_SIZE {
            links = HashMap::new();
            size = 256;
            assert(links@ =~= Map::empty());
        }
        match cur {
            None => {
                cur = Some(b as u16);
            },
            Some(c) => {
                let key: u32 = c as u32 * 256 + b as u32;
                match links.get(&key) {
                    Some(code) => {
                        cur = Some(*code);
                    },
                    None => {
                        links.insert(key, size);
                        size = size + 1;
                        out.push(c);
                        cur = Some(b as u16);
                    },
                }
            },
        }
        *self = Encoder { links, size, cur, out };
    }

    /// Number of codes emitted so far.
    pub fn emitted(&self) -> (r: usize)
        ensures
            r == self.model().out.len(),
    {
        self.out.len()
    }

    /// Ends the input: emits the pending match and pads to an even count.
    pub fn finish(self) -> (r: LzwStream)
        ensures
            r.data@ == padded(finish_codes(self.model())),
            r.size == finish_codes(self.model()).len(),
            all_codes(r.data@),
    {
        proof {
            use_type_invariant(&self);
        }
        let mut data = self.out;
        match self.cur {
            Some(c) => {
                data.push(c);
            },
            None => {},
        }
        let size = data.len();
        assert(data@ == finish_codes(self.model()));
        assert(all_codes(data@)) by {
            assert forall|i: int| 0 <= i < data@.len() implies #[trigger] data@[i] < LZW_SIZE by {
                if i < self.out@.len() {
                    assert(data@[i] == self.out@[i]);
                }
            }
        }
        if size % 2 != 0 {
            data.push(0);
            assert forall|i: int| 0 <= i < data@.len() implies #[trigger] data@[i] < LZW_SIZE by {
                if i < size {
                    assert(data@[i] == data@.drop_last()[i]);
                }
            }
        }
        LzwStream { data, size }
    }
}

/// Encodes `src` into a symbol stream.
pub fn encode_to_lzwstream(src: &[u8]) -> (r: LzwStream)
    ensures
        r.data@ == padded(encode_codes(src@)),
        r.size == encode_codes(src@).len(),
        all_codes(r.data@),
{
    let mut enc = Encoder::new();
    let mut i: usize = 0;
    while i < src.len()
        invariant
            i <= src@.len(),
            enc.model() == enc_run(src@.take(i as int)),
        decreases src@.len() - i,
    {
        assert(src@.take(i + 1).drop_last() =~= src@.take(i as int));
        enc.push_byte(src[i]);
        i = i + 1;
    }
    assert(src@.take(i as int) =~= src@);
    enc.finish()
}

} // verus!
