//! The decoder: a stream of variable-width codes in, bytes out.
use vstd::prelude::*;

use crate::util::{
    BitIndex, BitSizeEnumerator, LZWDict, LZWDictEntry, bits_value, dict_wf, first_symbol,
    rev_phrase, width_for,
};
use crate::LzwError;
use crate::writer::{encode_run, encoder_start};
use crate::writer::lemma_encoder_trie_grows;

verus! {

/// Where the decoder stands between two bytes.
#[derive(Debug, Clone, Copy, PartialEq, Eq, Structural)]
pub enum LZWReaderState {
    /// No code has been read yet.
    Empty,
    /// The phrase of this entry is being handed out.
    Copy(usize),
    /// The phrase of this entry has been handed out; the next code is due.
    AwaitNew(usize),
    /// The code stream ended at a code boundary.
    Ended,
}

/// The decoder as a mathematical value.
pub struct DecoderModel {
    pub dict: Seq<LZWDictEntry>,
    pub state: LZWReaderState,
    /// Codes assigned so far, the 256 single bytes included (counting from 255).
    pub count: nat,
    /// The code stream.
    pub input: Seq<bool>,
    /// How many bits of the code stream have been read.
    pub pos: nat,
    /// The bytes of the current phrase still to hand out, last byte first.
    pub cache: Seq<u8>,
}

/// The decoder right after construction, on the code stream `input`.
pub open spec fn decoder_start(input: Seq<bool>) -> DecoderModel {
    DecoderModel {
        dict: Seq::new(256, |i: int| LZWDictEntry { symbol: i as u8, prefix: None }),
        state: LZWReaderState::Empty,
        count: 255,
        input,
        pos: 0,
        cache: seq![],
    }
}

/// Reads the next code (in state `Empty` or `AwaitNew`) and moves to
/// handing out its phrase, growing the dictionary by one entry after the
/// first code. A stream that ends exactly where the code would start ends
/// the decoding; one that ends inside the code is malformed.
pub open spec fn decode_fetch(m: DecoderModel) -> Result<DecoderModel, LzwError> {
    match width_for(m.count) {
        None => Err(LzwError::WidthScheduleExhausted),
        Some(w) => if m.pos + w > m.input.len() {
            if m.pos == m.input.len() {
                Ok(DecoderModel { state: LZWReaderState::Ended, count: m.count + 1, ..m })
            } else {
                Err(LzwError::MalformedStream)
            }
        } else {
            let code = bits_value(m.input.subrange(m.pos as int, (m.pos + w) as int));
            let m1 = DecoderModel { count: m.count + 1, pos: m.pos + w, ..m };
            match m.state {
                LZWReaderState::AwaitNew(prev) => if code <= m.dict.len() {
                    let symbol = if code == m.dict.len() {
                        first_symbol(m.dict, prev as nat)
                    } else {
                        first_symbol(m.dict, code)
                    };
                    let dict = m.dict.push(LZWDictEntry { symbol, prefix: Some(prev) });
                    Ok(
                        DecoderModel {
                            dict,
                            state: LZWReaderState::Copy(code as usize),
                            cache: rev_phrase(dict, code),
                            ..m1
                        },
                    )
                } else {
                    Err(LzwError::MalformedStream)
                },
                _ => if code < m.dict.len() {
                    Ok(
                        DecoderModel {
                            state: LZWReaderState::Copy(code as usize),
                            cache: rev_phrase(m.dict, code),
                            ..m1
                        },
                    )
                } else {
                    Err(LzwError::MalformedStream)
                },
            }
        },
    }
}

/// Hands out the next byte of the current phrase (in state `Copy`).
pub open spec fn decode_copy(m: DecoderModel) -> (DecoderModel, u8) {
    let b = m.cache.last();
    let cache = m.cache.drop_last();
    let state = match m.state {
        LZWReaderState::Copy(i) => if cache.len() == 0 {
            LZWReaderState::AwaitNew(i)
        } else {
            LZWReaderState::Copy(i)
        },
        s => s,
    };
    (DecoderModel { cache, state, ..m }, b)
}

/// Decodes up to `max` bytes: the decoder afterwards and the bytes, or the
/// error that stopped it. Fewer than `max` bytes come only at the end of the
/// stream.
pub open spec fn decode_read(m: DecoderModel, max: nat) -> Result<(DecoderModel, Seq<u8>), LzwError>
    decreases max,
{
    if max == 0 {
        Ok((m, seq![]))
    } else {
        let fetched = match m.state {
            LZWReaderState::Empty => decode_fetch(m),
            LZWReaderState::AwaitNew(_) => decode_fetch(m),
            _ => Ok(m),
        };
        match fetched {
            Err(e) => Err(e),
            Ok(m1) => if m1.state is Copy {
                let (m2, b) = decode_copy(m1);
                match decode_read(m2, (max - 1) as nat) {
                    Err(e) => Err(e),
                    Ok((m3, rest)) => Ok((m3, seq![b] + rest)),
                }
            } else {
                Ok((m1, seq![]))
            },
        }
    }
}

/// The LZW decoder. It reads the code stream given at construction and
/// hands out the decoded bytes through `read`.
pub struct LZWReader {
    input: Vec<bool>,
    pos: usize,
    dict: LZWDict,
    state: LZWReaderState,
    enumerator: BitSizeEnumerator,
    cache: Vec<u8>,
}

impl View for LZWReader {
    type V = DecoderModel;

    closed spec fn view(&self) -> DecoderModel {
        DecoderModel {
            dict: self.dict@,
            state: self.state,
            count: self.enumerator@,
            input: self.input@,
            pos: self.pos as nat,
            cache: self.cache@,
        }
    }
}

impl LZWReader {
    pub closed spec fn wf(&self) -> bool {
        &&& dict_wf(self.dict@)
        &&& self.enumerator.wf()
        &&& self.pos <= self.input@.len()
        &&& match self.state {
            LZWReaderState::Copy(i) => i < self.dict@.len() && self.cache@.len() > 0,
            LZWReaderState::AwaitNew(i) => i < self.dict@.len() && self.cache@.len() == 0,
            _ => self.cache@.len() == 0,
        }
    }

    /// A decoder for the code stream `input`.
    pub fn new(input: Vec<bool>) -> (r: Self)
        ensures
            r.wf(),
            r@ == decoder_start(input@),
    {
        let r = LZWReader {
            input,
            pos: 0,
            dict: LZWDict::new(),
            state: LZWReaderState::Empty,
            enumerator: BitSizeEnumerator::new(255),
            cache: Vec::new(),
        };
        proof {
            assert(r@.dict =~= decoder_start(input@).dict);
            assert(r@.cache =~= seq![]);
        }
        r
    }

    /// How many bits of the code stream have not been read yet.
    pub fn bits_left(&self) -> (r: usize)
        requires
            self.wf(),
        ensures
            r == self@.input.len() - self@.pos,
    {
        self.input.len() - self.pos
    }

    /// The first byte of the phrase of dictionary entry `idx`.
    pub fn find_first_symbol(&self, idx: usize) -> (r: u8)
        requires
            self.wf(),
            idx < self@.dict.len(),
        ensures
            r == first_symbol(self@.dict, idx as nat),
    {
        self.dict.first_symbol(idx)
    }

    /// Reads the next code and moves to handing out its phrase.
    fn fetch(&mut self) -> (r: Result<(), LzwError>)
        requires
            old(self).wf(),
            old(self).state is Empty || old(self).state is AwaitNew,
        ensures
            final(self).wf(),
            match decode_fetch(old(self)@) {
                Ok(m) => r is Ok && final(self)@ == m,
                Err(e) => r == Err::<(), LzwError>(e),
            },
    {
        let next_size = match self.enumerator.next() {
            Some(w) => w,
            None => {
                return Err(LzwError::WidthScheduleExhausted);
            },
        };
        let n = self.input.len();
        if next_size > n - self.pos {
            if self.pos == n {
                self.state = LZWReaderState::Ended;
                return Ok(());
            }
            return Err(LzwError::MalformedStream);
        }
        let code = match BitIndex::from_bits(&self.input, self.pos, next_size) {
            Some(c) => c,
            None => {
                return Err(LzwError::MalformedStream);
            },
        };
        self.pos = self.pos + next_size;
        let ghost code_v = code@.0;
        let dict_len = self.dict.len();
        match self.state {
            LZWReaderState::AwaitNew(prev) => {
                if code.as_u64() > dict_len as u64 {
                    return Err(LzwError::MalformedStream);
                }
                let next = code.as_usize();
                let symbol = if next == dict_len {
                    self.dict.first_symbol(prev)
                } else {
                    self.dict.first_symbol(next)
                };
                self.dict.push(LZWDictEntry { symbol, prefix: Some(prev) });
                self.dict.push_phrase_reversed(next, &mut self.cache);
                self.state = LZWReaderState::Copy(next);
                proof {
                    assert(self.cache@ =~= rev_phrase(self.dict@, code_v));
                    lemma_rev_phrase_nonempty(self.dict@, code_v);
                }
                Ok(())
            },
            _ => {
                if code.as_u64() >= dict_len as u64 {
                    return Err(LzwError::MalformedStream);
                }
                let next = code.as_usize();
                self.dict.push_phrase_reversed(next, &mut self.cache);
                self.state = LZWReaderState::Copy(next);
                proof {
                    assert(self.cache@ =~= rev_phrase(self.dict@, code_v));
                    lemma_rev_phrase_nonempty(self.dict@, code_v);
                }
                Ok(())
            },
        }
    }

    /// Decodes up to `max` bytes. Fewer come only where the code stream
    /// ends; once it has ended, every call yields no bytes.
    pub fn read(&mut self, max: usize) -> (r: Result<Vec<u8>, LzwError>)
        requires
            old(self).wf(),
        ensures
            final(self).wf(),
            match decode_read(old(self)@, max as nat) {
                Ok((m, bytes)) => r is Ok && r->Ok_0@ == bytes && final(self)@ == m,
                Err(e) => r == Err::<Vec<u8>, LzwError>(e),
            },
    {
        let mut out: Vec<u8> = Vec::new();
        let mut counter: usize = 0;
        while counter < max
            invariant
                self.wf(),
                counter <= max,
                out@.len() == counter,
                decode_read(old(self)@, max as nat) == match decode_read(self@, (max - counter) as nat) {
                    Ok((m, rest)) => Ok((m, out@ + rest)),
                    Err(e) => Err(e),
                },
            ensures
                decode_read(self@, (max - counter) as nat) == Ok::<(DecoderModel, Seq<u8>), LzwError>((self@, seq![])),
            decreases 3 * (max - counter) + match self.state {
                LZWReaderState::Empty => 1int,
                LZWReaderState::AwaitNew(_) => 1int,
                _ => 0int,
            },
        {
            match self.state {
                LZWReaderState::Ended => {
                    proof {
                        assert(decode_read(self@, (max - counter) as nat) == Ok::<(DecoderModel, Seq<u8>), LzwError>((self@, seq![])));
                    }
                    break;
                },
                LZWReaderState::Copy(idx) => {
                    let ghost before = self@;
                    let ghost k = (max - counter) as nat;
                    let ghost out0 = out@;
                    let b = self.cache.pop().unwrap();
                    out.push(b);
                    counter = counter + 1;
                    if self.cache.len() == 0 {
                        self.state = LZWReaderState::AwaitNew(idx);
                    }
                    proof {
                        assert(self@ == decode_copy(before).0);
                        assert(b == decode_copy(before).1);
                        assert(decode_read(before, k) == match decode_read(self@, (k - 1) as nat) {
                            Ok((m, rest)) => Ok((m, seq![b] + rest)),
                            Err(e) => Err::<(DecoderModel, Seq<u8>), LzwError>(e),
                        });
                        assert(out@ =~= out0 + seq![b]);
                        match decode_read(self@, (k - 1) as nat) {
                            Ok((m, rest)) => {
                                assert(out0 + (seq![b] + rest) =~= out@ + rest);
                                assert(decode_read(old(self)@, max as nat) == Ok::<(DecoderModel, Seq<u8>), LzwError>((m, out@ + rest)));
                            },
                            Err(e) => {
                                assert(decode_read(old(self)@, max as nat) == Err::<(DecoderModel, Seq<u8>), LzwError>(e));
                            },
                        }
                    }
                },
                _ => {
                    let ghost before = self@;
                    let ghost k = (max - counter) as nat;
                    let res = self.fetch();
                    if let Err(e) = res {
                        proof {
                            assert(decode_read(before, k) == Err::<(DecoderModel, Seq<u8>), LzwError>(e));
                        }
                        return Err(e);
                    }
                    proof {
                        assert(self@.state is Copy || self@.state is Ended);
                        assert(decode_read(before, k) == decode_read(self@, k));
                    }
                },
            }
        }
        proof {
            assert(out@ + seq![] =~= out@);
        }
        Ok(out)
    }
}

/// Every entry of the dictionary stands for at least one byte.
proof fn lemma_rev_phrase_nonempty(d: Seq<LZWDictEntry>, i: nat)
    requires
        i < d.len(),
    ensures
        rev_phrase(d, i).len() > 0,
{
}

/// Reading `x` bytes and then `y` bytes yields what reading `x + y` bytes at
/// once does, and leaves the decoder in the same state.
pub proof fn lemma_decode_chunking(m: DecoderModel, x: nat, y: nat)
    ensures
        decode_read(m, x + y) == match decode_read(m, x) {
            Ok((m1, s1)) => match decode_read(m1, y) {
                Ok((m2, s2)) => Ok((m2, s1 + s2)),
                Err(e) => Err(e),
            },
            Err(e) => Err::<(DecoderModel, Seq<u8>), LzwError>(e),
        },
    decreases x,
{
    if x == 0 {
        match decode_read(m, y) {
            Ok((m2, s2)) => {
                assert(seq![] + s2 =~= s2);
            },
            Err(e) => {},
        }
    } else {
        let fetched = match m.state {
            LZWReaderState::Empty => decode_fetch(m),
            LZWReaderState::AwaitNew(_) => decode_fetch(m),
            _ => Ok(m),
        };
        match fetched {
            Err(e) => {},
            Ok(m1) => {
                if m1.state is Copy {
                    let (m2, b) = decode_copy(m1);
                    lemma_decode_chunking(m2, (x - 1) as nat, y);
                    assert((x + y - 1) as nat == (x - 1) as nat + y);
                    match decode_read(m2, (x - 1) as nat) {
                        Ok((m3, s1)) => match decode_read(m3, y) {
                            Ok((m4, s2)) => {
                                assert(seq![b] + (s1 + s2) =~= (seq![b] + s1) + s2);
                            },
                            Err(e) => {},
                        },
                        Err(e) => {},
                    }
                } else {
                    assert(m1.state is Ended);
                    if y > 0 {
                        assert(decode_read(m1, y) == Ok::<(DecoderModel, Seq<u8>), LzwError>((m1, seq![])));
                    }
                    assert(seq![] + seq![] =~= Seq::<u8>::empty());
                }
            },
        }
    }
}

/// A code stream that stops exactly where a code would begin ends the
/// decoding cleanly; one that stops inside a code is rejected as malformed.
pub proof fn lemma_truncation_detected(m: DecoderModel)
    requires
        m.state is Empty || m.state is AwaitNew,
        m.count >= 1,
        width_for(m.count) is Some,
        m.pos <= m.input.len(),
    ensures
        m.pos == m.input.len() ==> decode_fetch(m) is Ok && decode_fetch(m)->Ok_0.state is Ended,
        m.pos < m.input.len() < m.pos + width_for(m.count)->0 ==> decode_fetch(m) == Err::<
            DecoderModel,
            LzwError,
        >(LzwError::MalformedStream),
{
    crate::util::lemma_width_positive(m.count);
}

/// The dictionary size the decoder keeps relative to its count of codes.
pub open spec fn dict_in_step(m: DecoderModel) -> bool {
    match m.state {
        LZWReaderState::Empty => m.dict.len() == m.count + 1,
        LZWReaderState::Ended => true,
        _ => m.dict.len() == m.count,
    }
}

proof fn lemma_decode_read_dict_size(m: DecoderModel, n: nat)
    requires
        dict_in_step(m),
    ensures
        decode_read(m, n) is Ok ==> dict_in_step(decode_read(m, n)->Ok_0.0),
    decreases n,
{
    if n > 0 {
        let fetched = match m.state {
            LZWReaderState::Empty => decode_fetch(m),
            LZWReaderState::AwaitNew(_) => decode_fetch(m),
            _ => Ok(m),
        };
        if let Ok(m1) = fetched {
            if m1.state is Copy {
                let (m2, b) = decode_copy(m1);
                lemma_decode_read_dict_size(m2, (n - 1) as nat);
            }
        }
    }
}

/// Encoder and decoder number their phrases alike: each code the encoder
/// emits adds one trie node to the 256 it started with, and each code the
/// decoder reads after the first adds one dictionary entry, so after `k + 1`
/// codes the decoder knows as many phrases as the encoder after `k`.
pub proof fn lemma_trie_dictionary_parity(bs: Seq<u8>, input: Seq<bool>, n: nat)
    ensures
        encode_run(encoder_start(), bs) is Some ==> {
            let e = encode_run(encoder_start(), bs)->0;
            e.trie.len() == 256 + (e.count - 255)
        },
        decode_read(decoder_start(input), n) is Ok ==> {
            let d = decode_read(decoder_start(input), n)->Ok_0.0;
            (d.state is Copy || d.state is AwaitNew) ==> d.dict.len() + 1 == 256 + (d.count - 255)
        },
{
    lemma_encoder_trie_grows(bs);
    lemma_decode_read_dict_size(decoder_start(input), n);
}

} // verus!
