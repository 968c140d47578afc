//! The encoder: bytes in, a stream of variable-width codes out.
use vstd::prelude::*;

use crate::util::{BitIndex, BitSizeEnumerator, LZWSearchTreeNode, to_bits, width_for};
use crate::LzwError;

verus! {

/// What the encoder holds between two bytes.
#[derive(Debug, Clone, Copy, PartialEq, Eq, Structural)]
pub enum LZWWriterState {
    /// No byte has been seen yet.
    Empty,
    /// The bytes seen since the last emitted code form the phrase of this
    /// trie node.
    Found(usize),
}

/// The encoder as a mathematical value.
pub struct EncoderModel {
    /// For each trie node, its 256 child links.
    pub trie: Seq<Seq<Option<usize>>>,
    /// The node of the phrase being matched, if any.
    pub cur: Option<nat>,
    /// Codes assigned so far, the 256 single bytes included (counting from 255).
    pub count: nat,
    /// Bits produced and not yet taken.
    pub out: Seq<bool>,
}

/// The child links of a new trie node.
pub open spec fn empty_node() -> Seq<Option<usize>> {
    Seq::new(256, |b: int| None::<usize>)
}

/// The encoder right after construction.
pub open spec fn encoder_start() -> EncoderModel {
    EncoderModel { trie: Seq::new(256, |i: int| empty_node()), cur: None, count: 255, out: seq![] }
}

/// Feeds one byte to the encoder; `None` when a code would be due but the
/// width schedule is exhausted.
pub open spec fn encode_byte(m: EncoderModel, b: u8) -> Option<EncoderModel> {
    match m.cur {
        None => Some(EncoderModel { cur: Some(b as nat), ..m }),
        Some(n) => match m.trie[n as int][b as int] {
            Some(x) => Some(EncoderModel { cur: Some(x as nat), ..m }),
            None => match width_for(m.count) {
                Some(w) => Some(
                    EncoderModel {
                        trie: m.trie.update(
                            n as int,
                            m.trie[n as int].update(b as int, Some(m.trie.len() as usize)),
                        ).push(empty_node()),
                        cur: Some(b as nat),
                        count: m.count + 1,
                        out: m.out + to_bits(n, w),
                    },
                ),
                None => None,
            },
        },
    }
}

/// Feeds the bytes `bs` to the encoder, one after the other.
pub open spec fn encode_run(m: EncoderModel, bs: Seq<u8>) -> Option<EncoderModel>
    decreases bs.len(),
{
    if bs.len() == 0 {
        Some(m)
    } else {
        match encode_run(m, bs.drop_last()) {
            Some(m2) => encode_byte(m2, bs.last()),
            None => None,
        }
    }
}

/// Ends the stream: the pending phrase, if any, becomes one last code.
/// `None` when that code is due but the width schedule is exhausted.
pub open spec fn encode_finish(m: EncoderModel) -> Option<Seq<bool>> {
    match m.cur {
        None => Some(m.out),
        Some(n) => match width_for(m.count) {
            Some(w) => Some(m.out + to_bits(n, w)),
            None => None,
        },
    }
}

/// The LZW encoder. Bytes go in through `write`; the code stream comes out
/// as bits, most significant bit of each code first, through `take_bits`
/// and `finish`.
pub struct LZWWriter {
    lookup: Vec<LZWSearchTreeNode>,
    state: LZWWriterState,
    enumerator: BitSizeEnumerator,
    out: Vec<bool>,
}

impl View for LZWWriter {
    type V = EncoderModel;

    closed spec fn view(&self) -> EncoderModel {
        EncoderModel {
            trie: Seq::new(self.lookup@.len(), |i: int| self.lookup@[i].children@),
            cur: match self.state {
                LZWWriterState::Empty => None,
                LZWWriterState::Found(n) => Some(n as nat),
            },
            count: self.enumerator@,
            out: self.out@,
        }
    }
}

impl LZWWriter {
    pub closed spec fn wf(&self) -> bool {
        &&& self.enumerator.wf()
        &&& self.lookup@.len() == self.enumerator@ + 1
        &&& self.lookup@.len() >= 256
        &&& forall|i: int|
            0 <= i < self.lookup@.len() ==> (#[trigger] self.lookup@[i]).children@.len() == 256
        &&& forall|i: int, b: int|
            0 <= i < self.lookup@.len() && 0 <= b < 256 && (
            #[trigger] self.lookup@[i].children@[b]) is Some ==> self.lookup@[i].children@[b]->0
                < self.lookup@.len()
        &&& match self.state {
            LZWWriterState::Empty => true,
            LZWWriterState::Found(n) => n < self.lookup@.len(),
        }
    }

    pub fn new() -> (r: Self)
        ensures
            r.wf(),
            r@ == encoder_start(),
    {
        let mut v: Vec<LZWSearchTreeNode> = Vec::with_capacity(256);
        let mut i: usize = 0;
        while i < 256
            invariant
                i <= 256,
                v@.len() == i,
                forall|j: int| 0 <= j < i ==> (#[trigger] v@[j]).children@ == empty_node(),
            decreases 256 - i,
        {
            let node = LZWSearchTreeNode::new();
            proof {
                assert(node.children@ =~= empty_node());
            }
            v.push(node);
            i = i + 1;
        }
        let r = LZWWriter {
            lookup: v,
            state: LZWWriterState::Empty,
            enumerator: BitSizeEnumerator::new(255),
            out: Vec::new(),
        };
        proof {
            assert(r@.trie =~= encoder_start().trie);
            assert(r@.out =~= encoder_start().out);
        }
        r
    }

    /// Feeds one byte.
    fn write_byte(&mut self, byte: u8) -> (r: Result<(), LzwError>)
        requires
            old(self).wf(),
        ensures
            final(self).wf(),
            match encode_byte(old(self)@, byte) {
                Some(m) => r is Ok && final(self)@ == m,
                None => r == Err::<(), LzwError>(LzwError::WidthScheduleExhausted),
            },
    {
        match self.state {
            LZWWriterState::Empty => {
                self.state = LZWWriterState::Found(byte as usize);
                proof {
                    assert(self@.trie =~= old(self)@.trie);
                }
                Ok(())
            },
            LZWWriterState::Found(idx) => {
                match self.lookup[idx].children[byte as usize] {
                    Some(x) => {
                        self.state = LZWWriterState::Found(x);
                        proof {
                            assert(self@.trie =~= old(self)@.trie);
                        }
                        Ok(())
                    },
                    None => {
                        let next_size = match self.enumerator.next() {
                            Some(w) => w,
                            None => {
                                return Err(LzwError::WidthScheduleExhausted);
                            },
                        };
                        let output = BitIndex::new(idx, next_size);
                        let mut bits = output.bits();
                        let len = self.lookup.len();
                        self.lookup[idx].children[byte as usize] = Some(len);
                        self.lookup.push(LZWSearchTreeNode::new());
                        self.out.append(&mut bits);
                        self.state = LZWWriterState::Found(byte as usize);
                        proof {
                            let m = encode_byte(old(self)@, byte)->0;
                            assert(self.lookup@.last().children@ =~= empty_node());
                            assert(self@.trie =~= m.trie);
                        }
                        Ok(())
                    },
                }
            },
        }
    }

    /// Feeds the bytes of `buf`, returning how many were consumed (all of
    /// them), or the error that stopped the encoder.
    pub fn write(&mut self, buf: &[u8]) -> (r: Result<usize, LzwError>)
        requires
            old(self).wf(),
        ensures
            final(self).wf(),
            match encode_run(old(self)@, buf@) {
                Some(m) => r == Ok::<usize, LzwError>(buf@.len() as usize) && final(self)@ == m,
                None => r == Err::<usize, LzwError>(LzwError::WidthScheduleExhausted),
            },
    {
        let mut i: usize = 0;
        while i < buf.len()
            invariant
                self.wf(),
                i <= buf@.len(),
                encode_run(old(self)@, buf@.take(i as int)) == Some(self@),
            decreases buf@.len() - i,
        {
            proof {
                assert(buf@.take(i as int + 1).drop_last() =~= buf@.take(i as int));
                assert(buf@.take(i as int + 1).last() == buf@[i as int]);
            }
            let res = self.write_byte(buf[i]);
            if res.is_err() {
                proof {
                    lemma_encode_run_stays_failed(old(self)@, buf@, i as nat + 1);
                }
                return Err(LzwError::WidthScheduleExhausted);
            }
            i = i + 1;
        }
        proof {
            assert(buf@.take(i as int) =~= buf@);
        }
        Ok(buf.len())
    }

    /// Hands out the bits produced so far and forgets them.
    pub fn take_bits(&mut self) -> (r: Vec<bool>)
        requires
            old(self).wf(),
        ensures
            final(self).wf(),
            r@ == old(self)@.out,
            final(self)@ == (EncoderModel { out: seq![], ..old(self)@ }),
    {
        let mut r: Vec<bool> = Vec::new();
        std::mem::swap(&mut r, &mut self.out);
        proof {
            assert(self@.trie =~= old(self)@.trie);
            assert(self@.out =~= seq![]);
        }
        r
    }

    /// Ends the stream and hands out the bits not yet taken, the code of the
    /// pending phrase included.
    pub fn finish(self) -> (r: Result<Vec<bool>, LzwError>)
        requires
            self.wf(),
        ensures
            match encode_finish(self@) {
                Some(bits) => r is Ok && r->Ok_0@ == bits,
                None => r == Err::<Vec<bool>, LzwError>(LzwError::WidthScheduleExhausted),
            },
    {
        let mut this = self;
        if let LZWWriterState::Found(idx) = this.state {
            let next_size = match this.enumerator.next() {
                Some(x) => x,
                None => {
                    return Err(LzwError::WidthScheduleExhausted);
                },
            };
            let output = BitIndex::new(idx, next_size);
            let mut bits = output.bits();
            this.out.append(&mut bits);
        }
        Ok(this.out)
    }
}

/// Once a run of bytes has hit the end of the width schedule, no longer run
/// that starts with it gets through.
proof fn lemma_encode_run_stays_failed(m: EncoderModel, bs: Seq<u8>, i: nat)
    requires
        i <= bs.len(),
        encode_run(m, bs.take(i as int)) is None,
    ensures
        encode_run(m, bs) is None,
    decreases bs.len() - i,
{
    if i < bs.len() {
        assert(bs.take(i as int + 1).drop_last() =~= bs.take(i as int));
        lemma_encode_run_stays_failed(m, bs, i + 1);
    } else {
        assert(bs.take(i as int) =~= bs);
    }
}

/// Feeding `a` and then `b` leaves the encoder as feeding `a + b` does, so
/// the code stream does not depend on how the input is cut into writes.
pub proof fn lemma_encode_chunking(m: EncoderModel, a: Seq<u8>, b: Seq<u8>)
    ensures
        encode_run(m, a + b) == match encode_run(m, a) {
            Some(m2) => encode_run(m2, b),
            None => None,
        },
    decreases b.len(),
{
    if b.len() == 0 {
        assert(a + b =~= a);
    } else {
        assert((a + b).drop_last() =~= a + b.drop_last());
        assert((a + b).last() == b.last());
        lemma_encode_chunking(m, a, b.drop_last());
    }
}

/// Bits taken out between two writes do not change what the later writes
/// produce: encoding `bs` appends to the pending bits and touches nothing
/// else of them.
pub proof fn lemma_encode_out_appends(m: EncoderModel, bs: Seq<u8>)
    ensures
        encode_run(m, bs) is Some <==> encode_run(EncoderModel { out: seq![], ..m }, bs) is Some,
        encode_run(m, bs) is Some ==> {
            let r = encode_run(m, bs)->0;
            let r0 = encode_run(EncoderModel { out: seq![], ..m }, bs)->0;
            &&& r.out == m.out + r0.out
            &&& r.trie == r0.trie
            &&& r.cur == r0.cur
            &&& r.count == r0.count
        },
    decreases bs.len(),
{
    if bs.len() == 0 {
        assert(m.out + seq![] =~= m.out);
    } else {
        lemma_encode_out_appends(m, bs.drop_last());
        if encode_run(m, bs.drop_last()) is Some {
            let r = encode_run(m, bs.drop_last())->0;
            let r0 = encode_run(EncoderModel { out: seq![], ..m }, bs.drop_last())->0;
            if r.cur is Some {
                let n = r.cur->0;
                if r.trie[n as int][bs.last() as int] is None && width_for(r.count) is Some {
                    let w = width_for(r.count)->0;
                    assert(m.out + (r0.out + to_bits(n, w)) =~= (m.out + r0.out) + to_bits(n, w));
                }
            }
        }
    }
}

/// What every encoder reachable from the start satisfies: one trie node more
/// than codes assigned, at least the 256 roots, and every link pointing
/// into the trie.
pub open spec fn encoder_inv(m: EncoderModel) -> bool {
    &&& m.trie.len() == m.count + 1
    &&& m.trie.len() >= 256
    &&& (m.cur is Some ==> m.cur->0 < m.trie.len())
    &&& forall|i: int| 0 <= i < m.trie.len() ==> (#[trigger] m.trie[i]).len() == 256
    &&& forall|i: int, b: int|
        0 <= i < m.trie.len() && 0 <= b < m.trie[i].len() && (#[trigger] m.trie[i][b]) is Some
            ==> m.trie[i][b]->0 < m.trie.len()
}

proof fn lemma_encode_byte_inv(m: EncoderModel, b: u8)
    requires
        encoder_inv(m),
    ensures
        encode_byte(m, b) is Some ==> encoder_inv(encode_byte(m, b)->0),
{
    if let Some(n) = m.cur {
        if m.trie[n as int][b as int] is None {
            if let Some(w) = width_for(m.count) {
                let r = encode_byte(m, b)->0;
                assert forall|i: int| 0 <= i < r.trie.len() implies (#[trigger] r.trie[i]).len() == 256 by {
                    if i < m.trie.len() && i != n {
                        assert(r.trie[i] == m.trie[i]);
                    }
                }
                assert forall|i: int, c: int|
                    0 <= i < r.trie.len() && 0 <= c < r.trie[i].len() && (
                    #[trigger] r.trie[i][c]) is Some implies r.trie[i][c]->0 < r.trie.len() by {
                    if i < m.trie.len() && i != n {
                        assert(r.trie[i] == m.trie[i]);
                    } else if i == n {
                        if c != b {
                            assert(r.trie[i][c] == m.trie[i][c]);
                        }
                    } else {
                        assert(r.trie[i] == empty_node());
                    }
                }
            }
        }
    }
}

proof fn lemma_encode_run_inv(m: EncoderModel, bs: Seq<u8>)
    requires
        encoder_inv(m),
    ensures
        encode_run(m, bs) is Some ==> encoder_inv(encode_run(m, bs)->0),
    decreases bs.len(),
{
    if bs.len() > 0 {
        lemma_encode_run_inv(m, bs.drop_last());
        if let Some(m2) = encode_run(m, bs.drop_last()) {
            lemma_encode_byte_inv(m2, bs.last());
        }
    }
}

/// From the start, the trie has one node per code assigned.
pub proof fn lemma_encoder_trie_grows(bs: Seq<u8>)
    ensures
        encode_run(encoder_start(), bs) is Some ==> encode_run(encoder_start(), bs)->0.trie.len()
            == encode_run(encoder_start(), bs)->0.count + 1,
{
    lemma_encode_run_inv(encoder_start(), bs);
}

} // verus!
