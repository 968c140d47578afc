//! Building blocks shared by the encoder and the decoder: the code-width
//! schedule, fixed-width code values, the decoder's dictionary and the
//! encoder's lookup trie.
use vstd::prelude::*;
use vstd::arithmetic::div_mod::lemma_div_denominator;

verus! {

/// `2^n`.
pub open spec fn two_pow(n: nat) -> nat
    decreases n,
{
    if n == 0 {
        1
    } else {
        2 * two_pow((n - 1) as nat)
    }
}

/// Number of binary digits of `x` (zero has none).
pub open spec fn bit_len(x: nat) -> nat
    decreases x,
{
    if x == 0 {
        0
    } else {
        1 + bit_len(x / 2)
    }
}

/// Largest count for which the schedule still yields a width.
pub const MAX_COUNT: u64 = 0x8000_0000_0000_0000;

/// The width of the code that is produced or consumed when `count` codes
/// (counting the pre-assigned ones) have been assigned so far, or `None`
/// once the count has run past what a machine word can index.
pub open spec fn width_for(count: nat) -> Option<nat> {
    if count <= MAX_COUNT as nat {
        Some(bit_len(count))
    } else {
        None
    }
}

pub proof fn lemma_two_pow_positive(n: nat)
    ensures
        two_pow(n) >= 1,
    decreases n,
{
    if n > 0 {
        lemma_two_pow_positive((n - 1) as nat);
    }
}

pub proof fn lemma_two_pow_63()
    ensures
        two_pow(63) == MAX_COUNT as nat,
{
    reveal_with_fuel(two_pow, 64);
}

pub proof fn lemma_two_pow_monotone(a: nat, b: nat)
    requires
        a <= b,
    ensures
        two_pow(a) <= two_pow(b),
    decreases b,
{
    if a < b {
        lemma_two_pow_monotone(a, (b - 1) as nat);
    }
}

/// `x` has exactly `k` binary digits when it lies in `[2^(k-1), 2^k)`.
pub proof fn lemma_bit_len_range(x: nat, k: nat)
    requires
        k >= 1,
        two_pow((k - 1) as nat) <= x < two_pow(k),
    ensures
        bit_len(x) == k,
    decreases k,
{
    if k == 1 {
        assert(x == 1);
        assert(bit_len(0) == 0);
    } else {
        lemma_bit_len_range(x / 2, (k - 1) as nat);
    }
}

/// A positive `x` lies in `[2^(bit_len(x)-1), 2^bit_len(x))`.
pub proof fn lemma_bit_len_bounds(x: nat)
    requires
        x >= 1,
    ensures
        bit_len(x) >= 1,
        two_pow((bit_len(x) - 1) as nat) <= x < two_pow(bit_len(x)),
    decreases x,
{
    if x == 1 {
        assert(bit_len(0) == 0);
        assert(bit_len(1) == 1);
    } else {
        lemma_bit_len_bounds(x / 2);
        assert(bit_len(x) == 1 + bit_len(x / 2));
    }
}

/// From the count 1 on, every code has at least one bit.
pub proof fn lemma_width_positive(c: nat)
    ensures
        c >= 1 && width_for(c) is Some ==> width_for(c)->0 >= 1,
{
    if c >= 1 {
        lemma_bit_len_bounds(c);
    }
}

/// Going from one count to the next, the width grows by exactly one bit when
/// the new count is a power of two, and stays the same otherwise.
pub proof fn lemma_width_step(c: nat)
    requires
        1 <= c < MAX_COUNT as nat,
    ensures
        width_for(c) is Some,
        width_for(c + 1) is Some,
        bit_len(c + 1) == if c + 1 == two_pow(bit_len(c)) {
            bit_len(c) + 1
        } else {
            bit_len(c)
        },
{
    lemma_bit_len_bounds(c);
    let k = bit_len(c);
    lemma_two_pow_positive(k);
    if c + 1 == two_pow(k) {
        assert(two_pow(k + 1) == 2 * two_pow(k));
        lemma_bit_len_range(c + 1, k + 1);
    } else {
        lemma_bit_len_range(c + 1, k);
    }
}

/// At every power-of-two boundary from 256 on, the width is `k` just below
/// `2^k` and `k + 1` from `2^k` up to the next boundary (or the last count).
pub proof fn lemma_width_boundary(k: nat, c: nat)
    requires
        8 <= k <= 63,
        two_pow(k) <= c < two_pow(k + 1),
        c <= MAX_COUNT as nat,
    ensures
        width_for((two_pow(k) - 1) as nat) == Some(k),
        width_for(c) == Some(k + 1),
{
    lemma_two_pow_63();
    lemma_two_pow_monotone(k, 63);
    lemma_two_pow_positive((k - 1) as nat);
    assert(two_pow(k) == 2 * two_pow((k - 1) as nat));
    lemma_bit_len_range((two_pow(k) - 1) as nat, k);
    lemma_bit_len_range(c, k + 1);
}

/// A schedule started at 1 yields the widths 1, 2, 2, 3, 3, 3, 3, 4; one
/// started at 255 yields 8 and then 9, the increase coming exactly at 256.
pub proof fn lemma_width_schedule_start()
    ensures
        width_for(1) == Some(1nat),
        width_for(2) == Some(2nat),
        width_for(3) == Some(2nat),
        width_for(4) == Some(3nat),
        width_for(5) == Some(3nat),
        width_for(6) == Some(3nat),
        width_for(7) == Some(3nat),
        width_for(8) == Some(4nat),
        width_for(255) == Some(8nat),
        width_for(256) == Some(9nat),
{
    reveal_with_fuel(bit_len, 10);
}

/// Produces the width of each successive code.
///
/// `current` counts the codes assigned so far; `current_size` is the width
/// in use and `next_increase` the count at which it grows by one bit.
#[derive(Debug)]
pub struct BitSizeEnumerator {
    current: u64,
    current_size: u64,
    next_increase: u64,
}

impl View for BitSizeEnumerator {
    type V = nat;

    closed spec fn view(&self) -> nat {
        self.current as nat
    }
}

impl BitSizeEnumerator {
    pub closed spec fn wf(&self) -> bool {
        if self.current_size < 64 {
            &&& self.next_increase as nat == two_pow(self.current_size as nat)
            &&& self.current <= self.next_increase
            &&& (self.current == self.next_increase || self.current_size == 0 || two_pow(
                (self.current_size - 1) as nat,
            ) <= self.current)
            &&& (self.current_size == 0 ==> self.current == 0 || self.current == 1)
        } else {
            &&& self.current_size == 64
            &&& self.next_increase == 0
            &&& self.current == MAX_COUNT + 1
        }
    }

    /// A schedule whose highest pre-assigned code is `start`.
    pub fn new(start: usize) -> (r: Self)
        requires
            start < MAX_COUNT,
        ensures
            r.wf(),
            r@ == start as nat,
    {
        let mut x: u64 = start as u64;
        let mut n: u64 = 0;
        let mut p: u64 = 1;
        while x > 0
            invariant
                p as nat == two_pow(n as nat),
                x as nat == start as nat / (p as nat),
                n >= 1 ==> two_pow((n - 1) as nat) <= start,
                n <= 64,
                start < MAX_COUNT,
            decreases x,
        {
            proof {
                lemma_two_pow_positive(n as nat);
                assert(p as nat <= start) by (nonlinear_arith)
                    requires
                        x as nat == start as nat / (p as nat),
                        x > 0,
                        p > 0,
                ;
                lemma_div_denominator(start as int, p as int, 2);
                if n >= 63 {
                    lemma_two_pow_monotone(63, n as nat);
                    lemma_two_pow_63();
                }
            }
            x = x / 2;
            n = n + 1;
            p = p * 2;
        }
        proof {
            lemma_two_pow_positive(n as nat);
            assert(start < p) by (nonlinear_arith)
                requires
                    0 == start as nat / (p as nat),
                    p > 0,
            ;
            if n >= 64 {
                lemma_two_pow_monotone(63, (n - 1) as nat);
                lemma_two_pow_63();
            }
        }
        BitSizeEnumerator { current: start as u64, current_size: n, next_increase: p }
    }

    /// The width of the next code, or `None` once the schedule is exhausted.
    pub fn next(&mut self) -> (r: Option<usize>)
        requires
            old(self).wf(),
        ensures
            final(self).wf(),
            r is Some <==> width_for(old(self)@) is Some,
            r is Some ==> r->0 as nat == width_for(old(self)@)->0 && r->0 <= 64,
            r is Some ==> final(self)@ == old(self)@ + 1,
            r is None ==> final(self)@ == old(self)@,
    {
        proof {
            lemma_two_pow_63();
        }
        if self.current == self.next_increase {
            proof {
                let s = self.current_size as nat;
                lemma_two_pow_positive(s);
                assert(two_pow(s + 1) == 2 * two_pow(s));
                lemma_bit_len_range(self.current as nat, s + 1);
                if s < 63 {
                    lemma_two_pow_monotone(s + 1, 63);
                }
            }
            self.current_size = self.current_size + 1;
            self.current = self.current + 1;
            self.next_increase = if self.current_size == 64 {
                0
            } else {
                self.next_increase * 2
            };
            Some(self.current_size as usize)
        } else if self.current_size == 64 {
            None
        } else {
            proof {
                let s = self.current_size as nat;
                if s == 0 {
                    assert(bit_len(0) == 0);
                } else {
                    lemma_bit_len_range(self.current as nat, s);
                }
                lemma_two_pow_monotone(s, 63);
            }
            let res = Some(self.current_size as usize);
            self.current = self.current + 1;
            res
        }
    }
}

/// Bit `i` of `v`, counting from the least significant bit.
pub open spec fn bit_of(v: nat, i: nat) -> bool {
    (v / two_pow(i)) % 2 == 1
}

/// The `len` low bits of `v`, most significant first.
pub open spec fn to_bits(v: nat, len: nat) -> Seq<bool> {
    Seq::new(len, |k: int| bit_of(v, (len - 1 - k) as nat))
}

/// The number whose binary digits, most significant first, are `s`.
pub open spec fn bits_value(s: Seq<bool>) -> nat
    decreases s.len(),
{
    if s.len() == 0 {
        0
    } else {
        2 * bits_value(s.drop_last()) + if s.last() {
            1nat
        } else {
            0nat
        }
    }
}

/// A value below `2^len`, written as `len` bits most significant first, reads
/// back as itself.
pub proof fn lemma_bits_round_trip(v: nat, len: nat)
    requires
        v < two_pow(len),
    ensures
        bits_value(to_bits(v, len)) == v,
    decreases len,
{
    if len == 0 {
        assert(to_bits(v, len) =~= Seq::<bool>::empty());
    } else {
        let s = to_bits(v, len);
        let t = to_bits(v / 2, (len - 1) as nat);
        assert forall|k: int| 0 <= k < len - 1 implies #[trigger] s.drop_last()[k] == t[k] by {
            let m = (len - 2 - k) as nat;
            lemma_two_pow_positive(m);
            lemma_div_denominator(v as int, 2, two_pow(m) as int);
            assert(two_pow(m + 1) == 2 * two_pow(m));
            assert((len - 1 - k) as nat == m + 1);
        }
        assert(s.drop_last() =~= t);
        assert(two_pow(0) == 1);
        assert(s.last() == s[len - 1]);
        assert(s[len - 1] == bit_of(v, 0));
        assert(v / 1 == v);
        assert(s.last() == (v % 2 == 1));
        lemma_bits_round_trip(v / 2, (len - 1) as nat);
    }
}

/// Bit `i` of `v`.
fn bit_at(v: u64, i: usize) -> (r: bool)
    ensures
        r == bit_of(v as nat, i as nat),
{
    let mut x: u64 = v;
    let mut j: usize = 0;
    assert(two_pow(0) == 1);
    while j < i
        invariant
            j <= i,
            x as nat == v as nat / two_pow(j as nat),
        decreases i - j,
    {
        proof {
            lemma_two_pow_positive(j as nat);
            lemma_div_denominator(v as int, two_pow(j as nat) as int, 2);
        }
        x = x / 2;
        j = j + 1;
    }
    x % 2 == 1
}

/// A code value together with the number of bits it is written with.
#[derive(Debug, PartialEq, Eq, Clone, Copy)]
pub struct BitIndex(u64, usize);

impl View for BitIndex {
    type V = (nat, nat);

    closed spec fn view(&self) -> (nat, nat) {
        (self.0 as nat, self.1 as nat)
    }
}

impl BitIndex {
    pub fn new(data: usize, len: usize) -> (r: Self)
        ensures
            r@ == (data as nat, len as nat),
    {
        BitIndex(data as u64, len)
    }

    pub fn as_usize(&self) -> (r: usize)
        requires
            self@.0 <= usize::MAX,
        ensures
            r == self@.0,
    {
        self.0 as usize
    }

    pub fn as_u64(&self) -> (r: u64)
        ensures
            r == self@.0,
    {
        self.0
    }

    /// The value's bits, most significant first.
    pub fn bits(&self) -> (r: Vec<bool>)
        ensures
            r@ == to_bits(self@.0, self@.1),
    {
        let mut out: Vec<bool> = Vec::new();
        let mut k: usize = 0;
        while k < self.1
            invariant
                k <= self.1,
                out@ =~= to_bits(self@.0, self@.1).take(k as int),
            decreases self.1 - k,
        {
            let b = bit_at(self.0, self.1 - 1 - k);
            out.push(b);
            k = k + 1;
            proof {
                assert(out@ =~= to_bits(self@.0, self@.1).take(k as int));
            }
        }
        proof {
            assert(out@ =~= to_bits(self@.0, self@.1));
        }
        out
    }

    /// Hands out the most significant of the bits not yet handed out.
    pub fn next(&mut self) -> (r: Option<bool>)
        ensures
            old(self)@.1 == 0 ==> r is None && final(self)@ == old(self)@,
            old(self)@.1 > 0 ==> r == Some(to_bits(old(self)@.0, old(self)@.1)[0])
                && final(self)@ == (old(self)@.0, (old(self)@.1 - 1) as nat),
    {
        if self.1 > 0 {
            let ret = bit_at(self.0, self.1 - 1);
            self.1 = self.1 - 1;
            Some(ret)
        } else {
            None
        }
    }

    /// Reads a code of `len` bits, most significant first, starting at bit
    /// `start` of `bits`; `None` when fewer than `len` bits remain there.
    pub fn from_bits(bits: &Vec<bool>, start: usize, len: usize) -> (r: Option<Self>)
        requires
            len <= 64,
            start <= bits@.len(),
        ensures
            start + len > bits@.len() ==> r is None,
            start + len <= bits@.len() ==> r is Some && r->0@ == (
                bits_value(bits@.subrange(start as int, start + len)),
                len as nat,
            ) && bits_value(bits@.subrange(start as int, start + len)) < two_pow(len as nat),
    {
        let n = bits.len();
        if len > n - start {
            return None;
        }
        let mut data: u64 = 0;
        let mut i: usize = 0;
        while i < len
            invariant
                i <= len <= 64,
                start + len <= n,
                n == bits@.len(),
                data as nat == bits_value(bits@.subrange(start as int, start + i)),
                data < two_pow(i as nat),
            decreases len - i,
        {
            let bit: u64 = if bits[start + i] {
                1
            } else {
                0
            };
            proof {
                let s = bits@.subrange(start as int, start + i + 1);
                assert(s.drop_last() =~= bits@.subrange(start as int, start + i));
                lemma_two_pow_monotone(i as nat + 1, 64);
                assert(two_pow(64) == 2 * two_pow(63));
                lemma_two_pow_63();
            }
            data = data * 2 + bit;
            i = i + 1;
        }
        Some(BitIndex(data, len))
    }
}

/// One entry of the decoder's dictionary: the last byte of a phrase and the
/// index of the phrase it extends, if any.
pub struct LZWDictEntry {
    pub symbol: u8,
    pub prefix: Option<usize>,
}

/// The entries that make up the dictionary are well formed: the first 256
/// are the single bytes, and every back-reference points to an earlier entry.
pub open spec fn dict_wf(d: Seq<LZWDictEntry>) -> bool {
    &&& d.len() >= 256
    &&& forall|i: int| 0 <= i < 256 ==> (#[trigger] d[i]).symbol == i as u8 && d[i].prefix is None
    &&& forall|i: int|
        0 <= i < d.len() && (#[trigger] d[i]).prefix is Some ==> d[i].prefix->0 < i
}

/// The phrase of entry `i`, last byte first.
pub open spec fn rev_phrase(d: Seq<LZWDictEntry>, i: nat) -> Seq<u8>
    decreases i,
{
    if i < d.len() {
        match d[i as int].prefix {
            Some(p) => if p < i {
                seq![d[i as int].symbol] + rev_phrase(d, p as nat)
            } else {
                seq![d[i as int].symbol]
            },
            None => seq![d[i as int].symbol],
        }
    } else {
        seq![]
    }
}

/// The first byte of the phrase of entry `i`.
pub open spec fn first_symbol(d: Seq<LZWDictEntry>, i: nat) -> u8
    decreases i,
{
    if i < d.len() {
        match d[i as int].prefix {
            Some(p) => if p < i {
                first_symbol(d, p as nat)
            } else {
                d[i as int].symbol
            },
            None => d[i as int].symbol,
        }
    } else {
        0
    }
}

/// `first_symbol` is the byte that the reversed phrase ends with.
pub proof fn lemma_first_symbol_ends_rev_phrase(d: Seq<LZWDictEntry>, i: nat)
    requires
        i < d.len(),
    ensures
        rev_phrase(d, i).len() > 0,
        rev_phrase(d, i).last() == first_symbol(d, i),
    decreases i,
{
    if let Some(p) = d[i as int].prefix {
        if p < i {
            lemma_first_symbol_ends_rev_phrase(d, p as nat);
        }
    }
}

/// The decoder's dictionary: an append-only table of phrases.
pub struct LZWDict(Vec<LZWDictEntry>);

impl View for LZWDict {
    type V = Seq<LZWDictEntry>;

    closed spec fn view(&self) -> Seq<LZWDictEntry> {
        self.0@
    }
}

impl LZWDict {
    /// The dictionary of the 256 single-byte phrases.
    pub fn new() -> (r: Self)
        ensures
            dict_wf(r@),
            r@.len() == 256,
    {
        let mut vec: Vec<LZWDictEntry> = Vec::with_capacity(4096);
        let mut i: usize = 0;
        while i < 256
            invariant
                i <= 256,
                vec@.len() == i,
                forall|j: int| 0 <= j < i ==> (#[trigger] vec@[j]).symbol == j as u8 && vec@[j].prefix is None,
            decreases 256 - i,
        {
            vec.push(LZWDictEntry { symbol: i as u8, prefix: None });
            i = i + 1;
        }
        LZWDict(vec)
    }

    pub fn push(&mut self, entry: LZWDictEntry)
        requires
            dict_wf(old(self)@),
            entry.prefix is Some ==> entry.prefix->0 < old(self)@.len(),
        ensures
            dict_wf(final(self)@),
            final(self)@ == old(self)@.push(entry),
    {
        self.0.push(entry)
    }

    pub fn len(&self) -> (r: usize)
        ensures
            r == self@.len(),
    {
        self.0.len()
    }

    pub fn index(&self, index: usize) -> (r: &LZWDictEntry)
        requires
            index < self@.len(),
        ensures
            *r == self@[index as int],
    {
        &self.0[index]
    }

    /// The first byte of the phrase of entry `idx`.
    pub fn first_symbol(&self, idx: usize) -> (r: u8)
        requires
            dict_wf(self@),
            idx < self@.len(),
        ensures
            r == first_symbol(self@, idx as nat),
    {
        let mut j: usize = idx;
        while self.0[j].prefix.is_some()
            invariant
                dict_wf(self@),
                j < self@.len(),
                first_symbol(self@, j as nat) == first_symbol(self@, idx as nat),
            decreases j,
        {
            j = self.0[j].prefix.unwrap();
        }
        self.0[j].symbol
    }

    /// Appends the bytes of the phrase of entry `idx`, last byte first, to
    /// `out`, so that popping `out` yields the phrase in order.
    pub fn push_phrase_reversed(&self, idx: usize, out: &mut Vec<u8>)
        requires
            dict_wf(self@),
            idx < self@.len(),
        ensures
            final(out)@ == old(out)@ + rev_phrase(self@, idx as nat),
    {
        let mut j: usize = idx;
        out.push(self.0[j].symbol);
        while self.0[j].prefix.is_some()
            invariant
                dict_wf(self@),
                j < self@.len(),
                out@.len() >= 1,
                old(out)@ + rev_phrase(self@, idx as nat) == out@.drop_last() + rev_phrase(self@, j as nat),
                out@.last() == self@[j as int].symbol,
            decreases j,
        {
            let p = self.0[j].prefix.unwrap();
            proof {
                assert(rev_phrase(self@, j as nat) =~= seq![self@[j as int].symbol] + rev_phrase(self@, p as nat));
            }
            let ghost before = out@;
            j = p;
            out.push(self.0[j].symbol);
            proof {
                assert(out@.drop_last() =~= before);
                assert(before.drop_last() + seq![before.last()] =~= before);
                assert(before.drop_last() + (seq![before.last()] + rev_phrase(self@, j as nat)) =~= before + rev_phrase(self@, j as nat));
            }
        }
        proof {
            assert(rev_phrase(self@, j as nat) =~= seq![self@[j as int].symbol]);
            assert(out@.drop_last() + seq![out@.last()] =~= out@);
        }
    }
}

/// A node of the encoder's lookup trie: for each byte, the node that extends
/// this node's phrase by that byte, if there is one yet.
pub struct LZWSearchTreeNode {
    pub children: Vec<Option<usize>>,
}

impl LZWSearchTreeNode {
    /// A node without children.
    pub fn new() -> (r: Self)
        ensures
            r.children@.len() == 256,
            forall|b: int| 0 <= b < 256 ==> #[trigger] r.children@[b] is None,
    {
        let mut children: Vec<Option<usize>> = Vec::with_capacity(256);
        let mut i: usize = 0;
        while i < 256
            invariant
                i <= 256,
                children@.len() == i,
                forall|b: int| 0 <= b < i ==> #[trigger] children@[b] is None,
            decreases 256 - i,
        {
            children.push(None);
            i = i + 1;
        }
        LZWSearchTreeNode { children }
    }
}

} // verus!
