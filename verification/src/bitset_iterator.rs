use vstd::prelude::*;
use crate::entities::EcsId;

verus! {

/// Bit `j` (0 = least significant) of a word.
pub open spec fn bit(w: u64, j: int) -> bool {
    (w >> (j as u64)) & 1u64 == 1u64
}

/// Bit `p` of a sequence of words, word `p / 64`, bit `p % 64`.
pub open spec fn seq_bit(words: Seq<u64>, p: int) -> bool {
    0 <= p && p / 64 < words.len() && bit(words[p / 64], p % 64)
}

proof fn lemma_bit_set_clear(w: u64, b: u64, v: u64, j: u64)
    requires
        b < 64,
        j < 64,
        v == 0 || v == 1,
    ensures
        ((((w & !(1u64 << b)) | (v << b)) >> j) & 1u64 == 1u64) == (if j == b {
            v == 1
        } else {
            (w >> j) & 1u64 == 1u64
        }),
{
    assert(((((w & !(1u64 << b)) | (v << b)) >> j) & 1u64 == 1u64) == (if j == b {
        v == 1
    } else {
        (w >> j) & 1u64 == 1u64
    })) by (bit_vector)
        requires
            b < 64,
            j < 64,
            v == 0 || v == 1,
    ;
}

proof fn lemma_zero_word_no_bits(j: u64)
    requires
        j < 64,
    ensures
        (0u64 >> j) & 1u64 != 1u64,
{
    assert((0u64 >> j) & 1u64 != 1u64) by (bit_vector);
}

/// A growable vector of bits stored 64 to a word.
pub struct Bitvec {
    pub data: Vec<u64>,
    /// Length in bits of the bitvec
    pub len: usize,
}

impl Bitvec {
    /// Exactly the words that the length needs are allocated, and no bit at or past the length
    /// is set.
    pub open spec fn wf(&self) -> bool {
        &&& self.data.len() == (self.len + 63) / 64
        &&& forall|p: int| self.len <= p && #[trigger] seq_bit(self.data@, p) ==> false
    }

    /// The bits, as booleans.
    pub open spec fn view(&self) -> Seq<bool> {
        Seq::new(self.len as nat, |p: int| seq_bit(self.data@, p))
    }

    pub fn new() -> (b: Self)
        ensures
            b.wf(),
            b@ == Seq::<bool>::empty(),
            b.data@ == Seq::<u64>::empty(),
    {
        Bitvec { data: Vec::new(), len: 0 }
    }

    pub fn with_capacity(bit_cap: usize) -> (b: Self)
        ensures
            b.wf(),
            b@ == Seq::<bool>::empty(),
            b.data@ == Seq::<u64>::empty(),
    {
        Bitvec { data: Vec::with_capacity(bit_cap / 64), len: 0 }
    }

    /// The bit at `index`, or `None` past the length.
    pub fn get_bit(&self, index: usize) -> (r: Option<bool>)
        requires
            self.wf(),
        ensures
            index >= self.len ==> r.is_none(),
            index < self.len ==> r == Some(self@[index as int]),
    {
        if index >= self.len {
            return None;
        }
        let data_idx = index / 64;
        let bit_idx = index % 64;
        Some(((self.data[data_idx] >> (bit_idx as u64)) & 1) == 1)
    }

    /// Sets the bit at `index` to `value`, lengthening the bitvec with unset bits if `index` is
    /// past its end.
    pub fn set_bit(&mut self, index: usize, value: bool)
        requires
            old(self).wf(),
            index < usize::MAX,
        ensures
            final(self).wf(),
            final(self).len == (if index < old(self).len { old(self).len } else { (index + 1) as usize }),
            forall|p: int| 0 <= p < final(self).len ==> #[trigger] final(self)@[p] == (if p == index {
                value
            } else if p < old(self).len {
                old(self)@[p]
            } else {
                false
            }),
    {
        let data_idx = index / 64;
        let bit_idx = index % 64;
        let ghost old_data = self.data@;
        if index >= self.len {
            self.len = index + 1;
            while self.data.len() < data_idx + 1
                invariant
                    self.data.len() <= data_idx + 1,
                    data_idx == index / 64,
                    self.len == index + 1,
                    old_data == old(self).data@,
                    index >= old(self).len,
                    self.data@.len() >= old_data.len(),
                    forall|k: int| 0 <= k < old_data.len() ==> self.data@[k] == old_data[k],
                    forall|k: int| old_data.len() <= k < self.data.len() ==> self.data@[k] == 0,
                decreases data_idx + 1 - self.data.len(),
            {
                self.data.push(0);
            }
        }
        let v: u64 = if value { 1 } else { 0 };
        let mask: u64 = 1u64 << (bit_idx as u64);
        let old_word = self.data[data_idx];
        let new_word = (old_word & !mask) | (v << (bit_idx as u64));
        self.data.set(data_idx, new_word);
        proof {
            let o = old(self);
            assert forall|p: int| 0 <= p implies #[trigger] seq_bit(self.data@, p) == (if p == index {
                value
            } else if p < o.len {
                seq_bit(old_data, p)
            } else {
                false
            }) by {
                if p / 64 < self.data.len() {
                    lemma_bit_set_clear(old_word, bit_idx as u64, v, (p % 64) as u64);
                    if p / 64 != data_idx as int {
                        if p / 64 >= old_data.len() {
                            lemma_zero_word_no_bits((p % 64) as u64);
                        }
                    } else {
                        if p != index {
                            assert(p % 64 != bit_idx);
                            if data_idx >= old_data.len() {
                                lemma_zero_word_no_bits((p % 64) as u64);
                            } else if p >= o.len {
                                assert(seq_bit(old_data, p) == false);
                            }
                        }
                    }
                } else {
                    if p < o.len {
                        assert(p / 64 < old_data.len());
                    }
                }
                if p >= o.len && p / 64 < old_data.len() && p / 64 != data_idx as int {
                    assert(!seq_bit(old_data, p));
                }
            }
        }
    }

    /// Appends one bit.
    pub fn push_bit(&mut self, value: bool)
        requires
            old(self).wf(),
            old(self).len < usize::MAX - 1,
        ensures
            final(self).wf(),
            final(self)@ == old(self)@.push(value),
    {
        let len = self.len;
        self.set_bit(len, value);
        proof {
            assert(self@ =~= old(self)@.push(value));
        }
    }
}

/// A slot that holds a bitvec with no bits and no words.
pub open spec fn empty_slot(slot: Option<Bitvec>) -> bool {
    slot.is_some() && slot.unwrap().len == 0 && slot.unwrap().data@.len() == 0
}

/// One bitvec per component identifier, indexed by the identifier's slot.
pub struct Bitsetsss {
    pub bitsets: Vec<Option<Bitvec>>,
}

impl Bitsetsss {
    pub open spec fn wf(&self) -> bool {
        forall|i: int| 0 <= i < self.bitsets.len() && (#[trigger] self.bitsets[i]).is_some()
            ==> self.bitsets[i].unwrap().wf()
    }

    pub fn new() -> (b: Self)
        ensures
            b.wf(),
            b.bitsets@ == Seq::<Option<Bitvec>>::empty(),
    {
        Bitsetsss { bitsets: Vec::new() }
    }

    pub fn with_capacity(cap: usize) -> (b: Self)
        ensures
            b.wf(),
            b.bitsets@ == Seq::<Option<Bitvec>>::empty(),
    {
        Bitsetsss { bitsets: Vec::with_capacity(cap) }
    }

    /// Gives `comp_id` an empty bitvec. Growing the table gives every new slot an empty bitvec.
    /// A slot that already holds a bitvec is refused.
    pub fn insert_bitvec(&mut self, comp_id: EcsId)
        requires
            old(self).wf(),
            comp_id.index < old(self).bitsets.len() ==> old(self).bitsets[comp_id.index as int].is_none(),
        ensures
            final(self).wf(),
            final(self).bitsets.len() == if comp_id.index < old(self).bitsets.len() {
                old(self).bitsets.len() as int
            } else {
                comp_id.index + 1
            },
            forall|i: int| 0 <= i < final(self).bitsets.len() ==> if i < old(self).bitsets.len() && i
                != comp_id.index {
                #[trigger] final(self).bitsets[i] == old(self).bitsets[i]
            } else {
                empty_slot(final(self).bitsets[i])
            },
    {
        let idx = comp_id.uindex();
        if idx >= self.bitsets.len() {
            let ghost old_b = self.bitsets@;
            while self.bitsets.len() <= idx
                invariant
                    self.bitsets.len() <= idx + 1,
                    old_b.len() <= idx,
                    self.bitsets.len() >= old_b.len(),
                    forall|k: int| 0 <= k < old_b.len() ==> self.bitsets@[k] == old_b[k],
                    forall|k: int| old_b.len() <= k < self.bitsets.len() ==> empty_slot(#[trigger] self.bitsets@[k]),
                    forall|i: int| 0 <= i < self.bitsets.len() && (#[trigger] self.bitsets[i]).is_some()
                        ==> self.bitsets[i].unwrap().wf(),
                decreases idx + 1 - self.bitsets.len(),
            {
                self.bitsets.push(Some(Bitvec::new()));
            }
            return;
        }
        self.bitsets.set(idx, Some(Bitvec::new()));
    }

    pub fn get_bitvec(&self, comp_id: EcsId) -> (r: Option<&Bitvec>)
        ensures
            r == (if comp_id.index < self.bitsets.len() {
                match self.bitsets[comp_id.index as int] {
                    Some(b) => Some(&b),
                    None => None,
                }
            } else {
                None
            }),
    {
        if comp_id.uindex() < self.bitsets.len() {
            match &self.bitsets[comp_id.uindex()] {
                Some(b) => Some(b),
                None => None,
            }
        } else {
            None
        }
    }

    /// Sets bit `index` of the bitvec of `entity`, giving the slot an empty bitvec first if it
    /// has none.
    pub fn set_bit(&mut self, entity: EcsId, index: usize, value: bool)
        requires
            old(self).wf(),
            entity.index < old(self).bitsets.len(),
            index < usize::MAX,
        ensures
            final(self).wf(),
            final(self).bitsets.len() == old(self).bitsets.len(),
            forall|i: int| 0 <= i < final(self).bitsets.len() && i != entity.index
                ==> #[trigger] final(self).bitsets[i] == old(self).bitsets[i],
            final(self).bitsets[entity.index as int].is_some(),
            ({
                let before = match old(self).bitsets[entity.index as int] {
                    Some(b) => b@,
                    None => Seq::<bool>::empty(),
                };
                let after = final(self).bitsets[entity.index as int].unwrap();
                &&& after.len == (if index < before.len() { before.len() as int } else { index + 1 })
                &&& forall|p: int| 0 <= p < after.len ==> #[trigger] after@[p] == (if p == index {
                    value
                } else if p < before.len() {
                    before[p]
                } else {
                    false
                })
            }),
    {
        let idx = entity.uindex();
        let mut bitvec = match self.bitsets[idx].take() {
            Some(b) => b,
            None => Bitvec::with_capacity(index),
        };
        bitvec.set_bit(index, value);
        self.bitsets.set(idx, Some(bitvec));
    }
}

} // verus!

verus! {

/// One input of a `BitsetIterator`: a slice of words, read as they are or inverted.
#[derive(Clone, Copy)]
pub struct BitSource<'a> {
    pub words: &'a [u64],
    pub invert: bool,
}

/// Word `w` of a source, after its optional inversion.
pub open spec fn source_word(s: BitSource, w: int) -> u64 {
    if s.invert {
        !s.words@[w]
    } else {
        s.words@[w]
    }
}

/// The bitwise and of word `w` of the first `n` sources (of the first source alone when `n` is 0
/// or 1).
pub open spec fn combined_upto(srcs: Seq<BitSource>, n: nat, w: int) -> u64
    decreases n,
{
    if n <= 1 {
        source_word(srcs[0], w)
    } else {
        combined_upto(srcs, (n - 1) as nat, w) & source_word(srcs[n - 1], w)
    }
}

/// The bitwise and of word `w` of all sources.
pub open spec fn combined_word(srcs: Seq<BitSource>, w: int) -> u64 {
    combined_upto(srcs, srcs.len(), w)
}

/// Every source has a word at position `w`.
pub open spec fn word_available(srcs: Seq<BitSource>, w: int) -> bool {
    forall|k: int| 0 <= k < srcs.len() ==> w < (#[trigger] srcs[k]).words@.len()
}

/// Position `p` is reported by an iterator over `srcs` bounded by `bit_length`: it is below the
/// bound, every source has its word, and the combined word has the bit set.
pub open spec fn member(srcs: Seq<BitSource>, bit_length: int, p: int) -> bool {
    &&& srcs.len() > 0
    &&& 0 <= p < bit_length
    &&& word_available(srcs, p / 64)
    &&& bit(combined_word(srcs, p / 64), p % 64)
}

proof fn lemma_and_bit(a: u64, b: u64, j: u64)
    requires
        j < 64,
    ensures
        (((a & b) >> j) & 1u64 == 1u64) == (((a >> j) & 1u64 == 1u64) && ((b >> j) & 1u64 == 1u64)),
{
    assert((((a & b) >> j) & 1u64 == 1u64) == (((a >> j) & 1u64 == 1u64) && ((b >> j) & 1u64
        == 1u64))) by (bit_vector)
        requires
            j < 64,
    ;
}

/// A bit of the combined word is set exactly when it is set in every source word.
pub proof fn lemma_combined_bit(srcs: Seq<BitSource>, n: nat, w: int, j: int)
    requires
        1 <= n <= srcs.len(),
        0 <= j < 64,
    ensures
        bit(combined_upto(srcs, n, w), j) <==> forall|k: int| 0 <= k < n ==> #[trigger] bit(
            source_word(srcs[k], w),
            j,
        ),
    decreases n,
{
    if n > 1 {
        lemma_combined_bit(srcs, (n - 1) as nat, w, j);
        lemma_and_bit(combined_upto(srcs, (n - 1) as nat, w), source_word(srcs[n - 1], w), j as u64);
        assert(bit(combined_upto(srcs, n, w), j) == (bit(combined_upto(srcs, (n - 1) as nat, w), j)
            && bit(source_word(srcs[n - 1], w), j)));
        if bit(combined_upto(srcs, n, w), j) {
            assert forall|k: int| 0 <= k < n implies #[trigger] bit(source_word(srcs[k], w), j) by {
                if k < n - 1 {
                }
            }
        } else {
            if bit(combined_upto(srcs, (n - 1) as nat, w), j) {
                assert(!bit(source_word(srcs[n - 1], w), j));
            } else {
                let k = choose|k: int| 0 <= k < n - 1 && !#[trigger] bit(source_word(srcs[k], w), j);
                assert(!bit(source_word(srcs[k], w), j));
            }
        }
    }
}

proof fn lemma_shifted_bit(w: u64, s: u64, j: u64)
    requires
        s < 64,
        j < 64,
    ensures
        s + j < 64 ==> (((w >> s) >> j) & 1u64 == 1u64) == ((w >> ((s + j) as u64)) & 1u64 == 1u64),
        s + j >= 64 ==> ((w >> s) >> j) & 1u64 == 0u64,
{
    assert(s + j < 64 ==> (((w >> s) >> j) & 1u64 == 1u64) == ((w >> ((s + j) as u64)) & 1u64
        == 1u64)) by (bit_vector)
        requires
            s < 64,
            j < 64,
    ;
    assert(s + j >= 64 ==> ((w >> s) >> j) & 1u64 == 0u64) by (bit_vector)
        requires
            s < 64,
            j < 64,
    ;
}

/// Iterates over the positions whose bit is set in every source (after inversion), in
/// increasing order, stopping at `bit_length` or when a source runs out of words.
pub struct BitsetIterator<'a> {
    pub iters: Vec<BitSource<'a>>,
    pub bit_length: u32,
    /// Positions passed so far.
    pub index: usize,
    /// Words read so far from every source.
    pub word_pos: usize,
    /// Bits of the current word not yet looked at.
    pub bits_remaining: u32,
    /// The current word, shifted so that its next bit is the lowest.
    pub current_bits: u64,
    /// Set once the bound has been passed; no position is reported after that.
    pub finished: bool,
}

impl<'a> BitsetIterator<'a> {
    pub open spec fn sources(&self) -> Seq<BitSource<'a>> {
        self.iters@
    }

    pub open spec fn wf(&self) -> bool {
        &&& self.bits_remaining <= 64
        &&& self.index + self.bits_remaining == 64 * self.word_pos
        &&& forall|k: int| 0 <= k < self.iters.len() ==> self.word_pos <= (#[trigger] self.iters@[k]).words@.len()
        &&& forall|k: int| 0 <= k < self.iters.len() ==> 64 * (#[trigger] self.iters@[k]).words@.len() <= usize::MAX
        &&& !self.finished && self.bits_remaining > 0 ==> {
            &&& self.word_pos >= 1
            &&& forall|j: int| 0 <= j < 64 ==> #[trigger] bit(self.current_bits, j) == (j
                < self.bits_remaining && bit(
                combined_word(self.iters@, self.word_pos - 1),
                j + 64 - self.bits_remaining,
            ))
        }
    }

    /// The positions that are still to come.
    pub open spec fn remaining(&self) -> Set<int> {
        Set::new(
            |p: int|
                !self.finished && self.index <= p && member(self.iters@, self.bit_length as int, p),
        )
    }

    pub fn new(iters: Vec<BitSource<'a>>, bit_length: u32) -> (it: Self)
        requires
            forall|k: int| 0 <= k < iters.len() ==> 64 * (#[trigger] iters@[k]).words@.len() <= usize::MAX,
        ensures
            it.wf(),
            it.index == 0,
            it.iters@ == iters@,
            it.bit_length == bit_length,
            it.remaining() == Set::new(|p: int| 0 <= p && member(iters@, bit_length as int, p)),
    {
        let it = BitsetIterator {
            iters,
            bit_length,
            index: 0,
            word_pos: 0,
            bits_remaining: 0,
            current_bits: 0,
            finished: false,
        };
        proof {
            assert(it.remaining() =~= Set::new(|p: int| 0 <= p && member(iters@, bit_length as int, p)));
        }
        it
    }

    /// Reads word `word_pos` of every source and ands them, or gives `None` when some source has
    /// run out of words.
    fn fetch(&self) -> (r: Option<u64>)
        requires
            self.iters.len() > 0,
        ensures
            r.is_some() == word_available(self.iters@, self.word_pos as int),
            r.is_some() ==> r.unwrap() == combined_word(self.iters@, self.word_pos as int),
    {
        let first = self.iters[0];
        if self.word_pos >= first.words.len() {
            return None;
        }
        let mut filtered: u64 = if first.invert {
            !first.words[self.word_pos]
        } else {
            first.words[self.word_pos]
        };
        let mut k: usize = 1;
        while k < self.iters.len()
            invariant
                1 <= k <= self.iters.len(),
                forall|j: int| 0 <= j < k ==> self.word_pos < (#[trigger] self.iters@[j]).words@.len(),
                filtered == combined_upto(self.iters@, k as nat, self.word_pos as int),
            decreases self.iters.len() - k,
        {
            let src = self.iters[k];
            if self.word_pos >= src.words.len() {
                return None;
            }
            let w = if src.invert {
                !src.words[self.word_pos]
            } else {
                src.words[self.word_pos]
            };
            filtered = filtered & w;
            k = k + 1;
        }
        Some(filtered)
    }

    /// The next position, the smallest of those remaining; `None` once there is none, and from
    /// then on.
    pub fn next(&mut self) -> (r: Option<usize>)
        requires
            old(self).wf(),
        ensures
            final(self).wf(),
            final(self).iters@ == old(self).iters@,
            final(self).bit_length == old(self).bit_length,
            match r {
                Some(p) => {
                    &&& final(self).index == p + 1
                    &&& old(self).remaining().contains(p as int)
                    &&& forall|q: int| old(self).remaining().contains(q) ==> p <= q
                    &&& final(self).remaining() == old(self).remaining().remove(p as int)
                },
                None => {
                    &&& old(self).remaining() == Set::<int>::empty()
                    &&& final(self).remaining() == Set::<int>::empty()
                },
            },
    {
        let ghost start = self.index as int;
        let ghost srcs = self.iters@;
        let ghost bl = self.bit_length as int;
        if self.finished {
            proof {
                assert(old(self).remaining() =~= Set::<int>::empty());
            }
            return None;
        }
        if self.iters.len() == 0 {
            proof {
                assert(old(self).remaining() =~= Set::<int>::empty());
            }
            return None;
        }
        loop
            invariant
                self.wf(),
                !self.finished,
                self.iters@ == srcs,
                srcs == old(self).iters@,
                bl == old(self).bit_length,
                srcs.len() > 0,
                self.bit_length == bl,
                old(self).remaining() == Set::new(
                    |p: int| start <= p && member(srcs, bl, p),
                ),
                start <= self.index,
                forall|p: int| start <= p < self.index ==> !member(srcs, bl, p),
            decreases 2 * (self.iters@[0].words@.len() - self.word_pos) + (if self.bits_remaining > 0 {
                1int
            } else {
                0int
            }),
        {
            if self.bits_remaining == 0 {
                match self.fetch() {
                    None => {
                        proof {
                            assert forall|p: int| start <= p implies !member(srcs, bl, p) by {
                                if p >= self.index && member(srcs, bl, p) {
                                    assert(p / 64 >= self.word_pos);
                                    let k = choose|k: int| 0 <= k < srcs.len() && self.word_pos >= srcs[k].words@.len();
                                    assert(self.word_pos <= srcs[k].words@.len());
                                }
                            }
                            assert(old(self).remaining() =~= Set::<int>::empty());
                            assert(self.remaining() =~= Set::<int>::empty());
                        }
                        return None;
                    },
                    Some(filtered) => {
                        self.word_pos = self.word_pos + 1;
                        self.bits_remaining = 64;
                        self.current_bits = filtered;

                    },
                }
            }
            let ghost w = combined_word(srcs, self.word_pos - 1);
            let ghost s: u64 = (64 - self.bits_remaining) as u64;
            let zeros = self.current_bits.trailing_zeros();
            proof {
                vstd::std_specs::bits::axiom_u64_trailing_zeros(self.current_bits);
            }
            if zeros == 64 {
                proof {
                    assert forall|p: int| self.index <= p < 64 * self.word_pos implies !member(srcs, bl, p) by {
                        let j = (p - self.index) as u64;
                        lemma_zero_word_no_bits(j);
                        assert(bit(self.current_bits, j as int) == bit(w, j + s));
                        assert(p / 64 == self.word_pos - 1);
                        assert(p % 64 == s + j);
                    }
                }
                self.index = self.index + self.bits_remaining as usize;
                self.bits_remaining = 0;
                continue;
            }
            let ghost z: u64 = zeros as u64;
            proof {
                assert(bit(self.current_bits, z as int));
                assert(z < self.bits_remaining);
                assert(bit(w, z + s));
                assert forall|p: int| self.index <= p < self.index + z implies !member(srcs, bl, p) by {
                    let j = (p - self.index) as u64;
                    assert((self.current_bits >> j) & 1u64 == 0u64);
                    assert(bit(self.current_bits, j as int) == bit(w, j + s));
                    assert(p / 64 == self.word_pos - 1);
                    assert(p % 64 == s + j);
                }
            }
            let ghost old_remaining = self.bits_remaining as int;
            self.bits_remaining = self.bits_remaining - (zeros + 1);
            if zeros + 1 >= 64 {
                self.current_bits = 0;
            } else {
                let ghost before = self.current_bits;
                self.current_bits = self.current_bits >> ((zeros + 1) as u64);
                proof {
                    assert forall|j: int| 0 <= j < 64 implies #[trigger] bit(self.current_bits, j) == (j
                        < self.bits_remaining && bit(w, j + 64 - self.bits_remaining)) by {
                        lemma_shifted_bit(before, (z + 1) as u64, j as u64);
                        if z + 1 + j < 64 {
                            assert(bit(before, z + 1 + j) == (z + 1 + j < old_remaining && bit(w, z + 1 + j + s)));
                        }
                    }
                }
            }
            self.index = self.index + (zeros as usize + 1);
            let found = self.index - 1;
            proof {
                assert(found / 64 == self.word_pos - 1);
                assert(found % 64 == s + z);
                assert(word_available(srcs, found as int / 64)) by {
                    assert forall|k: int| 0 <= k < srcs.len() implies (found as int) / 64 < (#[trigger] srcs[k]).words@.len() by {
                        assert(self.word_pos <= srcs[k].words@.len());
                    }
                }
            }
            if self.index > self.bit_length as usize {
                self.current_bits = 0;
                self.finished = true;
                proof {
                    assert forall|p: int| start <= p implies !member(srcs, bl, p) by {
                        if p >= found {
                            assert(p >= bl);
                        }
                    }
                    assert(old(self).remaining() =~= Set::<int>::empty());
                    assert(self.remaining() =~= Set::<int>::empty());
                }
                return None;
            }
            proof {
                assert(member(srcs, bl, found as int));
                assert(self.remaining() =~= old(self).remaining().remove(found as int));
            }
            return Some(found);
        }
    }
}

/// Successive positions of an iterator come in strictly increasing order: when `next` reports
/// `p` from `a`, leaving `b`, and then `q` from `b`, `q` is past `p`, and every position still to
/// come after that is past `q`.
pub proof fn lemma_successive_positions_increase(a: BitsetIterator, b: BitsetIterator, p: int, q: int)
    requires
        a.remaining().contains(p),
        forall|x: int| a.remaining().contains(x) ==> p <= x,
        b.remaining() == a.remaining().remove(p),
        b.remaining().contains(q),
        forall|x: int| b.remaining().contains(x) ==> q <= x,
    ensures
        p < q,
        forall|x: int| b.remaining().remove(q).contains(x) ==> q < x && p < x,
{
}

} // verus!
