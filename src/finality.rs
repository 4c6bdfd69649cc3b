use vstd::prelude::*;

use crate::block::BlockScopedData;

verus! {

/// Number of unfinalized blocks kept so that a reorganization can be undone.
pub const BUFFER_LEN: usize = 12;

/// Index of the last block of `s` whose number is at most `height`, or -1.
pub open spec fn last_final_index(s: Seq<BlockScopedData>, height: u64) -> int
    decreases s.len(),
{
    if s.len() == 0 {
        -1
    } else if s.last().clock.number <= height {
        s.len() - 1
    } else {
        last_final_index(s.drop_last(), height)
    }
}

/// How many of the oldest buffered blocks leave the buffer when a block
/// announcing `height` as final arrives: every block up to the last final
/// one, or else one more than the excess over capacity.
pub open spec fn drain_count(s: Seq<BlockScopedData>, height: u64) -> int {
    let k = last_final_index(s, height);
    if k >= 0 {
        k + 1
    } else if s.len() >= BUFFER_LEN {
        s.len() - BUFFER_LEN + 1
    } else {
        0
    }
}

/// What accepting `data` into buffer `s` emits, and the buffer after it.
pub open spec fn accept_spec(s: Seq<BlockScopedData>, data: BlockScopedData) -> (
    Seq<BlockScopedData>,
    Seq<BlockScopedData>,
) {
    let c = drain_count(s, data.final_block_height);
    if data.is_final() {
        (s.take(c).push(data), s.skip(c))
    } else {
        (s.take(c), s.skip(c).push(data))
    }
}

/// Index of the last block of `s` numbered `n`, or -1.
pub open spec fn last_index_of(s: Seq<BlockScopedData>, n: u64) -> int
    decreases s.len(),
{
    if s.len() == 0 {
        -1
    } else if s.last().clock.number == n {
        s.len() - 1
    } else {
        last_index_of(s.drop_last(), n)
    }
}

/// The buffer after an undo back to block `n`: everything after the last
/// block numbered `n` is dropped; without such a block nothing changes.
pub open spec fn undo_spec(s: Seq<BlockScopedData>, n: u64) -> Seq<BlockScopedData> {
    let k = last_index_of(s, n);
    if k >= 0 {
        s.take(k + 1)
    } else {
        s
    }
}

/// Block numbers strictly increase along `s`.
pub open spec fn strictly_increasing(s: Seq<BlockScopedData>) -> bool {
    forall|i: int, j: int| 0 <= i < j < s.len() ==> s[i].clock.number < s[j].clock.number
}

/// Feeding `inputs` one by one into an empty buffer: all that was emitted,
/// in order, and the buffer left at the end.
pub open spec fn run(inputs: Seq<BlockScopedData>) -> (Seq<BlockScopedData>, Seq<BlockScopedData>)
    decreases inputs.len(),
{
    if inputs.len() == 0 {
        (Seq::empty(), Seq::empty())
    } else {
        let (emitted, buffer) = run(inputs.drop_last());
        let (more, next) = accept_spec(buffer, inputs.last());
        (emitted + more, next)
    }
}

proof fn lemma_last_final_index(s: Seq<BlockScopedData>, height: u64, i: int)
    requires
        0 <= i <= s.len(),
        forall|j: int| i <= j < s.len() ==> s[j].clock.number > height,
        i == 0 || s[i - 1].clock.number <= height,
    ensures
        last_final_index(s, height) == i - 1,
    decreases s.len(),
{
    if s.len() > 0 && i < s.len() {
        lemma_last_final_index(s.drop_last(), height, i);
    }
}

proof fn lemma_last_final_index_bounds(s: Seq<BlockScopedData>, height: u64)
    ensures
        -1 <= last_final_index(s, height) < s.len(),
        last_final_index(s, height) >= 0 ==> s[last_final_index(s, height)].clock.number
            <= height,
        forall|j: int|
            last_final_index(s, height) < j < s.len() ==> s[j].clock.number > height,
    decreases s.len(),
{
    if s.len() > 0 && s.last().clock.number > height {
        lemma_last_final_index_bounds(s.drop_last(), height);
        assert forall|j: int| last_final_index(s, height) < j < s.len() implies s[j].clock.number
            > height by {
            if j < s.len() - 1 {
                assert(s[j] == s.drop_last()[j]);
            }
        }
    }
}

proof fn lemma_last_index_of(s: Seq<BlockScopedData>, n: u64, i: int)
    requires
        0 <= i <= s.len(),
        forall|j: int| i <= j < s.len() ==> s[j].clock.number != n,
        i == 0 || s[i - 1].clock.number == n,
    ensures
        last_index_of(s, n) == i - 1,
    decreases s.len(),
{
    if s.len() > 0 && i < s.len() {
        lemma_last_index_of(s.drop_last(), n, i);
    }
}

proof fn lemma_last_index_of_bounds(s: Seq<BlockScopedData>, n: u64)
    ensures
        -1 <= last_index_of(s, n) < s.len(),
        last_index_of(s, n) >= 0 ==> s[last_index_of(s, n)].clock.number == n,
        last_index_of(s, n) < 0 ==> forall|j: int| 0 <= j < s.len() ==> s[j].clock.number != n,
    decreases s.len(),
{
    if s.len() > 0 && s.last().clock.number != n {
        lemma_last_index_of_bounds(s.drop_last(), n);
        assert forall|j: int| last_index_of(s, n) < 0 && 0 <= j < s.len() implies s[j].clock.number
            != n by {
            if j < s.len() - 1 {
                assert(s[j] == s.drop_last()[j]);
            }
        }
    }
}

/// At most `BUFFER_LEN` blocks stay buffered, whatever sequence of blocks
/// was fed in.
pub proof fn lemma_run_stays_bounded(inputs: Seq<BlockScopedData>)
    ensures
        run(inputs).1.len() <= BUFFER_LEN,
    decreases inputs.len(),
{
    if inputs.len() > 0 {
        lemma_run_stays_bounded(inputs.drop_last());
        let b = run(inputs.drop_last()).1;
        lemma_last_final_index_bounds(b, inputs.last().final_block_height);
    }
}

/// When blocks arrive with strictly increasing numbers, what has been
/// emitted so far followed by what is still buffered is exactly the input,
/// so the emitted blocks are a prefix of the input in the same order.
pub proof fn lemma_run_emits_prefix(inputs: Seq<BlockScopedData>)
    requires
        strictly_increasing(inputs),
    ensures
        run(inputs).0 + run(inputs).1 == inputs,
        run(inputs).0.is_prefix_of(inputs),
    decreases inputs.len(),
{
    if inputs.len() > 0 {
        let prev = inputs.drop_last();
        assert(strictly_increasing(prev)) by {
            assert forall|i: int, j: int| 0 <= i < j < prev.len() implies prev[i].clock.number
                < prev[j].clock.number by {
                assert(prev[i] == inputs[i] && prev[j] == inputs[j]);
            }
        }
        lemma_run_emits_prefix(prev);
        let (e, b) = run(prev);
        let d = inputs.last();
        let h = d.final_block_height;
        let c = drain_count(b, h);
        lemma_last_final_index_bounds(b, h);
        assert(0 <= c <= b.len());
        if d.is_final() && b.len() > 0 {
            assert(b.last() == prev[e.len() + b.len() - 1]);
            assert(b.last().clock.number < d.clock.number);
            assert(last_final_index(b, h) == b.len() - 1);
            assert(b.skip(c) =~= Seq::<BlockScopedData>::empty());
        }
        assert(inputs =~= prev.push(d));
        assert(b.take(c) + b.skip(c) =~= b);
        if d.is_final() {
            assert(b.take(c) =~= b);
            assert(e + b.take(c).push(d) =~= (e + b).push(d));
            assert(e + b.take(c).push(d) + b.skip(c) =~= inputs);
        } else {
            assert(e + b.take(c) + b.skip(c).push(d) =~= (e + b).push(d));
        }
    }
}

/// After an undo back to block `n`, no buffered block is numbered above
/// `n`, provided the buffered numbers increase and either a block numbered
/// `n` is buffered or none is numbered above `n`.
pub proof fn lemma_undo_drops_later_blocks(s: Seq<BlockScopedData>, n: u64)
    requires
        strictly_increasing(s),
        (exists|j: int| 0 <= j < s.len() && s[j].clock.number == n) || (forall|j: int|
            0 <= j < s.len() ==> s[j].clock.number <= n),
    ensures
        forall|j: int| 0 <= j < undo_spec(s, n).len() ==> undo_spec(s, n)[j].clock.number <= n,
{
    lemma_last_index_of_bounds(s, n);
    let k = last_index_of(s, n);
    if k >= 0 {
        assert forall|j: int| 0 <= j < undo_spec(s, n).len() implies undo_spec(s, n)[j].clock.number
            <= n by {
            assert(undo_spec(s, n)[j] == s[j]);
            if j < k {
                assert(s[j].clock.number < s[k].clock.number);
            }
        }
    }
}

/// The window of recent blocks that are not final yet.
pub struct FinalityBuffer {
    blocks: Vec<BlockScopedData>,
}

impl View for FinalityBuffer {
    type V = Seq<BlockScopedData>;

    closed spec fn view(&self) -> Seq<BlockScopedData> {
        self.blocks@
    }
}

impl FinalityBuffer {
    /// The buffer holds at most `BUFFER_LEN` blocks.
    pub open spec fn wf(&self) -> bool {
        self@.len() <= BUFFER_LEN
    }

    pub fn new() -> (r: FinalityBuffer)
        ensures
            r@ == Seq::<BlockScopedData>::empty(),
            r.wf(),
    {
        FinalityBuffer { blocks: Vec::new() }
    }

    /// A buffer that already holds `blocks`, oldest first.
    pub fn from_blocks(blocks: Vec<BlockScopedData>) -> (r: FinalityBuffer)
        requires
            blocks@.len() <= BUFFER_LEN,
        ensures
            r@ == blocks@,
            r.wf(),
    {
        FinalityBuffer { blocks }
    }

    pub fn len(&self) -> (r: usize)
        ensures
            r == self@.len(),
    {
        self.blocks.len()
    }

    /// The numbers of the buffered blocks, oldest first.
    pub fn numbers(&self) -> (r: Vec<u64>)
        ensures
            r@.len() == self@.len(),
            forall|i: int| 0 <= i < r@.len() ==> r@[i] == self@[i].clock.number,
    {
        let mut r: Vec<u64> = Vec::new();
        let mut i: usize = 0;
        while i < self.blocks.len()
            invariant
                i <= self.blocks@.len(),
                r@.len() == i,
                forall|j: int| 0 <= j < i ==> r@[j] == self.blocks@[j].clock.number,
            decreases self.blocks@.len() - i,
        {
            r.push(self.blocks[i].clock.number);
            i = i + 1;
        }
        r
    }

    /// Takes in a new block and returns, oldest first, the blocks that leave
    /// the buffer: those that have become final, or the oldest one when the
    /// buffer is full and nothing became final. A block that is final on
    /// arrival is emitted at once instead of being buffered.
    pub fn accept(&mut self, data: BlockScopedData) -> (emitted: Vec<BlockScopedData>)
        requires
            old(self).wf(),
        ensures
            (emitted@, final(self)@) == accept_spec(old(self)@, data),
            final(self).wf(),
            data.is_final() ==> emitted@.len() > 0 && emitted@.last() == data,
    {
        let height = data.final_block_height;
        let ghost s = self.blocks@;
        let mut i: usize = self.blocks.len();
        while i > 0 && self.blocks[i - 1].clock.number > height
            invariant
                self.blocks@ == s,
                i <= s.len(),
                forall|j: int| i <= j < s.len() ==> s[j].clock.number > height,
            decreases i,
        {
            i = i - 1;
        }
        proof {
            lemma_last_final_index(s, height, i as int);
        }
        let count: usize = if i > 0 {
            i
        } else if self.blocks.len() >= BUFFER_LEN {
            self.blocks.len() - BUFFER_LEN + 1
        } else {
            0
        };
        assert(count == drain_count(s, height));
        let mut emitted = self.blocks.split_off(count);
        std::mem::swap(&mut emitted, &mut self.blocks);
        if data.clock.number <= height {
            emitted.push(data);
        } else {
            self.blocks.push(data);
        }
        proof {
            lemma_last_final_index_bounds(s, height);
            if data.is_final() {
                assert(emitted@.last() == data);
            }
        }
        emitted
    }

    /// Drops every block after the last one numbered `last_valid`; does
    /// nothing when no buffered block has that number.
    pub fn undo(&mut self, last_valid: u64)
        requires
            old(self).wf(),
        ensures
            final(self)@ == undo_spec(old(self)@, last_valid),
            final(self).wf(),
    {
        let ghost s = self.blocks@;
        let mut i: usize = self.blocks.len();
        while i > 0 && self.blocks[i - 1].clock.number != last_valid
            invariant
                self.blocks@ == s,
                i <= s.len(),
                forall|j: int| i <= j < s.len() ==> s[j].clock.number != last_valid,
            decreases i,
        {
            i = i - 1;
        }
        proof {
            lemma_last_index_of(s, last_valid, i as int);
        }
        if i > 0 {
            self.blocks.truncate(i);
        }
    }
}

} // verus!
