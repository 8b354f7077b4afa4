//! A sequence of fixed length that stores only the runs of indices that hold a value.

use crate::blocks::{accepts, block_end, cells, covers, inserted, lemma_cell_of_cover,
    lemma_insert_index_unique, lemma_inserted, ordered, overlay, Block};
use std::ops::Range;
use vstd::prelude::*;

verus! {

/// A sequence of fixed length of which only some runs of indices, the blocks, hold a
/// value. The gaps between the blocks take no storage.
#[derive(Debug)]
pub struct SparseVec<T> {
    len: usize,
    /// Each block starts at an index of the sequence and runs to the end of its `Vec`.
    blocks: Vec<(usize, Vec<T>)>,
}

/// An insertion was refused: the new block would reach past the end of the sequence, or
/// does not fit between the blocks that are there.
#[derive(Debug, Clone, Copy, PartialEq, Eq, Structural)]
pub struct Overlap;

/// The stored blocks as mathematical values.
spec fn block_list<T>(stored: Seq<(usize, Vec<T>)>) -> Seq<Block<T>> {
    Seq::new(stored.len(), |k: int| (stored[k].0 as int, stored[k].1@))
}

impl<T> View for SparseVec<T> {
    type V = Seq<Option<T>>;

    /// The cells of the sequence, one per index: the value where a block covers the
    /// index, nothing in a gap.
    open spec fn view(&self) -> Seq<Option<T>> {
        cells(self.blocks(), self.spec_len() as int)
    }
}

impl<T> SparseVec<T> {
    /// The fixed length of the sequence.
    pub closed spec fn spec_len(&self) -> usize {
        self.len
    }

    /// The stored blocks in order.
    pub closed spec fn blocks(&self) -> Seq<Block<T>> {
        block_list(self.blocks@)
    }

    /// The blocks lie within the sequence, in order, and do not overlap.
    #[verifier::type_invariant]
    pub open spec fn wf(&self) -> bool {
        ordered(self.blocks(), self.spec_len() as int)
    }

    /// Each stored block ends within the sequence.
    proof fn lemma_stored_within(&self)
        requires
            self.wf(),
        ensures
            self.blocks().len() == self.blocks@.len(),
            forall|k: int|
                0 <= k < self.blocks@.len() ==> (#[trigger] self.blocks@[k]).0
                    + self.blocks@[k].1@.len() <= self.len,
    {
        assert forall|k: int| 0 <= k < self.blocks@.len() implies (#[trigger] self.blocks@[k]).0
            + self.blocks@[k].1@.len() <= self.len by {
            assert(block_end(self.blocks()[k]) <= self.len);
        }
    }

    /// An empty sequence of length `len`. Nothing is allocated for its cells.
    pub fn with_len(len: usize) -> (s: Self)
        ensures
            s.wf(),
            s.spec_len() == len,
            s.blocks() == Seq::<Block<T>>::empty(),
            s@ == Seq::new(len as nat, |i: int| None::<T>),
    {
        let s = SparseVec { len, blocks: Vec::new() };
        assert(s.blocks() =~= Seq::<Block<T>>::empty());
        assert(s@ =~= Seq::new(len as nat, |i: int| None::<T>));
        s
    }

    /// The fixed length of the sequence.
    #[verifier::when_used_as_spec(spec_len)]
    pub fn len(&self) -> (n: usize)
        ensures
            n == self.spec_len(),
    {
        self.len
    }

    /// Stores `vec` as a new block that starts at index `start`, if it fits: within the
    /// sequence and between the blocks that are there. A block that does not fit is
    /// refused and the sequence stays as it was.
    pub fn insert_vec(&mut self, start: usize, vec: Vec<T>) -> (r: Result<(), Overlap>)
        ensures
            r is Ok <==> accepts(
                old(self).blocks(),
                old(self).spec_len() as int,
                start as int,
                vec@.len() as int,
            ),
            r is Ok ==> final(self).blocks() == inserted(old(self).blocks(), start as int, vec@),
            r is Ok ==> final(self)@ == overlay(old(self)@, start as int, vec@),
            r is Err ==> final(self).blocks() == old(self).blocks(),
            r is Err ==> final(self)@ == old(self)@,
            final(self).spec_len() == old(self).spec_len(),
            final(self).wf(),
    {
        proof {
            use_type_invariant(&*self);
        }
        let ghost before = self.blocks();
        let count = self.blocks.len();
        let mut insert_pos: usize = 0;
        while insert_pos < count && self.blocks[insert_pos].0 < start
            invariant
                count == self.blocks@.len(),
                insert_pos <= count,
                before == self.blocks(),
                forall|k: int| 0 <= k < insert_pos ==> (#[trigger] before[k]).0 < start,
            decreases count - insert_pos,
        {
            insert_pos += 1;
        }
        proof {
            lemma_insert_index_unique(before, start as int, insert_pos as int);
        }
        if insert_pos > 0 {
            let prev = &self.blocks[insert_pos - 1];
            assert(before[insert_pos - 1] == (prev.0 as int, prev.1@));
            if start < prev.0 + prev.1.len() {
                return Err(Overlap);
            }
        }
        let end = match start.checked_add(vec.len()) {
            Some(end) => end,
            None => {
                return Err(Overlap);
            },
        };
        if end > self.len {
            return Err(Overlap);
        }
        if insert_pos < count {
            assert(before[insert_pos as int].0 == self.blocks[insert_pos as int].0);
            if end > self.blocks[insert_pos].0 {
                return Err(Overlap);
            }
        }
        proof {
            assert forall|k: int| 0 <= k < before.len() implies if (#[trigger] before[k]).0
                < start {
                before[k].0 + before[k].1.len() <= start
            } else {
                end <= before[k].0
            } by {
                if k < insert_pos {
                    if k < insert_pos - 1 {
                        assert(before[k].0 + before[k].1.len() <= before[insert_pos - 1].0);
                    }
                } else if k > insert_pos {
                    assert(before[insert_pos as int].0 + before[insert_pos as int].1.len()
                        <= before[k].0);
                }
            }
            lemma_inserted(before, self.len as int, start as int, vec@);
        }
        let ghost data = vec@;
        let mut blocks = Vec::new();
        std::mem::swap(&mut blocks, &mut self.blocks);
        blocks.insert(insert_pos, (start, vec));
        assert(block_list(blocks@) =~= inserted(before, start as int, data));
        self.blocks = blocks;
        Ok(())
    }
}

impl<T> From<Vec<T>> for SparseVec<T> {
    /// A sequence as long as `vec` that holds the values of `vec` in one block.
    fn from(vec: Vec<T>) -> (s: Self)
        ensures
            s.wf(),
            s.spec_len() == vec@.len(),
            s.blocks() == seq![(0int, vec@)],
            s@ == vec@.map_values(|value: T| Some(value)),
    {
        let ghost data = vec@;
        let len = vec.len();
        let mut blocks = Vec::new();
        blocks.push((0usize, vec));
        assert(block_list(blocks@) =~= seq![(0int, data)]);
        let s = SparseVec { len, blocks };
        assert forall|i: int| 0 <= i < len implies (#[trigger] s@[i]) == Some(data[i]) by {
            lemma_cell_of_cover(s.blocks(), len as int, 0, i);
        }
        assert(s@ =~= data.map_values(|value: T| Some(value)));
        s
    }
}

impl<T> vstd::std_specs::convert::FromSpecImpl<Vec<T>> for SparseVec<T> {
    /// The result of `from` is described by its own `ensures`, not by `from_spec`.
    open spec fn obeys_from_spec() -> bool {
        false
    }

    open spec fn from_spec(v: Vec<T>) -> Self {
        arbitrary()
    }
}

/// What an item of an iteration stands for: the value it refers to, or nothing.
pub open spec fn cell_of<T>(item: Option<&T>) -> Option<T> {
    match item {
        Some(value) => Some(*value),
        None => None,
    }
}

/// What is left of `s` after its first `n` items, or nothing if it has fewer.
pub open spec fn skipped<A>(s: Seq<A>, n: int) -> Seq<A> {
    if n <= s.len() {
        s.skip(n)
    } else {
        Seq::empty()
    }
}

/// The first `n` items of `s`, or all of `s` if it has fewer.
pub open spec fn taken<A>(s: Seq<A>, n: int) -> Seq<A> {
    if n <= s.len() {
        s.take(n)
    } else {
        s
    }
}

/// The number of indices in `start..end`.
pub open spec fn range_len(start: int, end: int) -> int {
    if start <= end {
        end - start
    } else {
        0
    }
}

/// A pass over a range of the indices of a `SparseVec`, in order and gaps included.
pub struct Iter<'i, T> {
    vec: &'i SparseVec<T>,
    /// where the iteration ends
    end: usize,
    /// where the next item will come from
    position: usize,
    /// the first block that is not known to lie behind `position`
    block: usize,
}

impl<'i, T> Iter<'i, T> {
    /// The cells of the sequence that is iterated over.
    pub closed spec fn cells(&self) -> Seq<Option<T>> {
        self.vec@
    }

    /// The index that the next item comes from.
    pub closed spec fn position(&self) -> int {
        self.position as int
    }

    /// The index at which the iteration ends.
    pub closed spec fn end(&self) -> int {
        self.end as int
    }

    /// The cells that are still to come.
    pub open spec fn remaining(&self) -> Seq<Option<T>> {
        self.cells().subrange(self.position(), self.end())
    }

    /// The range lies within the sequence, and every block before the cursor ends at or
    /// before the current position.
    #[verifier::type_invariant]
    pub closed spec fn wf(&self) -> bool {
        &&& self.vec.wf()
        &&& self.position <= self.end <= self.vec.len
        &&& self.block <= self.vec.blocks().len()
        &&& forall|k: int|
            0 <= k < self.block ==> block_end(#[trigger] self.vec.blocks()[k]) <= self.position
    }

    /// A pass over a range yields what a pass over every index yields once `start` items
    /// are skipped and as many taken as `start..end` is long.
    pub proof fn lemma_range_of_all(all: Self, part: Self, start: int, end: int)
        requires
            0 <= start,
            0 <= end,
            all.cells() == part.cells(),
            all.position() == 0,
            all.end() == all.cells().len(),
            part.end() == if end <= part.cells().len() {
                end
            } else {
                part.cells().len() as int
            },
            part.position() == if start <= part.end() {
                start
            } else {
                part.end()
            },
        ensures
            part.remaining() == taken(skipped(all.remaining(), start), range_len(start, end)),
    {
        assert(part.remaining() =~= taken(skipped(all.remaining(), start), range_len(start, end)));
    }

    /// Moves the cursor past the blocks that end at or before the current position.
    fn next_block(&mut self)
        ensures
            final(self).vec == old(self).vec,
            final(self).end == old(self).end,
            final(self).position == old(self).position,
            final(self).block == final(self).vec.blocks().len() || block_end(
                final(self).vec.blocks()[final(self).block as int],
            ) > final(self).position,
    {
        proof {
            use_type_invariant(&*self);
        }
        let vec = self.vec;
        let count = vec.blocks.len();
        proof {
            vec.lemma_stored_within();
        }
        while self.block < count && vec.blocks[self.block].0 + vec.blocks[self.block].1.len()
            <= self.position
            invariant
                vec == self.vec,
                vec.wf(),
                self.wf(),
                count == vec.blocks().len(),
                count == vec.blocks@.len(),
                forall|k: int|
                    0 <= k < count ==> (#[trigger] vec.blocks@[k]).0 + vec.blocks@[k].1@.len()
                        <= vec.len,
                self.end == old(self).end,
                self.position == old(self).position,
            decreases count - self.block,
        {
            self.block += 1;
        }
    }

    /// The next item of the iteration: the value at the current index, or `None` where
    /// the index lies in a gap. Once the range is exhausted there is no item.
    pub fn next(&mut self) -> (r: Option<Option<&'i T>>)
        ensures
            match r {
                Some(item) => {
                    &&& old(self).position() < old(self).end()
                    &&& cell_of(item) == old(self).cells()[old(self).position()]
                    &&& final(self).position() == old(self).position() + 1
                },
                None => {
                    &&& old(self).position() >= old(self).end()
                    &&& final(self).position() == old(self).position()
                },
            },
            final(self).cells() == old(self).cells(),
            final(self).end() == old(self).end(),
            final(self).position() <= final(self).end() <= final(self).cells().len(),
    {
        proof {
            use_type_invariant(&*self);
        }
        if self.position >= self.end {
            return None;
        }
        self.next_block();
        proof {
            use_type_invariant(&*self);
        }
        let vec = self.vec;
        let ghost blocks = vec.blocks();
        let ghost at = self.position as int;
        let item = if self.block < vec.blocks.len() && vec.blocks[self.block].0 <= self.position {
            let block = &vec.blocks[self.block];
            proof {
                lemma_cell_of_cover(blocks, vec.len as int, self.block as int, at);
            }
            Some(&block.1[self.position - block.0])
        } else {
            assert forall|k: int| 0 <= k < blocks.len() implies !covers(
                #[trigger] blocks[k],
                at,
            ) by {
                if k > self.block {
                    assert(block_end(blocks[self.block as int]) <= blocks[k].0);
                }
            }
            None
        };
        self.position += 1;
        Some(item)
    }

    /// The items that are still to come, in order.
    pub fn collect(self) -> (items: Vec<Option<&'i T>>)
        ensures
            items@.len() == self.remaining().len(),
            forall|j: int|
                0 <= j < items@.len() ==> cell_of(#[trigger] items@[j]) == self.remaining()[j],
    {
        proof {
            use_type_invariant(&self);
        }
        let ghost start = self.position();
        let mut rest = self;
        let mut items: Vec<Option<&'i T>> = Vec::new();
        loop
            invariant
                rest.cells() == self.cells(),
                rest.end() == self.end(),
                start <= rest.position() <= rest.end() <= rest.cells().len(),
                items@.len() == rest.position() - start,
                forall|j: int|
                    0 <= j < items@.len() ==> cell_of(#[trigger] items@[j]) == self.cells()[start
                        + j],
            ensures
                rest.position() == rest.end(),
            decreases rest.end() - rest.position(),
        {
            match rest.next() {
                Some(item) => {
                    items.push(item);
                },
                None => {
                    break ;
                },
            }
        }
        items
    }
}

impl<T> SparseVec<T> {
    /// A pass over every index of the sequence.
    pub fn iter(&self) -> (it: Iter<'_, T>)
        ensures
            it.cells() == self@,
            it.position() == 0,
            it.end() == self.spec_len(),
            it.remaining() == self@,
    {
        proof {
            use_type_invariant(self);
        }
        let it = Iter { vec: self, end: self.len, position: 0, block: 0 };
        assert(it.remaining() =~= self@);
        it
    }

    /// A pass over the indices of `idxs` that lie within the sequence: the items that
    /// `iter` yields once `idxs.start` of them are skipped, as many as `idxs` is long.
    pub fn iter_range(&self, idxs: Range<usize>) -> (it: Iter<'_, T>)
        ensures
            it.cells() == self@,
            it.end() == if idxs.end <= self.spec_len() {
                idxs.end
            } else {
                self.spec_len()
            },
            it.position() == if idxs.start <= it.end() {
                idxs.start as int
            } else {
                it.end()
            },
            it.remaining() == taken(
                skipped(self@, idxs.start as int),
                range_len(idxs.start as int, idxs.end as int),
            ),
    {
        proof {
            use_type_invariant(self);
        }
        let end = if idxs.end <= self.len {
            idxs.end
        } else {
            self.len
        };
        let position = if idxs.start <= end {
            idxs.start
        } else {
            end
        };
        let mut it = Iter { vec: self, end, position, block: 0 };
        // discard blocks that come before the start
        it.next_block();
        assert(it.remaining() =~= taken(
            skipped(self@, idxs.start as int),
            range_len(idxs.start as int, idxs.end as int),
        ));
        it
    }
}

} // verus!
