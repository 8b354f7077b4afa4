//! The mathematical model of a sparse sequence: an ordered list of blocks, each a start
//! index and the run of values stored from there, and the cells that such a list defines.

use vstd::prelude::*;

verus! {

/// A block: the index of its first value, and its values.
pub type Block<T> = (int, Seq<T>);

/// One past the last index of a block.
pub open spec fn block_end<T>(b: Block<T>) -> int {
    b.0 + b.1.len()
}

/// Whether index `i` falls within the span of block `b`.
pub open spec fn covers<T>(b: Block<T>, i: int) -> bool {
    b.0 <= i < block_end(b)
}

/// The block list of a well-formed container of length `len`: every block lies within
/// `0..len`, and every block starts at or after the end of each block before it.
/// Blocks may touch, and a block may be empty.
pub open spec fn ordered<T>(blocks: Seq<Block<T>>, len: int) -> bool {
    &&& forall|k: int|
        0 <= k < blocks.len() ==> 0 <= (#[trigger] blocks[k]).0 && block_end(blocks[k]) <= len
    &&& forall|j: int, k: int|
        0 <= j < k < blocks.len() ==> block_end(#[trigger] blocks[j]) <= (#[trigger] blocks[k]).0
}

/// What a block list holds at index `i`: the value of the block that covers `i`, or
/// nothing where no block does.
pub open spec fn cell_at<T>(blocks: Seq<Block<T>>, i: int) -> Option<T> {
    if exists|k: int| 0 <= k < blocks.len() && covers(#[trigger] blocks[k], i) {
        let k = choose|k: int| 0 <= k < blocks.len() && covers(#[trigger] blocks[k], i);
        Some(blocks[k].1[i - blocks[k].0])
    } else {
        None
    }
}

/// The cells of a container of length `len`, one per index, gaps included.
pub open spec fn cells<T>(blocks: Seq<Block<T>>, len: int) -> Seq<Option<T>> {
    Seq::new(len as nat, |i: int| cell_at(blocks, i))
}

/// `cells` with the indices from `start` on replaced by the values of `data`.
pub open spec fn overlay<T>(cells: Seq<Option<T>>, start: int, data: Seq<T>) -> Seq<Option<T>> {
    Seq::new(
        cells.len(),
        |i: int|
            if start <= i < start + data.len() {
                Some(data[i - start])
            } else {
                cells[i]
            },
    )
}

/// Whether `p` is the sorted position of a new block that starts at `start`: the index of
/// the first block that starts at or after `start`, or the number of blocks if there is none.
pub open spec fn is_insert_index<T>(blocks: Seq<Block<T>>, start: int, p: int) -> bool {
    &&& 0 <= p <= blocks.len()
    &&& forall|k: int| 0 <= k < p ==> (#[trigger] blocks[k]).0 < start
    &&& p < blocks.len() ==> blocks[p].0 >= start
}

/// The sorted position of a new block that starts at `start`.
pub open spec fn insert_index<T>(blocks: Seq<Block<T>>, start: int) -> int {
    choose|p: int| is_insert_index(blocks, start, p)
}

/// Whether a new block of `n` values at `start` fits into a container of length `len`:
/// it ends within the container, every block that starts before it ends at or before
/// `start`, and every other block starts at or after its end.
pub open spec fn accepts<T>(blocks: Seq<Block<T>>, len: int, start: int, n: int) -> bool {
    &&& start + n <= len
    &&& forall|k: int|
        0 <= k < blocks.len() ==> if (#[trigger] blocks[k]).0 < start {
            block_end(blocks[k]) <= start
        } else {
            start + n <= blocks[k].0
        }
}

/// The block list after a new block went in at its sorted position.
pub open spec fn inserted<T>(blocks: Seq<Block<T>>, start: int, data: Seq<T>) -> Seq<Block<T>> {
    blocks.insert(insert_index(blocks, start), (start, data))
}

/// The block list after the blocks of `news` went in one after the other, each at its
/// sorted position.
pub open spec fn inserted_all<T>(blocks: Seq<Block<T>>, news: Seq<Block<T>>) -> Seq<Block<T>>
    decreases news.len(),
{
    if news.len() == 0 {
        blocks
    } else {
        inserted(inserted_all(blocks, news.drop_last()), news.last().0, news.last().1)
    }
}

/// Whether each block of `news` is accepted in its turn.
pub open spec fn accepts_all<T>(blocks: Seq<Block<T>>, len: int, news: Seq<Block<T>>) -> bool
    decreases news.len(),
{
    news.len() == 0 || {
        &&& accepts_all(blocks, len, news.drop_last())
        &&& 0 <= news.last().0
        &&& accepts(
            inserted_all(blocks, news.drop_last()),
            len,
            news.last().0,
            news.last().1.len() as int,
        )
    }
}

/// Only one position is the sorted position of a new block.
pub proof fn lemma_insert_index_unique<T>(blocks: Seq<Block<T>>, start: int, p: int)
    requires
        is_insert_index(blocks, start, p),
    ensures
        insert_index(blocks, start) == p,
{
    let q = insert_index(blocks, start);
    assert(is_insert_index(blocks, start, q));
    if q < p {
        assert(blocks[q].0 < start);
    } else if p < q {
        assert(blocks[p].0 < start);
    }
}

/// In an ordered block list, the block that covers an index decides its cell.
pub proof fn lemma_cell_of_cover<T>(blocks: Seq<Block<T>>, len: int, k: int, i: int)
    requires
        ordered(blocks, len),
        0 <= k < blocks.len(),
        covers(blocks[k], i),
    ensures
        cell_at(blocks, i) == Some(blocks[k].1[i - blocks[k].0]),
{
    let c = choose|c: int| 0 <= c < blocks.len() && covers(#[trigger] blocks[c], i);
    if c < k {
        assert(block_end(blocks[c]) <= blocks[k].0);
    } else if k < c {
        assert(block_end(blocks[k]) <= blocks[c].0);
    }
}

/// A block that is accepted leaves the list ordered, and changes the cells at its own
/// indices and no others.
pub proof fn lemma_inserted<T>(blocks: Seq<Block<T>>, len: int, start: int, data: Seq<T>)
    requires
        ordered(blocks, len),
        0 <= start,
        accepts(blocks, len, start, data.len() as int),
    ensures
        ordered(inserted(blocks, start, data), len),
        cells(inserted(blocks, start, data), len) == overlay(cells(blocks, len), start, data),
{
    let p = insert_index(blocks, start);
    lemma_insert_index_exists(blocks, start);
    let after = inserted(blocks, start, data);
    assert(after.len() == blocks.len() + 1);
    assert(after[p] == (start, data));
    assert forall|k: int| 0 <= k < after.len() implies 0 <= (#[trigger] after[k]).0 && block_end(
        after[k],
    ) <= len by {
        if k < p {
            assert(after[k] == blocks[k]);
        } else if k > p {
            assert(after[k] == blocks[k - 1]);
        }
    }
    assert forall|j: int, k: int| 0 <= j < k < after.len() implies block_end(#[trigger] after[j])
        <= (#[trigger] after[k]).0 by {
        if j < p {
            assert(after[j] == blocks[j]);
        } else if j > p {
            assert(after[j] == blocks[j - 1]);
        }
        if k < p {
            assert(after[k] == blocks[k]);
        } else if k > p {
            assert(after[k] == blocks[k - 1]);
        }
    }
    assert forall|i: int| 0 <= i < len implies cell_at(after, i) == overlay(
        cells(blocks, len),
        start,
        data,
    )[i] by {
        if start <= i < start + data.len() {
            lemma_cell_of_cover(after, len, p, i);
        } else if exists|k: int| 0 <= k < blocks.len() && covers(#[trigger] blocks[k], i) {
            let k = choose|k: int| 0 <= k < blocks.len() && covers(#[trigger] blocks[k], i);
            lemma_cell_of_cover(blocks, len, k, i);
            if k < p {
                assert(after[k] == blocks[k]);
                lemma_cell_of_cover(after, len, k, i);
            } else {
                assert(after[k + 1] == blocks[k]);
                lemma_cell_of_cover(after, len, k + 1, i);
            }
        } else {
            if exists|k: int| 0 <= k < after.len() && covers(#[trigger] after[k], i) {
                let k = choose|k: int| 0 <= k < after.len() && covers(#[trigger] after[k], i);
                if k < p {
                    assert(after[k] == blocks[k]);
                } else if k > p {
                    assert(after[k] == blocks[k - 1]);
                }
                assert(false);
            }
        }
    }
    assert(cells(after, len) =~= overlay(cells(blocks, len), start, data));
}

/// Every block list has a sorted position for a new block.
pub proof fn lemma_insert_index_exists<T>(blocks: Seq<Block<T>>, start: int)
    ensures
        is_insert_index(blocks, start, insert_index(blocks, start)),
{
    lemma_first_at_or_after(blocks, start, 0);
}

/// From any prefix of blocks that start before `start`, a sorted position is reached.
proof fn lemma_first_at_or_after<T>(blocks: Seq<Block<T>>, start: int, p: int)
    requires
        0 <= p <= blocks.len(),
        forall|k: int| 0 <= k < p ==> (#[trigger] blocks[k]).0 < start,
    ensures
        exists|q: int| is_insert_index(blocks, start, q),
    decreases blocks.len() - p,
{
    if p < blocks.len() && blocks[p].0 < start {
        lemma_first_at_or_after(blocks, start, p + 1);
    } else {
        assert(is_insert_index(blocks, start, p));
    }
}

/// In an ordered block list a cell holds a value exactly where a block covers its index,
/// and the value is that of the block.
pub proof fn lemma_cell_iff_covered<T>(blocks: Seq<Block<T>>, len: int, i: int)
    requires
        ordered(blocks, len),
    ensures
        cell_at(blocks, i) is Some <==> exists|k: int|
            0 <= k < blocks.len() && covers(#[trigger] blocks[k], i),
        forall|k: int|
            0 <= k < blocks.len() && covers(#[trigger] blocks[k], i) ==> cell_at(blocks, i)
                == Some(blocks[k].1[i - blocks[k].0]),
{
    assert forall|k: int| 0 <= k < blocks.len() && covers(#[trigger] blocks[k], i) implies cell_at(
        blocks,
        i,
    ) == Some(blocks[k].1[i - blocks[k].0]) by {
        lemma_cell_of_cover(blocks, len, k, i);
    }
}

/// After any series of accepted insertions into an empty container of length `len`, the
/// container has `len` cells, and a cell holds a value exactly where one of the inserted
/// blocks covers its index: the value that was inserted there.
pub proof fn lemma_cells_after_insertions<T>(len: int, news: Seq<Block<T>>, i: int)
    requires
        0 <= i < len,
        accepts_all(Seq::<Block<T>>::empty(), len, news),
    ensures
        ordered(inserted_all(Seq::<Block<T>>::empty(), news), len),
        cells(inserted_all(Seq::<Block<T>>::empty(), news), len).len() == len,
        cell_at(inserted_all(Seq::<Block<T>>::empty(), news), i) is Some <==> exists|j: int|
            0 <= j < news.len() && covers(#[trigger] news[j], i),
        forall|j: int|
            0 <= j < news.len() && covers(#[trigger] news[j], i) ==> cell_at(
                inserted_all(Seq::<Block<T>>::empty(), news),
                i,
            ) == Some(news[j].1[i - news[j].0]),
    decreases news.len(),
{
    let none = Seq::<Block<T>>::empty();
    let after = inserted_all(none, news);
    if news.len() > 0 {
        let earlier = news.drop_last();
        let before = inserted_all(none, earlier);
        let last = news.last();
        lemma_cells_after_insertions(len, earlier, i);
        lemma_inserted(before, len, last.0, last.1);
        assert(cell_at(after, i) == cells(after, len)[i]);
        assert(cell_at(before, i) == cells(before, len)[i]);
        if covers(last, i) {
            assert(covers(news[news.len() - 1], i));
            if cell_at(before, i) is Some {
                lemma_overlap_rejected(before, len, last.0, last.1.len() as int, i);
            }
        } else if cell_at(before, i) is Some {
            let j = choose|j: int| 0 <= j < earlier.len() && covers(#[trigger] earlier[j], i);
            assert(covers(news[j], i));
        }
        assert forall|j: int| 0 <= j < news.len() && covers(#[trigger] news[j], i) implies cell_at(
            after,
            i,
        ) == Some(news[j].1[i - news[j].0]) by {
            if j < news.len() - 1 {
                assert(covers(earlier[j], i));
            }
        }
        if cell_at(after, i) is None {
            assert forall|j: int| 0 <= j < news.len() implies !covers(#[trigger] news[j], i) by {
                if j < news.len() - 1 && covers(news[j], i) {
                    assert(covers(earlier[j], i));
                }
            }
        }
    }
}

/// A new block that would cover an index which already holds a value is not accepted.
pub proof fn lemma_overlap_rejected<T>(
    blocks: Seq<Block<T>>,
    len: int,
    start: int,
    n: int,
    i: int,
)
    requires
        start <= i < start + n,
        cell_at(blocks, i) is Some,
    ensures
        !accepts(blocks, len, start, n),
{
    let k = choose|k: int| 0 <= k < blocks.len() && covers(#[trigger] blocks[k], i);
    assert(covers(blocks[k], i));
}

/// Of two blocks that share an index, the one that is inserted second is not accepted,
/// whichever of the two it is.
pub proof fn lemma_overlapping_blocks_rejected<T>(
    blocks: Seq<Block<T>>,
    len: int,
    first: Block<T>,
    second: Block<T>,
    i: int,
)
    requires
        ordered(blocks, len),
        0 <= first.0,
        accepts(blocks, len, first.0, first.1.len() as int),
        covers(first, i),
        covers(second, i),
    ensures
        !accepts(inserted(blocks, first.0, first.1), len, second.0, second.1.len() as int),
{
    lemma_inserted(blocks, len, first.0, first.1);
    let after = inserted(blocks, first.0, first.1);
    assert(cells(after, len)[i] == cell_at(after, i));
    lemma_overlap_rejected(after, len, second.0, second.1.len() as int, i);
}

/// Where no stored block is empty, a new block of at least one value is accepted if it
/// ends within the container and none of its indices holds a value yet.
pub proof fn lemma_free_space_accepted<T>(blocks: Seq<Block<T>>, len: int, start: int, n: int)
    requires
        ordered(blocks, len),
        0 <= start,
        0 < n,
        start + n <= len,
        forall|k: int| 0 <= k < blocks.len() ==> (#[trigger] blocks[k]).1.len() > 0,
        forall|i: int| start <= i < start + n ==> cell_at(blocks, i) is None,
    ensures
        accepts(blocks, len, start, n),
{
    assert forall|k: int| 0 <= k < blocks.len() implies if (#[trigger] blocks[k]).0 < start {
        block_end(blocks[k]) <= start
    } else {
        start + n <= blocks[k].0
    } by {
        if blocks[k].0 < start {
            if block_end(blocks[k]) > start {
                lemma_cell_of_cover(blocks, len, k, start);
            }
        } else if blocks[k].0 < start + n {
            lemma_cell_of_cover(blocks, len, k, blocks[k].0);
        }
    }
}

} // verus!
