use sparse_view::sparse_vec::{Overlap, SparseVec};

fn values<T: Copy>(items: Vec<Option<&T>>) -> Vec<Option<T>> {
    items.into_iter().map(|o| o.copied()).collect()
}

#[test]
fn create_large_empty() {
    SparseVec::<String>::with_len(usize::MAX);
}

#[test]
fn iterate_empty() {
    assert_eq!(
        SparseVec::<u32>::with_len(5).iter().collect(),
        vec![None, None, None, None, None]
    );
}

#[test]
fn iterate_full() {
    assert_eq!(
        SparseVec::<u32>::from(vec![1, 2, 3, 4, 5])
            .iter()
            .collect()
            .into_iter()
            .map(|o| o.copied())
            .collect::<Vec<_>>(),
        (1..=5).map(Some).collect::<Vec<_>>()
    );
}

#[test]
fn gapped_blocks() {
    let mut vec: SparseVec<u8> = SparseVec::with_len(5);
    println!("{:?}", &vec);
    vec.insert_vec(0, vec![1, 2]).unwrap();
    println!("{:?}", &vec);
    vec.insert_vec(3, vec![4, 5]).unwrap();
    println!("{:?}", &vec);
    assert_eq!(
        vec.iter()
            .collect()
            .into_iter()
            .map(|o| o.copied())
            .collect::<Vec<_>>(),
        vec![Some(1), Some(2), None, Some(4), Some(5)]
    );
}

#[test]
fn following_blocks() {
    let mut vec: SparseVec<u8> = SparseVec::with_len(5);
    vec.insert_vec(0, vec![1, 2, 3]).unwrap();
    vec.insert_vec(3, vec![4, 5]).unwrap();
    assert_eq!(
        vec.iter()
            .collect()
            .into_iter()
            .map(|o| o.copied())
            .collect::<Vec<_>>(),
        vec![Some(1), Some(2), Some(3), Some(4), Some(5)]
    );
}

#[test]
fn empty_blocks() {
    let mut vec: SparseVec<u8> = SparseVec::with_len(5);
    vec.insert_vec(0, vec![]).unwrap();
    vec.insert_vec(0, vec![]).unwrap();
    assert_eq!(
        vec.iter()
            .collect()
            .into_iter()
            .map(|o| o.copied())
            .collect::<Vec<_>>(),
        vec![None, None, None, None, None]
    );
}

#[test]
#[should_panic]
fn overlap_insert_before() {
    let mut vec: SparseVec<u8> = SparseVec::with_len(5);
    vec.insert_vec(2, vec![3, 4]).unwrap();
    vec.insert_vec(0, vec![1, 2, 3]).unwrap();
}

#[test]
#[should_panic]
fn overlap_insert_after() {
    let mut vec: SparseVec<u8> = SparseVec::with_len(5);
    vec.insert_vec(0, vec![1, 2, 3]).unwrap();
    vec.insert_vec(2, vec![3, 4]).unwrap();
}

#[test]
fn iterate_range_empty() {
    assert_eq!(
        SparseVec::<u32>::with_len(5).iter_range(3..5).collect(),
        vec![None, None]
    );
}

#[test]
fn iterate_range_full() {
    assert_eq!(
        SparseVec::<u32>::from(vec![1, 2, 3, 4, 5])
            .iter_range(3..5)
            .collect()
            .into_iter()
            .map(|o| o.copied())
            .collect::<Vec<_>>(),
        (4..=5).map(Some).collect::<Vec<_>>()
    );
}

#[test]
fn iterate_empty_full() {
    assert_eq!(
        SparseVec::<u32>::with_len(5).iter_range(0..5).collect(),
        vec![None, None, None, None, None]
    );
}

#[test]
fn iterate_range_full_full() {
    assert_eq!(
        SparseVec::<u32>::from(vec![1, 2, 3, 4, 5])
            .iter_range(0..5)
            .collect()
            .into_iter()
            .map(|o| o.copied())
            .collect::<Vec<_>>(),
        (1..=5).map(Some).collect::<Vec<_>>()
    );
}

#[test]
fn iter_range_half_before() {
    let mut p = SparseVec::<u8>::with_len(20);
    p.insert_vec(10, (10..20).collect()).unwrap();
    assert_eq!(
        p.iter_range(5..20)
            .collect()
            .into_iter()
            .take(5)
            .collect::<Vec<_>>(),
        std::iter::repeat(None).take(5).collect::<Vec<_>>()
    );
    assert_eq!(
        p.iter_range(5..20)
            .collect()
            .into_iter()
            .skip(5)
            .map(|o| o.copied())
            .collect::<Vec<_>>(),
        (10..20).map(|s| Some(s)).collect::<Vec<_>>()
    );
}

#[test]
fn length_is_fixed() {
    let mut vec: SparseVec<u8> = SparseVec::with_len(7);
    assert_eq!(vec.len(), 7);
    vec.insert_vec(2, vec![1, 2, 3]).unwrap();
    assert_eq!(vec.len(), 7);
    assert_eq!(vec.insert_vec(3, vec![9]), Err(Overlap));
    assert_eq!(vec.len(), 7);
    assert_eq!(SparseVec::<u8>::from(vec![]).len(), 0);
    assert_eq!(SparseVec::from(vec![4u8, 5, 6]).len(), 3);
}

#[test]
fn iter_yields_one_item_per_index() {
    let mut vec: SparseVec<u16> = SparseVec::with_len(12);
    vec.insert_vec(8, vec![80, 90]).unwrap();
    vec.insert_vec(1, vec![10, 20, 30]).unwrap();
    vec.insert_vec(4, vec![40]).unwrap();
    vec.insert_vec(11, vec![110]).unwrap();
    assert_eq!(
        values(vec.iter().collect()),
        vec![
            None,
            Some(10),
            Some(20),
            Some(30),
            Some(40),
            None,
            None,
            None,
            Some(80),
            Some(90),
            None,
            Some(110)
        ]
    );
}

#[test]
fn insertion_order_does_not_change_the_cells() {
    let blocks: [(usize, Vec<u8>); 3] = [(0, vec![1]), (3, vec![4, 5]), (6, vec![7, 8, 9])];
    let orders = [[0, 1, 2], [0, 2, 1], [1, 0, 2], [1, 2, 0], [2, 0, 1], [2, 1, 0]];
    for order in orders {
        let mut vec: SparseVec<u8> = SparseVec::with_len(10);
        for k in order {
            assert_eq!(vec.insert_vec(blocks[k].0, blocks[k].1.clone()), Ok(()));
        }
        assert_eq!(
            values(vec.iter().collect()),
            vec![
                Some(1),
                None,
                None,
                Some(4),
                Some(5),
                None,
                Some(7),
                Some(8),
                Some(9),
                None
            ]
        );
    }
}

#[test]
fn next_walks_the_range_and_then_stays_exhausted() {
    let mut vec: SparseVec<u8> = SparseVec::with_len(4);
    vec.insert_vec(1, vec![7, 8]).unwrap();
    let mut it = vec.iter();
    assert_eq!(it.next(), Some(None));
    assert_eq!(it.next(), Some(Some(&7)));
    assert_eq!(it.next(), Some(Some(&8)));
    assert_eq!(it.next(), Some(None));
    assert_eq!(it.next(), None);
    assert_eq!(it.next(), None);
    assert_eq!(it.collect(), Vec::<Option<&u8>>::new());
}

#[test]
fn collect_gives_what_is_left() {
    let vec = SparseVec::from(vec![1u8, 2, 3, 4]);
    let mut it = vec.iter();
    it.next();
    it.next();
    assert_eq!(it.collect(), vec![Some(&3), Some(&4)]);
}

#[test]
fn iterators_are_independent() {
    let mut vec: SparseVec<u8> = SparseVec::with_len(3);
    vec.insert_vec(1, vec![5]).unwrap();
    let mut first = vec.iter();
    assert_eq!(first.next(), Some(None));
    assert_eq!(first.next(), Some(Some(&5)));
    let second = vec.iter();
    assert_eq!(second.collect(), vec![None, Some(&5), None]);
    assert_eq!(first.collect(), vec![None]);
    assert_eq!(vec.iter().collect(), vec![None, Some(&5), None]);
}

#[test]
fn iter_range_is_iter_skipped_and_taken() {
    let mut vec: SparseVec<u8> = SparseVec::with_len(9);
    vec.insert_vec(1, vec![1, 2]).unwrap();
    vec.insert_vec(3, vec![3]).unwrap();
    vec.insert_vec(5, vec![]).unwrap();
    vec.insert_vec(6, vec![6, 7]).unwrap();
    let all = values(vec.iter().collect());
    assert_eq!(all.len(), 9);
    for start in 0..=9usize {
        for end in start..=9usize {
            let expected: Vec<Option<u8>> =
                all.iter().copied().skip(start).take(end - start).collect();
            assert_eq!(values(vec.iter_range(start..end).collect()), expected);
        }
    }
}

#[test]
fn iter_range_starting_inside_a_block() {
    let mut vec: SparseVec<u8> = SparseVec::with_len(10);
    vec.insert_vec(0, vec![0, 1, 2, 3]).unwrap();
    vec.insert_vec(6, vec![6, 7, 8]).unwrap();
    assert_eq!(
        values(vec.iter_range(2..8).collect()),
        vec![Some(2), Some(3), None, None, Some(6), Some(7)]
    );
    assert_eq!(values(vec.iter_range(7..9).collect()), vec![Some(7), Some(8)]);
    assert_eq!(values(vec.iter_range(4..6).collect()), vec![None, None]);
    assert_eq!(values(vec.iter_range(9..10).collect()), vec![None]);
}

#[test]
fn iter_range_is_cut_to_the_sequence() {
    let vec = SparseVec::from(vec![1u8, 2, 3]);
    assert_eq!(
        values(vec.iter_range(1..10).collect()),
        vec![Some(2), Some(3)]
    );
    assert_eq!(values(vec.iter_range(3..10).collect()), vec![]);
    assert_eq!(values(vec.iter_range(7..10).collect()), vec![]);
    assert_eq!(values(vec.iter_range(2..2).collect()), vec![]);
    let backwards = std::ops::Range { start: 2, end: 1 };
    assert_eq!(values(vec.iter_range(backwards).collect()), vec![]);
}

#[test]
fn overlap_is_refused_in_either_order() {
    let mut vec: SparseVec<u8> = SparseVec::with_len(5);
    assert_eq!(vec.insert_vec(2, vec![3, 4]), Ok(()));
    assert_eq!(vec.insert_vec(0, vec![1, 2, 3]), Err(Overlap));
    let mut vec: SparseVec<u8> = SparseVec::with_len(5);
    assert_eq!(vec.insert_vec(0, vec![1, 2, 3]), Ok(()));
    assert_eq!(vec.insert_vec(2, vec![3, 4]), Err(Overlap));
}

#[test]
fn refused_insert_changes_nothing() {
    let mut vec: SparseVec<u8> = SparseVec::with_len(6);
    vec.insert_vec(2, vec![3, 4]).unwrap();
    let before = values(vec.iter().collect());
    assert_eq!(vec.insert_vec(1, vec![9, 9]), Err(Overlap));
    assert_eq!(vec.insert_vec(3, vec![9]), Err(Overlap));
    assert_eq!(vec.insert_vec(2, vec![9, 9, 9, 9]), Err(Overlap));
    assert_eq!(vec.insert_vec(0, vec![9, 9, 9, 9, 9, 9]), Err(Overlap));
    assert_eq!(values(vec.iter().collect()), before);
    assert_eq!(vec.insert_vec(0, vec![1, 2]), Ok(()));
    assert_eq!(vec.insert_vec(4, vec![5, 6]), Ok(()));
    assert_eq!(
        values(vec.iter().collect()),
        vec![Some(1), Some(2), Some(3), Some(4), Some(5), Some(6)]
    );
}

#[test]
fn insert_past_the_end_is_refused() {
    let mut vec: SparseVec<u8> = SparseVec::with_len(5);
    assert_eq!(vec.insert_vec(4, vec![1, 2]), Err(Overlap));
    assert_eq!(vec.insert_vec(5, vec![1]), Err(Overlap));
    assert_eq!(vec.insert_vec(6, vec![]), Err(Overlap));
    assert_eq!(vec.insert_vec(usize::MAX, vec![1, 2]), Err(Overlap));
    assert_eq!(vec.insert_vec(5, vec![]), Ok(()));
    assert_eq!(vec.insert_vec(4, vec![1]), Ok(()));
    assert_eq!(
        values(vec.iter().collect()),
        vec![None, None, None, None, Some(1)]
    );
}

#[test]
fn insert_into_a_full_sequence_is_refused() {
    let mut vec = SparseVec::from(vec![1u8, 2, 3]);
    assert_eq!(vec.insert_vec(0, vec![9]), Err(Overlap));
    assert_eq!(vec.insert_vec(2, vec![9]), Err(Overlap));
    assert_eq!(vec.insert_vec(1, vec![]), Err(Overlap));
    assert_eq!(vec.insert_vec(0, vec![]), Ok(()));
    assert_eq!(vec.insert_vec(3, vec![]), Ok(()));
    assert_eq!(
        values(vec.iter().collect()),
        vec![Some(1), Some(2), Some(3)]
    );
}

#[test]
fn empty_block_holds_its_place() {
    let mut vec: SparseVec<u8> = SparseVec::with_len(6);
    assert_eq!(vec.insert_vec(2, vec![]), Ok(()));
    // a block may end where the empty block lies, or start after it
    assert_eq!(vec.insert_vec(1, vec![7, 8]), Err(Overlap));
    assert_eq!(vec.insert_vec(2, vec![7]), Err(Overlap));
    assert_eq!(vec.insert_vec(0, vec![7, 8]), Ok(()));
    assert_eq!(vec.insert_vec(3, vec![9]), Ok(()));
    assert_eq!(
        values(vec.iter().collect()),
        vec![Some(7), Some(8), None, Some(9), None, None]
    );
}

#[test]
fn many_empty_blocks_before_a_value() {
    let mut vec: SparseVec<u8> = SparseVec::with_len(4);
    vec.insert_vec(0, vec![1, 2]).unwrap();
    vec.insert_vec(0, vec![]).unwrap();
    vec.insert_vec(0, vec![]).unwrap();
    vec.insert_vec(0, vec![]).unwrap();
    vec.insert_vec(3, vec![4]).unwrap();
    vec.insert_vec(3, vec![]).unwrap();
    vec.insert_vec(2, vec![]).unwrap();
    vec.insert_vec(2, vec![]).unwrap();
    vec.insert_vec(2, vec![]).unwrap();
    assert_eq!(
        values(vec.iter().collect()),
        vec![Some(1), Some(2), None, Some(4)]
    );
    assert_eq!(
        values(vec.iter_range(1..4).collect()),
        vec![Some(2), None, Some(4)]
    );
    assert_eq!(values(vec.iter_range(3..4).collect()), vec![Some(4)]);
}

#[test]
fn large_sequence_takes_no_room() {
    let mut vec: SparseVec<u64> = SparseVec::with_len(usize::MAX);
    assert_eq!(vec.len(), usize::MAX);
    vec.insert_vec(usize::MAX - 2, vec![1, 2]).unwrap();
    assert_eq!(vec.insert_vec(usize::MAX - 1, vec![3, 4]), Err(Overlap));
    assert_eq!(
        values(vec.iter_range(usize::MAX - 3..usize::MAX).collect()),
        vec![None, Some(1), Some(2)]
    );
}
