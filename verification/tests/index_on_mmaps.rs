use data_pile::index_on_mmaps::{IndexDescriptor, IndexOnMmaps, SingleMmapIndex};

#[test]
fn index_on_mmaps_index() {
    let data = [vec![34], vec![42, 67], vec![96, 103, 420]];
    let mut index = IndexOnMmaps::new();

    for item in data.iter() {
        let mut single_mmap_index = SingleMmapIndex::new(index.memory_size());
        for sub_item in item {
            single_mmap_index.append(*sub_item - index.memory_size());
        }
        index.add_mmap(single_mmap_index);
    }

    assert_eq!(
        Some(IndexDescriptor {
            len: 34,
            mmap_offset: 0,
            mmap_number: 0,
        }),
        index.find(0)
    );
    assert_eq!(
        Some(IndexDescriptor {
            len: 8,
            mmap_offset: 0,
            mmap_number: 1,
        }),
        index.find(34)
    );
    assert_eq!(
        Some(IndexDescriptor {
            len: 25,
            mmap_offset: 8,
            mmap_number: 1,
        }),
        index.find(42)
    );
    assert_eq!(
        Some(IndexDescriptor {
            len: 29,
            mmap_offset: 0,
            mmap_number: 2,
        }),
        index.find(67)
    );
    assert_eq!(
        Some(IndexDescriptor {
            len: 7,
            mmap_offset: 29,
            mmap_number: 2,
        }),
        index.find(96)
    );
    assert_eq!(None, index.find(420));
    assert_eq!(None, index.find(1000));
}

#[test]
fn single_mmap_index_counts_from_its_start() {
    let mut index = SingleMmapIndex::new(100);
    assert!(!index.is_empty());
    assert_eq!(0, index.current_mmap_size());
    assert_eq!(100, index.last_global_index());
    assert_eq!(None, index.find(100));
    index.append(10);
    index.append(25);
    assert_eq!(vec![0, 10, 25], index.internal_bounds);
    assert_eq!(25, index.current_mmap_size());
    assert_eq!(125, index.last_global_index());
    assert_eq!(None, index.find(99));
    assert_eq!(
        Some(IndexDescriptor { mmap_number: 0, mmap_offset: 0, len: 10 }),
        index.find(100)
    );
    assert_eq!(
        Some(IndexDescriptor { mmap_number: 0, mmap_offset: 7, len: 3 }),
        index.find(107)
    );
    assert_eq!(
        Some(IndexDescriptor { mmap_number: 0, mmap_offset: 10, len: 15 }),
        index.find(110)
    );
    assert_eq!(
        Some(IndexDescriptor { mmap_number: 0, mmap_offset: 24, len: 1 }),
        index.find(124)
    );
    assert_eq!(None, index.find(125));
    assert_eq!(None, index.find(126));
}

#[test]
fn single_mmap_index_is_empty_only_at_zero() {
    assert!(SingleMmapIndex::new(0).is_empty());
    assert!(!SingleMmapIndex::new(1).is_empty());
    let mut index = SingleMmapIndex::new(0);
    index.append(1);
    assert!(!index.is_empty());
}

#[test]
fn index_on_mmaps_leaves_out_an_empty_map() {
    let mut index = IndexOnMmaps::new();
    index.add_mmap(SingleMmapIndex::new(0));
    assert_eq!(0, index.memory_size());
    assert_eq!(None, index.find(0));
    let mut first = SingleMmapIndex::new(0);
    first.append(4);
    index.add_mmap(first);
    assert_eq!(4, index.memory_size());
    assert_eq!(
        Some(IndexDescriptor { mmap_number: 0, mmap_offset: 3, len: 1 }),
        index.find(3)
    );
}
