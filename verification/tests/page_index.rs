use data_pile::page_index::{PageDescriptor, PageIndex};

#[test]
fn page_index_index() {
    let data = [34, 42, 67, 96, 103, 420];
    let mut index = PageIndex::new();

    for item in data.iter().copied() {
        index.add_page(item);
    }

    assert_eq!(
        Some(PageDescriptor {
            len: 34,
            offset: 0,
            number: 0,
        }),
        index.find(10)
    );
    assert_eq!(
        Some(PageDescriptor {
            len: 29,
            offset: 67,
            number: 3,
        }),
        index.find(80)
    );
    assert_eq!(
        Some(PageDescriptor {
            len: 7,
            offset: 96,
            number: 4,
        }),
        index.find(102)
    );
    assert_eq!(
        Some(PageDescriptor {
            len: 317,
            offset: 103,
            number: 5,
        }),
        index.find(103)
    );
    assert_eq!(
        Some(PageDescriptor {
            len: 317,
            offset: 103,
            number: 5,
        }),
        index.find(200)
    );
    assert_eq!(None, index.find(420));
    assert_eq!(None, index.find(1000));
}

#[test]
fn page_index_starts_empty() {
    let index = PageIndex::new();
    assert_eq!(0, index.memory_size());
    assert_eq!(None, index.find(0));
}

#[test]
fn page_index_first_and_last_address_of_a_page() {
    let mut index = PageIndex::new();
    index.add_page(5);
    index.add_page(9);
    assert_eq!(9, index.memory_size());
    assert_eq!(Some(PageDescriptor { len: 5, offset: 0, number: 0 }), index.find(0));
    assert_eq!(Some(PageDescriptor { len: 5, offset: 0, number: 0 }), index.find(4));
    assert_eq!(Some(PageDescriptor { len: 4, offset: 5, number: 1 }), index.find(5));
    assert_eq!(Some(PageDescriptor { len: 4, offset: 5, number: 1 }), index.find(8));
    assert_eq!(None, index.find(9));
}

#[test]
fn page_index_keeps_earlier_pages_when_one_is_added() {
    let mut index = PageIndex::new();
    index.add_page(10);
    index.add_page(25);
    let before: Vec<_> = (0..30).map(|address| index.find(address)).collect();
    index.add_page(40);
    for address in 0..25 {
        assert_eq!(before[address], index.find(address));
    }
    for address in 25..40 {
        assert_eq!(
            Some(PageDescriptor { len: 15, offset: 25, number: 2 }),
            index.find(address)
        );
    }
    assert_eq!(None, index.find(40));
    assert_eq!(40, index.memory_size());
}
