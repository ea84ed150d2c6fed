use data_pile::shared_mmap::{Edge, SharedMmap};
use memmap2::{Mmap, MmapMut};

fn frozen(bytes: &[u8]) -> Mmap {
    let mut map = MmapMut::map_anon(bytes.len()).unwrap();
    map.copy_from_slice(bytes);
    map.make_read_only().unwrap()
}

#[test]
fn shared_mmap_shows_the_whole_map() {
    let view = SharedMmap::new(frozen(b"0123456789"));
    assert_eq!(10, view.len());
    assert!(!view.is_empty());
    assert_eq!(b"0123456789".to_vec(), view.to_vec());
}

#[test]
fn shared_mmap_of_an_empty_map() {
    let view = SharedMmap::new(frozen(b""));
    assert_eq!(0, view.len());
    assert!(view.is_empty());
    assert_eq!(Vec::<u8>::new(), view.to_vec());
    let part = view.slice(Edge::Unbounded, Edge::Unbounded);
    assert!(part.is_empty());
    let part = view.slice(Edge::Included(0), Edge::Included(0));
    assert!(part.is_empty());
}

#[test]
fn shared_mmap_slices_by_both_kinds_of_edges() {
    let view = SharedMmap::new(frozen(b"0123456789"));
    assert_eq!(b"234".to_vec(), view.slice(Edge::Included(2), Edge::Excluded(5)).to_vec());
    assert_eq!(b"2345".to_vec(), view.slice(Edge::Included(2), Edge::Included(5)).to_vec());
    assert_eq!(b"345".to_vec(), view.slice(Edge::Excluded(2), Edge::Included(5)).to_vec());
    assert_eq!(b"23456789".to_vec(), view.slice(Edge::Included(2), Edge::Unbounded).to_vec());
    assert_eq!(b"01234".to_vec(), view.slice(Edge::Unbounded, Edge::Excluded(5)).to_vec());
    assert_eq!(b"0123456789".to_vec(), view.slice(Edge::Unbounded, Edge::Unbounded).to_vec());
}

#[test]
fn shared_mmap_cuts_a_range_to_what_it_holds() {
    let view = SharedMmap::new(frozen(b"0123456789"));
    assert_eq!(b"789".to_vec(), view.slice(Edge::Included(7), Edge::Excluded(100)).to_vec());
    assert_eq!(b"789".to_vec(), view.slice(Edge::Included(7), Edge::Included(usize::MAX)).to_vec());
    assert_eq!(b"9".to_vec(), view.slice(Edge::Included(9), Edge::Unbounded).to_vec());
    assert!(view.slice(Edge::Included(10), Edge::Unbounded).is_empty());
    assert!(view.slice(Edge::Included(11), Edge::Excluded(20)).is_empty());
    assert!(view.slice(Edge::Excluded(9), Edge::Unbounded).is_empty());
    assert!(view.slice(Edge::Excluded(usize::MAX), Edge::Unbounded).is_empty());
}

#[test]
fn shared_mmap_gives_an_empty_view_for_an_empty_range() {
    let view = SharedMmap::new(frozen(b"0123456789"));
    assert!(view.slice(Edge::Unbounded, Edge::Excluded(0)).is_empty());
    assert!(view.slice(Edge::Included(3), Edge::Excluded(3)).is_empty());
    assert!(view.slice(Edge::Included(5), Edge::Excluded(2)).is_empty());
    assert!(view.slice(Edge::Included(5), Edge::Included(3)).is_empty());
    assert_eq!(0, view.slice(Edge::Included(5), Edge::Included(4)).len());
    assert_eq!(1, view.slice(Edge::Included(5), Edge::Included(5)).len());
}

#[test]
fn shared_mmap_slices_of_slices_count_from_the_slice() {
    let view = SharedMmap::new(frozen(b"0123456789"));
    let middle = view.slice(Edge::Included(2), Edge::Excluded(8));
    assert_eq!(6, middle.len());
    let inner = middle.slice(Edge::Included(1), Edge::Excluded(3));
    assert_eq!(b"34".to_vec(), inner.to_vec());
    let tail = middle.slice(Edge::Included(4), Edge::Unbounded);
    assert_eq!(b"67".to_vec(), tail.to_vec());
    let copy = inner.clone();
    assert_eq!(b"34".to_vec(), copy.to_vec());
    assert_eq!(b"0123456789".to_vec(), view.to_vec());
}
