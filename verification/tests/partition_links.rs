use redpiler::backend::direct::bool_to_ss;
use redpiler::backend::direct::node::{ForwardLinkData, NodeId, NonMaxU8};
use redpiler::backend::direct::partitioned::partition::{NodeLocation, PartitionForwardLink};
use std::cmp::Ordering;

#[test]
fn location_gives_back_its_parts() {
    let location = NodeLocation::from(3, 70_000);
    assert_eq!(location.partition(), 3);
    assert_eq!(location.index(), NodeId { id: 70_000 });
    assert_eq!(location.index().index(), 70_000);
    assert_eq!(location.key(), (3, 70_000));
    assert_eq!(location.rank(), (3 << 32) + 70_000);
}

#[test]
fn location_keeps_low_bits() {
    let location = NodeLocation::from(0x1_0002, 0x1_0000_0003);
    assert_eq!(location.key(), (2, 3));
}

#[test]
fn locations_are_ordered_by_partition_first() {
    let a = NodeLocation::from(1, 500);
    let b = NodeLocation::from(2, 3);
    let c = NodeLocation::from(2, 4);
    assert!(a < b && b < c && a < c);
    assert!(!(b < a) && b <= b);
    let mut list = vec![c, a, b];
    list.sort();
    assert_eq!(list, vec![a, b, c]);
    list.sort_by_key(|l| std::cmp::Reverse(l.rank()));
    assert_eq!(list, vec![c, b, a]);
}

#[test]
fn locations_compare_as_their_parts() {
    for (p, i) in [(0, 0), (1, 500), (2, 3), (2, 4), (65_535, 0)] {
        for (q, j) in [(0, 0), (1, 500), (2, 3), (2, 4), (65_535, 0)] {
            let a = NodeLocation::from(p, i);
            let b = NodeLocation::from(q, j);
            assert_eq!(a.cmp(&b), (p, i).cmp(&(q, j)));
            assert_eq!(a.cmp(&b), Ord::cmp(&a, &b));
            assert_eq!(a.cmp(&b) == Ordering::Equal, a == b);
            assert_eq!(b.cmp(&a), a.cmp(&b).reverse());
            assert_eq!(a.partial_cmp(&b), Some(a.cmp(&b)));
        }
    }
}

#[test]
fn link_packs_its_parts() {
    let link = PartitionForwardLink::new(NodeLocation::from(5, 9), true, 3);
    assert_eq!(link.inner(), 5 << 25 | 9 << 5 | 1 << 4 | 3);
    assert_eq!(link.data(), ForwardLinkData::new(link.inner()));
}

#[test]
fn link_gives_back_its_parts() {
    for (partition, index, side, ss) in
        [(0, 0, false, 0), (127, 0xF_FFFF, true, 14), (64, 12_345, false, 7), (1, 1, true, 0)]
    {
        let location = NodeLocation::from(partition, index);
        let link = PartitionForwardLink::new(location, side, ss);
        let again = PartitionForwardLink::from(link.data());
        assert_eq!(again.node(), location);
        assert_eq!(again.side(), side);
        assert_eq!(again.ss(), ss);
    }
}

#[test]
fn any_word_is_a_link() {
    let link = PartitionForwardLink::from(ForwardLinkData::new(u32::MAX));
    assert_eq!(link.node(), NodeLocation::from(127, 0xF_FFFF));
    assert!(link.side());
    assert_eq!(link.ss(), 15);
}

#[test]
fn greatest_byte_is_refused() {
    assert!(NonMaxU8::new(255).is_none());
    assert_eq!(NonMaxU8::new(254).unwrap().get(), 254);
    assert_eq!(NonMaxU8::new(0).unwrap().get(), 0);
}

#[test]
fn on_is_full_strength() {
    assert_eq!(bool_to_ss(true), 15);
    assert_eq!(bool_to_ss(false), 0);
}
