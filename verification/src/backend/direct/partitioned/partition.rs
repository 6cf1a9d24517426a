//! Where nodes are, and the links between them.

use std::cmp::Ordering;
use vstd::prelude::*;

use crate::backend::direct::node::{ForwardLinkData, NodeId};

verus! {

/// Where a node is: in which partition, and where in that.
#[derive(Debug, Copy, Clone, PartialEq, Eq, Ord, Hash, Structural)]
pub struct NodeLocation {
    pub partition: u16,
    pub index: NodeId,
}

impl NodeLocation {
    /// The place at `index` in `partition`.
    pub open spec fn at(partition: int, index: int) -> NodeLocation {
        NodeLocation { partition: partition as u16, index: NodeId { id: index as u32 } }
    }

    /// A number that puts locations into their order.
    pub open spec fn order(self) -> int {
        self.partition * 0x1_0000_0000 + self.index.id
    }

    /// The partition and the index.
    pub open spec fn parts(self) -> (u16, u32) {
        (self.partition, self.index.id)
    }

    pub fn partition(&self) -> (partition: usize)
        ensures
            partition == self.partition,
    {
        self.partition as usize
    }

    pub fn index(&self) -> (index: NodeId)
        ensures
            index == self.index,
    {
        self.index
    }

    /// The location of these numbers; of a partition beyond 16 bits and of an index beyond
    /// 32 only those remain.
    pub fn from(partition: usize, index: usize) -> (location: NodeLocation)
        ensures
            location.partition == partition % 0x1_0000,
            location.index.id == index as int % 0x1_0000_0000,
    {
        proof {
            assert(partition as u16 == partition % 0x1_0000) by (bit_vector);
        }
        NodeLocation {
            partition: #[verifier::truncate] (partition as u16),
            index: NodeId::from_index(index),
        }
    }

    /// The partition and the index.
    pub fn key(&self) -> (key: (u16, u32))
        ensures
            key == self.parts(),
    {
        (self.partition, self.index.id)
    }

    /// A number that puts locations into their order.
    pub fn rank(&self) -> (rank: u64)
        ensures
            rank == self.order(),
    {
        self.partition as u64 * 0x1_0000_0000 + self.index.id as u64
    }
}

impl NodeLocation {
    /// How two locations are ordered.
    pub open spec fn compared(self, other: NodeLocation) -> Ordering {
        if self.order() < other.order() {
            Ordering::Less
        } else if self.order() > other.order() {
            Ordering::Greater
        } else {
            Ordering::Equal
        }
    }

    /// How two locations are ordered: by partition first, then by index.
    pub fn cmp(&self, other: &NodeLocation) -> (ordering: Ordering)
        ensures
            ordering == self.compared(*other),
    {
        if self.partition < other.partition {
            Ordering::Less
        } else if self.partition > other.partition {
            Ordering::Greater
        } else if self.index.id < other.index.id {
            Ordering::Less
        } else if self.index.id > other.index.id {
            Ordering::Greater
        } else {
            Ordering::Equal
        }
    }
}

impl PartialOrd for NodeLocation {
    fn partial_cmp(&self, other: &NodeLocation) -> (ordering: Option<Ordering>) {
        Some(self.cmp(other))
    }
}

impl vstd::std_specs::cmp::PartialOrdSpecImpl for NodeLocation {
    open spec fn obeys_partial_cmp_spec() -> bool {
        true
    }

    open spec fn partial_cmp_spec(&self, other: &NodeLocation) -> Option<Ordering> {
        Some(self.compared(*other))
    }
}

/// A link to a node of any partition.
#[derive(Debug, Copy, Clone, PartialEq, Eq, Structural)]
pub struct PartitionForwardLink {
    data: ForwardLinkData,
}

/// Whether a link can lead to this location.
pub open spec fn reachable(location: NodeLocation) -> bool {
    location.partition < 0x80 && location.index.id < 0x10_0000
}

impl PartitionForwardLink {
    /// The word of the link.
    pub closed spec fn word(self) -> u32 {
        self.data.data
    }

    /// The word of a link: from the top, seven bits of partition, twenty of index, one for
    /// the side, and four of lost strength.
    pub open spec fn packed(location: NodeLocation, side: bool, ss: u8) -> int {
        0x200_0000 * location.partition + 0x20 * location.index.id + if side {
            0x10int
        } else {
            0
        } + ss
    }

    /// Where the link of a word leads.
    pub open spec fn target(word: u32) -> NodeLocation {
        NodeLocation::at(word as int / 0x200_0000, word as int / 0x20 % 0x10_0000)
    }

    /// Whether the link of a word enters from the side.
    pub open spec fn enters_side(word: u32) -> bool {
        word / 0x10 % 2 == 1
    }

    /// The strength that is lost on the link of a word.
    pub open spec fn distance(word: u32) -> u8 {
        (word % 0x10) as u8
    }

    pub fn new(location: NodeLocation, side: bool, ss: u8) -> (link: PartitionForwardLink)
        requires
            reachable(location),
            ss < 15,
        ensures
            link.word() == PartitionForwardLink::packed(location, side, ss),
    {
        let partition: u32 = (location.partition() as u32) << 25;
        let index: u32 = (location.index().index() as u32) << 5;
        let side_bit: u32 = if side {
            1 << 4
        } else {
            0
        };
        proof {
            let p = location.partition as u32;
            let i = location.index.id;
            assert(1u32 << 4 == 0x10u32) by (bit_vector);
            assert((p << 25 | i << 5 | side_bit | ss as u32) == 0x200_0000 * p + 0x20 * i
                + side_bit + ss) by (bit_vector)
                requires
                    p < 0x80,
                    i < 0x10_0000,
                    side_bit == 0x10 || side_bit == 0,
                    ss < 15,
            ;
        }
        PartitionForwardLink {
            data: ForwardLinkData::new(partition | index | side_bit | ss as u32),
        }
    }

    pub fn data(self) -> (data: ForwardLinkData)
        ensures
            data.data == self.word(),
    {
        self.data
    }

    pub fn inner(self) -> (word: u32)
        ensures
            word == self.word(),
    {
        self.data.inner()
    }

    /// Where the link leads.
    pub fn node(self) -> (location: NodeLocation)
        ensures
            location == PartitionForwardLink::target(self.word()),
            reachable(location),
    {
        let word: u32 = self.inner();
        proof {
            assert(word >> 25 == word / 0x200_0000) by (bit_vector);
            assert((word >> 5) & 0b11111111111111111111 == word / 0x20 % 0x10_0000) by (bit_vector);
            assert(word / 0x200_0000 < 0x80);
        }
        let partition: usize = (word >> 25) as usize;
        let index: usize = ((word >> 5) & 0b11111111111111111111) as usize;
        NodeLocation::from(partition, index)
    }

    /// Whether the link enters from the side.
    pub fn side(self) -> (side: bool)
        ensures
            side == PartitionForwardLink::enters_side(self.word()),
    {
        let word: u32 = self.inner();
        proof {
            assert(word & (1u32 << 4) != 0 <==> word / 0x10 % 2 == 1) by (bit_vector);
        }
        word & (1u32 << 4) != 0
    }

    /// The strength that is lost on the link.
    pub fn ss(self) -> (ss: u8)
        ensures
            ss == PartitionForwardLink::distance(self.word()),
    {
        let word: u32 = self.inner();
        proof {
            assert(word & 0b1111 == word % 0x10) by (bit_vector);
        }
        (word & 0b1111) as u8
    }
}

impl From<ForwardLinkData> for PartitionForwardLink {
    fn from(data: ForwardLinkData) -> (link: PartitionForwardLink) {
        PartitionForwardLink { data }
    }
}

impl vstd::std_specs::convert::FromSpecImpl<ForwardLinkData> for PartitionForwardLink {
    open spec fn obeys_from_spec() -> bool {
        true
    }

    closed spec fn from_spec(data: ForwardLinkData) -> PartitionForwardLink {
        PartitionForwardLink { data }
    }
}

/// The link of a word has that word.
pub proof fn lemma_link_of_word(data: ForwardLinkData)
    ensures
        (<PartitionForwardLink as vstd::std_specs::convert::FromSpec<ForwardLinkData>>::from_spec(
            data,
        )).word() == data.data,
{
}

/// A link gives back what it was made from.
pub proof fn law_link_survives_packing(location: NodeLocation, side: bool, ss: u8, word: u32)
    requires
        reachable(location),
        ss < 15,
        word == PartitionForwardLink::packed(location, side, ss),
    ensures
        PartitionForwardLink::target(word) == location,
        PartitionForwardLink::enters_side(word) == side,
        PartitionForwardLink::distance(word) == ss,
{
    let p = location.partition as int;
    let i = location.index.id as int;
    let low = if side {
        0x10 + ss
    } else {
        0int + ss
    };
    assert(word == 0x200_0000 * p + 0x20 * i + low);
    assert(word as int / 0x20 == 0x10_0000 * p + i);
    assert(word as int / 0x200_0000 == p);
    assert(word as int / 0x10 == 0x20_0000 * p + 2 * i + low / 0x10);
}

/// Locations are ordered by partition first, then by index; only equal ones compare as equal;
/// and the other way round they compare the other way.
pub proof fn law_locations_are_ordered_by_parts(a: NodeLocation, b: NodeLocation)
    ensures
        a.order() < b.order() <==> a.partition < b.partition || (a.partition == b.partition
            && a.index.id < b.index.id),
        a.order() == b.order() <==> a == b,
        a.compared(b) == if a.partition < b.partition {
            Ordering::Less
        } else if a.partition > b.partition {
            Ordering::Greater
        } else if a.index.id < b.index.id {
            Ordering::Less
        } else if a.index.id > b.index.id {
            Ordering::Greater
        } else {
            Ordering::Equal
        },
        a.compared(b) == Ordering::Equal <==> a == b,
        a.compared(b) == Ordering::Less <==> b.compared(a) == Ordering::Greater,
        a.compared(b) == Ordering::Equal <==> b.compared(a) == Ordering::Equal,
{
}

/// The order of locations is transitive.
pub proof fn law_order_of_locations_is_transitive(a: NodeLocation, b: NodeLocation, c: NodeLocation)
    requires
        a.compared(b) != Ordering::Greater,
        b.compared(c) != Ordering::Greater,
    ensures
        a.compared(c) != Ordering::Greater,
        a.compared(c) == Ordering::Equal <==> a == b && b == c,
{
    law_locations_are_ordered_by_parts(a, b);
    law_locations_are_ordered_by_parts(b, c);
}

/// Two locations compare as their partitions do, and as their indices where those are the same.
pub proof fn law_locations_compare_as_their_parts(
    p: usize,
    i: usize,
    q: usize,
    j: usize,
    a: NodeLocation,
    b: NodeLocation,
    ab: Ordering,
    ba: Ordering,
    partial: Option<Ordering>,
)
    requires
        p < 0x1_0000,
        q < 0x1_0000,
        i <= u32::MAX,
        j <= u32::MAX,
        call_ensures(NodeLocation::from, (p, i), a),
        call_ensures(NodeLocation::from, (q, j), b),
        call_ensures(NodeLocation::cmp, (&a, &b), ab),
        call_ensures(NodeLocation::cmp, (&b, &a), ba),
        call_ensures(NodeLocation::partial_cmp, (&a, &b), partial),
    ensures
        p < q || p == q && i < j ==> ab == Ordering::Less && ba == Ordering::Greater,
        p > q || p == q && i > j ==> ab == Ordering::Greater && ba == Ordering::Less,
        p == q && i == j ==> ab == Ordering::Equal && ba == Ordering::Equal,
        ab == Ordering::Equal <==> a == b,
        partial == Some(ab),
{
}

/// A location gives back the partition and the index that it was made from.
pub proof fn law_locations_give_back_their_parts(
    p: usize,
    i: usize,
    location: NodeLocation,
    partition: usize,
    index: NodeId,
    key: (u16, u32),
    rank: u64,
)
    requires
        p < 0x1_0000,
        i <= u32::MAX,
        call_ensures(NodeLocation::from, (p, i), location),
        call_ensures(NodeLocation::partition, (&location,), partition),
        call_ensures(NodeLocation::index, (&location,), index),
        call_ensures(NodeLocation::key, (&location,), key),
        call_ensures(NodeLocation::rank, (&location,), rank),
    ensures
        partition == p,
        index.id == i,
        key.0 == p && key.1 == i,
        rank == p * 0x1_0000_0000 + i,
{
}

} // verus!
