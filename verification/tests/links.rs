use redpiler::backend::links::{arrange, Lead};
use redpiler::compile_graph::{CompileLink, LinkType};
use redpiler::graph::Edge;

fn lead(rank: u64, kind: u32, id: u32) -> Lead {
    Lead {
        rank,
        kind,
        edge: Edge {
            id,
            source: 0,
            target: 0,
            link: CompileLink { ty: LinkType::Default, ss: 0 },
        },
    }
}

#[test]
fn links_of_one_kind_are_sorted() {
    let out = arrange(vec![lead(3, 1, 0), lead(1, 1, 1), lead(2, 1, 2)]);
    let ids: Vec<u32> = out.iter().map(|l| l.edge.id).collect();
    assert_eq!(ids, vec![1, 2, 0]);
}

#[test]
fn links_of_one_rank_keep_their_order() {
    let out = arrange(vec![lead(2, 1, 0), lead(1, 1, 1), lead(2, 1, 2), lead(1, 1, 3)]);
    let ids: Vec<u32> = out.iter().map(|l| l.edge.id).collect();
    assert_eq!(ids, vec![1, 3, 0, 2]);
}

#[test]
fn links_are_put_kind_by_kind() {
    let out = arrange(vec![
        lead(5, 2, 0),
        lead(4, 1, 1),
        lead(3, 2, 2),
        lead(2, 1, 3),
        lead(1, 3, 4),
    ]);
    let kinds: Vec<u32> = out.iter().map(|l| l.kind).collect();
    let mut starts: Vec<u32> = kinds.clone();
    starts.dedup();
    assert_eq!(starts.len(), 3);
    let of = |kind| -> Vec<u32> {
        out.iter().filter(|l| l.kind == kind).map(|l| l.edge.id).collect()
    };
    assert_eq!(of(1), vec![3, 1]);
    assert_eq!(of(2), vec![2, 0]);
    assert_eq!(of(3), vec![4]);
}

#[test]
fn arranging_keeps_every_link() {
    let list: Vec<Lead> = (0..50).map(|i| lead((i * 7 % 13) as u64, i % 4, i)).collect();
    let mut ids: Vec<u32> = arrange(list).iter().map(|l| l.edge.id).collect();
    ids.sort();
    assert_eq!(ids, (0..50).collect::<Vec<u32>>());
    assert!(arrange(vec![]).is_empty());
}
