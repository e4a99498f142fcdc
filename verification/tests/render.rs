use ranim::render::{
    MergedCounts, MergedVItemColorNode, MergedVItemComputeNode, MergedVItemDepthNode, QuadDraw,
    RenderPackets, TypeBinnedVec,
};

#[test]
fn test() {}

#[test]
fn binned_rows_read_back_what_was_written() {
    let mut t: TypeBinnedVec<u32> = TypeBinnedVec::new();
    assert!(t.get_row(7).is_empty());
    t.push(7, 1);
    t.extend(7, vec![2, 3]);
    t.push(9, 4);
    assert_eq!(t.get_row(7), &[1, 2, 3]);
    assert_eq!(t.get_row(9), &[4]);
    t.clear();
    assert!(t.get_row(7).is_empty());
    assert!(t.get_row(9).is_empty());
    let mut p: RenderPackets<u64> = RenderPackets::new();
    p.push(1, 5);
    p.extend(1, vec![6]);
    assert_eq!(p.get(1), &[5, 6]);
    assert!(p.get(2).is_empty());
    p.clear();
    assert!(p.get(1).is_empty());
}

#[test]
fn merged_passes_draw_one_quad_per_item() {
    let m = Some(MergedCounts { item_count: 3, total_points: 513 });
    let draw = Some(QuadDraw { vertex_count: 4, instance_count: 3 });
    assert_eq!(MergedVItemColorNode.draw(m), draw);
    assert_eq!(MergedVItemDepthNode.draw(m), draw);
    assert_eq!(MergedVItemColorNode.draw(None), None);
    assert_eq!(MergedVItemDepthNode.draw(Some(MergedCounts { item_count: 0, total_points: 0 })), None);
}

#[test]
fn compute_pass_dispatches_enough_workgroups() {
    let c = MergedVItemComputeNode;
    assert_eq!(c.workgroups(Some(MergedCounts { item_count: 3, total_points: 513 })), Some(3));
    assert_eq!(c.workgroups(Some(MergedCounts { item_count: 1, total_points: 256 })), Some(1));
    assert_eq!(c.workgroups(Some(MergedCounts { item_count: 1, total_points: 0 })), Some(0));
    assert_eq!(c.workgroups(Some(MergedCounts { item_count: 0, total_points: 9 })), None);
    assert_eq!(c.workgroups(None), None);
}
