use ordered_tree::{insert_child_of, tree_indexing, tree_reordering};
use ordered_tree::{ChildOf, Ordered, ParentIndex, ReorderCommands, TreeWorld};

fn parent_children_ids(pi: &ParentIndex) -> Vec<u64> {
    pi.children.iter().map(|c| c.1).collect()
}

fn run_cycle(world: &mut TreeWorld, commands: &mut ReorderCommands) {
    tree_reordering(commands, world);
    tree_indexing(world);
}

#[test]
fn test_indexing() {
    let mut world = TreeWorld::new();
    let mut commands = ReorderCommands(vec![]);

    let (a, a1, a2, a3, a6) = (1u64, 2u64, 3u64, 4u64, 5u64);
    world.set_child_of(a6, ChildOf(a, Ordered::hinted(6)));
    world.set_child_of(a3, ChildOf(a, Ordered::hinted(3)));
    world.set_child_of(a1, ChildOf(a, Ordered::hinted(1)));
    world.set_child_of(a2, ChildOf(a, Ordered::hinted(2)));

    run_cycle(&mut world, &mut commands);

    assert!(
        world.sibling_index(a).is_none(),
        "should not have sibling data"
    );
    let c: &ParentIndex = world.parent_index(a).expect("has children");
    assert_eq!(
        parent_children_ids(c),
        vec![a1, a2, a3, a6],
        "should be in order"
    );

    let (a1b, a1b1, a0, a4, a7) = (6u64, 7u64, 8u64, 9u64, 10u64);
    world.set_child_of(a7, ChildOf(a, Ordered::hinted(7)));
    world.set_child_of(a0, ChildOf(a, Ordered::hinted(0)));
    world.set_child_of(a4, ChildOf(a, Ordered::hinted(4)));
    world.set_child_of(a1b, ChildOf(a1, Ordered::hinted(4)));
    world.set_child_of(a1b1, ChildOf(a1b, Ordered::hinted(1)));

    run_cycle(&mut world, &mut commands);

    assert!(
        world.sibling_index(a).is_none(),
        "should not have sibling data"
    );

    let a1b_sib = world.sibling_index(a1b).expect("should have sibling data");
    assert_eq!(a1b_sib.next_sibling, None, "only child");
    assert_eq!(a1b_sib.prev_sibling, None, "only child");

    assert_eq!(
        parent_children_ids(world.parent_index(a1b).expect("has children")),
        vec![a1b1],
        "should have the one child"
    );

    assert_eq!(
        parent_children_ids(world.parent_index(a).expect("has children")),
        vec![a0, a1, a2, a3, a4, a6, a7],
        "should be in order"
    );

    // test removing and deleting ChildOf components

    world.delete_child_of(a7);
    world.delete_child_of(a4);
    world.delete_child_of(a0);
    world.delete_child_of(a1b);

    run_cycle(&mut world, &mut commands);

    assert!(
        world.sibling_index(a1b).is_none(),
        "should not have sibling data"
    );

    assert_eq!(
        parent_children_ids(world.parent_index(a1b).expect("has children")),
        vec![a1b1],
        "should have the one child"
    );

    assert_eq!(
        parent_children_ids(world.parent_index(a).expect("has children")),
        vec![a1, a2, a3, a6],
        "should be in order without deleted entities"
    );
}

#[test]
fn scenario_insertion_ordering() {
    let mut world = TreeWorld::new();
    let x = 100u64;
    let (h6, h3, h1, h2) = (101u64, 102u64, 103u64, 104u64);
    world.set_child_of(h6, ChildOf(x, Ordered::hinted(6)));
    world.set_child_of(h3, ChildOf(x, Ordered::hinted(3)));
    world.set_child_of(h1, ChildOf(x, Ordered::hinted(1)));
    world.set_child_of(h2, ChildOf(x, Ordered::hinted(2)));
    tree_indexing(&mut world);

    assert_eq!(
        parent_children_ids(world.parent_index(x).expect("has children")),
        vec![h1, h2, h3, h6]
    );
}

#[test]
fn linked_list_pointers_match() {
    let mut world = TreeWorld::new();
    let x = 100u64;
    let (h6, h3, h1, h2) = (101u64, 102u64, 103u64, 104u64);
    world.set_child_of(h6, ChildOf(x, Ordered::hinted(6)));
    world.set_child_of(h3, ChildOf(x, Ordered::hinted(3)));
    world.set_child_of(h1, ChildOf(x, Ordered::hinted(1)));
    world.set_child_of(h2, ChildOf(x, Ordered::hinted(2)));
    tree_indexing(&mut world);

    let children = world.parent_index(x).expect("has children").children.clone();
    assert_eq!(children.len(), 4);
    for (i, sid) in children.iter().enumerate() {
        let rec = world.sibling_index(sid.1).expect("indexed child");
        assert_eq!(rec.parent_node, x);
        assert_eq!(rec.ordered_node, *sid);
        if i == 0 {
            assert_eq!(rec.prev_sibling, None);
        } else {
            assert_eq!(rec.prev_sibling, Some(children[i - 1]));
        }
        if i + 1 == children.len() {
            assert_eq!(rec.next_sibling, None);
        } else {
            assert_eq!(rec.next_sibling, Some(children[i + 1]));
        }
    }
}

#[test]
fn insert_reapplied_is_a_no_op() {
    let mut world = TreeWorld::new();
    let p = 1u64;
    let (c1, c2, c3) = (2u64, 3u64, 4u64);
    world.set_child_of(c1, ChildOf(p, Ordered::hinted(1)));
    world.set_child_of(c2, ChildOf(p, Ordered::hinted(2)));
    world.set_child_of(c3, ChildOf(p, Ordered::hinted(3)));
    tree_indexing(&mut world);

    let before = parent_children_ids(world.parent_index(p).expect("has children"));
    let rec_before = *world.sibling_index(c2).expect("indexed");

    // write the identical relation again: the next pass re-runs the
    // insert for an already correctly positioned child
    world.set_child_of(c2, ChildOf(p, Ordered::hinted(2)));
    tree_indexing(&mut world);

    let after = parent_children_ids(world.parent_index(p).expect("has children"));
    let rec_after = *world.sibling_index(c2).expect("indexed");
    assert_eq!(before, after);
    assert_eq!(rec_before.parent_node, rec_after.parent_node);
    assert_eq!(rec_before.ordered_node, rec_after.ordered_node);
    assert_eq!(rec_before.prev_sibling, rec_after.prev_sibling);
    assert_eq!(rec_before.next_sibling, rec_after.next_sibling);
}

#[test]
fn orphaned_parent_index_is_retained() {
    let mut world = TreeWorld::new();
    let p = 1u64;
    let (c1, c2) = (2u64, 3u64);
    world.set_child_of(c1, ChildOf(p, Ordered::hinted(1)));
    world.set_child_of(c2, ChildOf(p, Ordered::hinted(2)));
    tree_indexing(&mut world);
    assert_eq!(
        parent_children_ids(world.parent_index(p).expect("has children")),
        vec![c1, c2]
    );

    world.delete_child_of(c1);
    world.delete_child_of(c2);
    tree_indexing(&mut world);

    let pi = world
        .parent_index(p)
        .expect("the parent record is retained");
    assert!(pi.children.is_empty());
    assert!(world.sibling_index(c1).is_none());
    assert!(world.sibling_index(c2).is_none());
}

#[test]
fn pass_with_no_changes_leaves_everything_alone() {
    let mut world = TreeWorld::new();
    let p = 1u64;
    let (c1, c2) = (2u64, 3u64);
    world.set_child_of(c1, ChildOf(p, Ordered::hinted(1)));
    world.set_child_of(c2, ChildOf(p, Ordered::hinted(2)));
    tree_indexing(&mut world);
    let before = parent_children_ids(world.parent_index(p).expect("has children"));

    tree_indexing(&mut world);

    let after = parent_children_ids(world.parent_index(p).expect("has children"));
    assert_eq!(before, after);
    assert_eq!(after, vec![c1, c2]);
}

#[test]
fn move_to_a_fresh_parent_with_a_sibling_insert() {
    let mut world = TreeWorld::new();
    let (a, b) = (1u64, 2u64);
    let (m, x, n) = (3u64, 4u64, 5u64);
    // m and x live under a; b has never been a parent
    world.set_child_of(m, ChildOf(a, Ordered(10)));
    world.set_child_of(x, ChildOf(a, Ordered(20)));
    tree_indexing(&mut world);

    // in one window: re-parent m under b, and insert a brand-new n there
    world.set_child_of(m, ChildOf(b, Ordered(30)));
    world.set_child_of(n, ChildOf(b, Ordered(40)));
    tree_indexing(&mut world);

    assert_eq!(
        parent_children_ids(world.parent_index(a).expect("retained")),
        vec![x],
        "the old parent must not keep a stale entry"
    );
    assert_eq!(
        parent_children_ids(world.parent_index(b).expect("has children")),
        vec![m, n]
    );
    let m_rec = world.sibling_index(m).expect("indexed");
    assert_eq!(m_rec.parent_node, b);
    assert_eq!(m_rec.prev_sibling, None);
    assert_eq!(m_rec.next_sibling, Some((Ordered(40), n)));
    let x_rec = world.sibling_index(x).expect("indexed");
    assert_eq!(x_rec.prev_sibling, None);
    assert_eq!(x_rec.next_sibling, None);
}

#[test]
fn key_only_change_relinks_the_neighbours() {
    let mut world = TreeWorld::new();
    let p = 1u64;
    let (c1, c2, c3) = (2u64, 3u64, 4u64);
    world.set_child_of(c1, ChildOf(p, Ordered(10)));
    world.set_child_of(c2, ChildOf(p, Ordered(20)));
    world.set_child_of(c3, ChildOf(p, Ordered(30)));
    tree_indexing(&mut world);

    // move c1 to the far end by key alone, going through insert directly:
    // its stale entry is unlinked before the fresh one is spliced in
    world.set_child_of(c1, ChildOf(p, Ordered(40)));
    insert_child_of(&mut world, c1, &Ordered(40), p);

    assert_eq!(
        parent_children_ids(world.parent_index(p).expect("has children")),
        vec![c2, c3, c1]
    );
    let c2_rec = world.sibling_index(c2).expect("indexed");
    assert_eq!(c2_rec.prev_sibling, None);
    assert_eq!(c2_rec.next_sibling, Some((Ordered(30), c3)));
    let c1_rec = world.sibling_index(c1).expect("indexed");
    assert_eq!(c1_rec.prev_sibling, Some((Ordered(30), c3)));
    assert_eq!(c1_rec.next_sibling, None);
}

#[test]
fn equal_keys_are_ordered_by_id() {
    let mut world = TreeWorld::new();
    let p = 1u64;
    let (hi, lo) = (9u64, 7u64);
    world.set_child_of(hi, ChildOf(p, Ordered(42)));
    world.set_child_of(lo, ChildOf(p, Ordered(42)));
    tree_indexing(&mut world);
    assert_eq!(
        parent_children_ids(world.parent_index(p).expect("has children")),
        vec![lo, hi]
    );
}
