use ordered_tree::{tree_indexing, tree_reordering};
use ordered_tree::{ChildOf, Ordered, ReorderCmd, ReorderCommands, TreeWorld, MAX_ORDERED};

fn children_ids(world: &TreeWorld, p: u64) -> Vec<u64> {
    world
        .parent_index(p)
        .expect("has children")
        .children
        .iter()
        .map(|c| c.1)
        .collect()
}

#[test]
fn scenario_same_parent_move() {
    let mut world = TreeWorld::new();
    let p = 1u64;
    let (x, y, t) = (2u64, 3u64, 4u64);
    world.set_child_of(x, ChildOf(p, Ordered(10)));
    world.set_child_of(y, ChildOf(p, Ordered(20)));
    world.set_child_of(t, ChildOf(p, Ordered(12)));
    tree_indexing(&mut world);

    let mut commands = ReorderCommands(vec![ReorderCmd::Move {
        entity: t,
        between: (x, y),
    }]);
    tree_reordering(&mut commands, &mut world);
    assert!(commands.0.is_empty(), "the queue is drained");

    let rel = *world.child_of(t).expect("target keeps a relation");
    assert_eq!(rel, ChildOf(p, Ordered(15)));

    tree_indexing(&mut world);
    assert_eq!(children_ids(&world, p), vec![x, t, y]);
}

#[test]
fn scenario_cross_parent_conflict() {
    let mut world = TreeWorld::new();
    let (p1, p2) = (1u64, 2u64);
    let (w, x, y, t) = (3u64, 4u64, 5u64, 6u64);
    // x is p1's last child; y lives under p2
    world.set_child_of(w, ChildOf(p1, Ordered(50)));
    world.set_child_of(x, ChildOf(p1, Ordered(100)));
    world.set_child_of(y, ChildOf(p2, Ordered(20)));
    world.set_child_of(t, ChildOf(p2, Ordered(30)));
    tree_indexing(&mut world);

    let mut commands = ReorderCommands(vec![ReorderCmd::Move {
        entity: t,
        between: (x, y),
    }]);
    tree_reordering(&mut commands, &mut world);

    // t lands just after x under p1, irrespective of y
    let rel = *world.child_of(t).expect("target keeps a relation");
    let expected = Ordered::between(&Ordered(100), &Ordered(MAX_ORDERED));
    assert_eq!(rel, ChildOf(p1, expected));
    assert_eq!(rel.1 .0, 50 + MAX_ORDERED / 2);

    tree_indexing(&mut world);
    assert_eq!(children_ids(&world, p1), vec![w, x, t]);
    assert_eq!(children_ids(&world, p2), vec![y]);
}

#[test]
fn conflict_picks_the_immediate_successor() {
    let mut world = TreeWorld::new();
    let (p1, p2) = (1u64, 2u64);
    let (x, s1, s2, y, t) = (3u64, 4u64, 5u64, 6u64, 7u64);
    // x has two siblings after it: the nearer one bounds the new key
    world.set_child_of(x, ChildOf(p1, Ordered(100)));
    world.set_child_of(s1, ChildOf(p1, Ordered(200)));
    world.set_child_of(s2, ChildOf(p1, Ordered(400)));
    world.set_child_of(y, ChildOf(p2, Ordered(20)));
    world.set_child_of(t, ChildOf(p2, Ordered(30)));
    tree_indexing(&mut world);

    let mut commands = ReorderCommands(vec![ReorderCmd::Move {
        entity: t,
        between: (x, y),
    }]);
    tree_reordering(&mut commands, &mut world);

    let rel = *world.child_of(t).expect("target keeps a relation");
    assert_eq!(rel, ChildOf(p1, Ordered(150)));

    tree_indexing(&mut world);
    assert_eq!(children_ids(&world, p1), vec![x, t, s1, s2]);
}

#[test]
fn commands_drain_in_submission_order() {
    let mut world = TreeWorld::new();
    let p = 1u64;
    let (a, b, c, t) = (2u64, 3u64, 4u64, 5u64);
    world.set_child_of(a, ChildOf(p, Ordered(10)));
    world.set_child_of(b, ChildOf(p, Ordered(20)));
    world.set_child_of(c, ChildOf(p, Ordered(40)));
    world.set_child_of(t, ChildOf(p, Ordered(100)));
    tree_indexing(&mut world);

    // the second command observes the state the first one wrote
    let mut commands = ReorderCommands(vec![
        ReorderCmd::Move {
            entity: t,
            between: (a, b),
        },
        ReorderCmd::Move {
            entity: t,
            between: (b, c),
        },
    ]);
    tree_reordering(&mut commands, &mut world);
    assert!(commands.0.is_empty());

    let rel = *world.child_of(t).expect("target keeps a relation");
    assert_eq!(rel, ChildOf(p, Ordered(30)));

    tree_indexing(&mut world);
    assert_eq!(children_ids(&world, p), vec![a, b, t, c]);
}
