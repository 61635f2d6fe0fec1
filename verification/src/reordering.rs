//! The reorder resolver: drains a FIFO queue of move commands, computing
//! for each target a new (parent, key) relation, deterministically even
//! when the two reference entities have ended up under different parents.

use vstd::prelude::*;

use crate::node::{between_value, ChildOf, Id, Ordered, MAX_ORDERED};
use crate::world::TreeWorld;

verus! {

/// A command to place `entity` immediately between the two referenced
/// entities.
pub enum ReorderCmd {
    Move { entity: Id, between: (Id, Id) },
}

/// Unique storage of commands for reordering.
pub struct ReorderCommands(pub Vec<ReorderCmd>);

/// The target the command moves.
pub open spec fn cmd_entity(cmd: ReorderCmd) -> Id {
    match cmd {
        ReorderCmd::Move { entity, between } => entity,
    }
}

/// The two reference entities of the command.
pub open spec fn cmd_refs(cmd: ReorderCmd) -> (Id, Id) {
    match cmd {
        ReorderCmd::Move { entity, between } => between,
    }
}

/// A command may only name entities that currently have a relation; a
/// missing one would be a fatal precondition violation, since silently
/// dropping the command would desynchronize replicas.
pub open spec fn cmd_ok(r: Map<Id, ChildOf>, cmd: ReorderCmd) -> bool {
    &&& r.contains_key(cmd_entity(cmd))
    &&& r.contains_key(cmd_refs(cmd).0)
    &&& r.contains_key(cmd_refs(cmd).1)
}

/// `ub` is the key of the immediate successor of key `k` among the
/// children of `p` in `r`, or the domain maximum when `k` has none.
pub open spec fn upper_bound_after(r: Map<Id, ChildOf>, p: Id, k: u32, ub: u32) -> bool {
    &&& forall|e: Id|
        r.contains_key(e) && (#[trigger] r[e]).0 == p && k < r[e].1.0 ==> ub <= r[e].1.0
    &&& (ub == MAX_ORDERED || exists|e: Id|
        r.contains_key(e) && (#[trigger] r[e]).0 == p && k < r[e].1.0 && r[e].1.0 == ub)
}

/// The key of `k`'s immediate successor among the children of `p`, or the
/// domain maximum. Meaningful whenever some bound satisfies
/// `upper_bound_after`, which pins it uniquely.
pub open spec fn next_key_after(r: Map<Id, ChildOf>, p: Id, k: u32) -> u32 {
    choose|u: u32| upper_bound_after(r, p, k, u)
}

/// Only one bound satisfies `upper_bound_after`.
pub proof fn lemma_upper_bound_unique(r: Map<Id, ChildOf>, p: Id, k: u32, u1: u32, u2: u32)
    requires
        upper_bound_after(r, p, k, u1),
        upper_bound_after(r, p, k, u2),
    ensures
        u1 == u2,
{
    if u1 != u2 {
        if u1 != MAX_ORDERED {
            let e = choose|e: Id|
                r.contains_key(e) && (#[trigger] r[e]).0 == p && k < r[e].1.0 && r[e].1.0 == u1;
            assert(u2 <= u1);
        }
        if u2 != MAX_ORDERED {
            let e = choose|e: Id|
                r.contains_key(e) && (#[trigger] r[e]).0 == p && k < r[e].1.0 && r[e].1.0 == u2;
            assert(u1 <= u2);
        }
    }
}

/// A bound shown to satisfy `upper_bound_after` is the successor key.
pub proof fn lemma_next_key(r: Map<Id, ChildOf>, p: Id, k: u32, ub: u32)
    requires
        upper_bound_after(r, p, k, ub),
    ensures
        next_key_after(r, p, k) == ub,
{
    lemma_upper_bound_unique(r, p, k, next_key_after(r, p, k), ub);
}

/// The relation a command resolves to against the relation state `r`: the
/// floor average of the two references' keys under their shared parent,
/// or, when the references' parents differ, a position just after the
/// first reference under its own parent.
pub open spec fn resolved_relation(r: Map<Id, ChildOf>, cmd: ReorderCmd) -> ChildOf {
    let ca = r[cmd_refs(cmd).0];
    let cb = r[cmd_refs(cmd).1];
    if ca.0 == cb.0 {
        ChildOf(ca.0, Ordered(between_value(ca.1.0, cb.1.0) as u32))
    } else {
        ChildOf(ca.0, Ordered(between_value(ca.1.0, next_key_after(r, ca.0, ca.1.0)) as u32))
    }
}

/// The relation state after draining `cmds` front to back, each command
/// observing the state left by the ones before it.
pub open spec fn resolve_all(r: Map<Id, ChildOf>, cmds: Seq<ReorderCmd>) -> Map<Id, ChildOf>
    decreases cmds.len(),
{
    if cmds.len() == 0 {
        r
    } else {
        resolve_all(
            r.insert(cmd_entity(cmds[0]), resolved_relation(r, cmds[0])),
            cmds.drop_first(),
        )
    }
}

/// Drain the whole command queue in submission order, writing each
/// resolved (parent, key) to the target's relation. The writes are
/// recorded in the store's diff for the next maintenance pass; the
/// derived indexes are untouched here.
pub fn tree_reordering(commands: &mut ReorderCommands, world: &mut TreeWorld)
    requires
        old(world).inv(),
        forall|i: int|
            0 <= i < old(commands).0@.len() ==> cmd_ok(
                old(world).rels@,
                #[trigger] old(commands).0@[i],
            ),
    ensures
        final(world).inv(),
        final(commands).0@.len() == 0,
        final(world).rels@ == resolve_all(old(world).rels@, old(commands).0@),
        final(world).rels@.dom() == old(world).rels@.dom(),
        final(world).sibling@ == old(world).sibling@,
        final(world).parent@ == old(world).parent@,
        final(world).indexed@ == old(world).indexed@,
{
    let ghost r0 = world.rels@;
    let ghost cmds0 = commands.0@;
    proof {
        assert(resolve_all(world.rels@, commands.0@) == resolve_all(r0, cmds0));
    }
    while commands.0.len() > 0
        invariant
            world.inv(),
            world.sibling@ == old(world).sibling@,
            world.parent@ == old(world).parent@,
            world.indexed@ == old(world).indexed@,
            forall|k: Id| #[trigger] world.rels@.contains_key(k) <==> r0.contains_key(k),
            forall|i: int|
                0 <= i < commands.0@.len() ==> cmd_ok(r0, #[trigger] commands.0@[i]),
            resolve_all(world.rels@, commands.0@) == resolve_all(r0, cmds0),
        decreases commands.0@.len(),
    {
        let ghost r_cur = world.rels@;
        let ghost cmds_cur = commands.0@;
        let cmd = commands.0.remove(0);
        proof {
            assert(cmds_cur[0] == cmd);
            assert(commands.0@ =~= cmds_cur.drop_first());
            assert forall|i: int|
                0 <= i < commands.0@.len() implies cmd_ok(r0, #[trigger] commands.0@[i]) by {
                assert(commands.0@[i] == cmds_cur[i + 1]);
            }
        }
        match cmd {
            ReorderCmd::Move { entity: target, between } => {
                let (a, b) = between;
                let child_of_a = *world.rels.get(a).unwrap();
                let child_of_b = *world.rels.get(b).unwrap();
                let a_of = child_of_a.0;
                let a_ord = child_of_a.1;
                let b_of = child_of_b.0;
                let mut b_ord = child_of_b.1;

                if a_of != b_of {
                    // the references no longer share a parent: fall back
                    // to the smallest key strictly after a under a's own
                    // current parent, with the domain maximum as default
                    let ghost entries = world.rels.entries@;
                    let ghost rc = world.rels@;
                    let mut after = Ordered(MAX_ORDERED);
                    let n = world.rels.entries.len();
                    let mut i: usize = 0;
                    while i < n
                        invariant
                            world.rels.entries@ == entries,
                            world.rels@ == rc,
                            world.rels.wf(),
                            n == entries.len(),
                            i <= n,
                            forall|j: int|
                                0 <= j < i && (#[trigger] entries[j]).1.0 == a_of && a_ord.0
                                    < entries[j].1.1.0 ==> after.0 <= entries[j].1.1.0,
                            after.0 == MAX_ORDERED || exists|j: int|
                                0 <= j < i && (#[trigger] entries[j]).1.0 == a_of && a_ord.0
                                    < entries[j].1.1.0 && entries[j].1.1.0 == after.0,
                        decreases n - i,
                    {
                        let (eid, eco) = world.rels.entries[i];
                        if eco.0 == a_of && a_ord.0 < eco.1.0 && eco.1.0 < after.0 {
                            after = eco.1;
                            proof {
                                assert(entries[i as int].1.1.0 == after.0);
                            }
                        }
                        i += 1;
                    }
                    proof {
                        assert(upper_bound_after(rc, a_of, a_ord.0, after.0)) by {
                            assert forall|e: Id|
                                rc.contains_key(e) && (#[trigger] rc[e]).0 == a_of && a_ord.0
                                    < rc[e].1.0 implies after.0 <= rc[e].1.0 by {
                                let j = choose|j: int|
                                    0 <= j < entries.len() && (#[trigger] entries[j]).0 == e;
                                assert(entries[j].1 == rc[e]);
                            }
                            if after.0 != MAX_ORDERED {
                                let j = choose|j: int|
                                    0 <= j < entries.len() && (#[trigger] entries[j]).1.0 == a_of
                                        && a_ord.0 < entries[j].1.1.0 && entries[j].1.1.0
                                        == after.0;
                                assert(rc.contains_key(entries[j].0) && rc[entries[j].0]
                                    == entries[j].1);
                            }
                        }
                        lemma_next_key(rc, a_of, a_ord.0, after.0);
                    }
                    b_ord = after;
                }

                // update position of the child
                let new_order = Ordered::between(&a_ord, &b_ord);
                world.set_child_of(target, ChildOf(a_of, new_order));
                proof {
                    assert(ChildOf(a_of, new_order) == resolved_relation(r_cur, cmd));
                    assert(world.rels@ == r_cur.insert(target, resolved_relation(r_cur, cmd)));
                    assert(resolve_all(r_cur, cmds_cur) == resolve_all(
                        world.rels@,
                        commands.0@,
                    ));
                    assert forall|k: Id|
                        #[trigger] world.rels@.contains_key(k) <==> r0.contains_key(k) by {
                        assert(r_cur.contains_key(target));
                    }
                }
            },
        }
    }
    proof {
        assert(world.rels@ == resolve_all(r0, cmds0));
        assert(world.rels@.dom() =~= r0.dom());
    }
}

} // verus!
