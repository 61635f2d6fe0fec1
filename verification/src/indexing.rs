//! The derived indexes over the `ChildOf` relations: a doubly linked
//! sibling list per child and an ordered child list per parent, together
//! with the maintenance pass that keeps them consistent with the relation
//! store's change diff.

use vstd::prelude::*;

use crate::node::{ChildOf, Id, Ordered, SiblingID};
use crate::world::{diff_rel, TreeWorld};

verus! {

/// Derived record for one currently parented entity: its parent, its own
/// sibling reference, and its neighbours in the parent's ordered child
/// list. Maintained exclusively by `tree_indexing`.
#[derive(Clone, Copy, Debug)]
pub struct SiblingIndex {
    pub parent_node: Id,
    pub ordered_node: SiblingID,
    pub prev_sibling: Option<SiblingID>,
    pub next_sibling: Option<SiblingID>,
}

/// Derived record for one entity that has ever been named as a parent: its
/// children as sibling references, ascending. Maintained exclusively by
/// `tree_indexing`; never removed when the last child goes away.
#[derive(Clone, Debug)]
pub struct ParentIndex {
    pub children: Vec<SiblingID>,
}

/// Strict order on sibling references: by key first, then by entity id.
/// The id tie break keeps the order total even when two children share an
/// identical key after a fractional-index collision.
pub open spec fn sib_lt(a: SiblingID, b: SiblingID) -> bool {
    a.0.0 < b.0.0 || (a.0.0 == b.0.0 && a.1 < b.1)
}

/// Strictly ascending by `sib_lt`.
pub open spec fn sorted_strict(s: Seq<SiblingID>) -> bool {
    forall|i: int, j: int| 0 <= i < j < s.len() ==> sib_lt(#[trigger] s[i], #[trigger] s[j])
}

/// The sibling record that position `i` of the child list `ch` of parent
/// `p` calls for: neighbours straight from the adjacent positions, `None`
/// on an open side.
pub open spec fn expected_record(ch: Seq<SiblingID>, i: int, p: Id) -> SiblingIndex {
    SiblingIndex {
        parent_node: p,
        ordered_node: ch[i],
        prev_sibling: if i > 0 { Some(ch[i - 1]) } else { None::<SiblingID> },
        next_sibling: if i + 1 < ch.len() { Some(ch[i + 1]) } else { None::<SiblingID> },
    }
}

/// A parent's child list is consistent with the relations `m` and the
/// sibling records `sib`: strictly sorted, listing exactly the entities
/// whose relation names `p`, each with the sibling record its position
/// calls for.
pub open spec fn parent_ok(
    p: Id,
    ch: Seq<SiblingID>,
    sib: Map<Id, SiblingIndex>,
    m: Map<Id, ChildOf>,
) -> bool {
    &&& sorted_strict(ch)
    &&& forall|i: int|
        0 <= i < ch.len() ==> {
            let s = #[trigger] ch[i];
            &&& m.contains_key(s.1)
            &&& m[s.1] == ChildOf(p, s.0)
            &&& sib.contains_key(s.1)
            &&& sib[s.1] == expected_record(ch, i, p)
        }
    &&& forall|c: Id|
        m.contains_key(c) && (#[trigger] m[c]).0 == p ==> ch.contains((m[c].1, c))
}

/// Both derived indexes are consistent with the relation snapshot `m`:
/// an entity has a sibling record exactly when it has a relation, every
/// current child's parent has a parent record, and every parent record
/// satisfies `parent_ok`.
pub open spec fn inv_indexes(
    sib: Map<Id, SiblingIndex>,
    par: Map<Id, ParentIndex>,
    m: Map<Id, ChildOf>,
) -> bool {
    &&& forall|c: Id| #[trigger] sib.contains_key(c) <==> m.contains_key(c)
    &&& forall|c: Id| m.contains_key(c) ==> par.contains_key((#[trigger] m[c]).0)
    &&& forall|p: Id|
        #[trigger] par.contains_key(p) ==> parent_ok(p, par[p].children@, sib, m)
}

/// Orphan retention: a parent record, once created, outlives its
/// children. Whenever the indexes are consistent with the relation
/// snapshot and no relation names `p` as a parent any more, `p`'s record
/// is still present, with an empty (hence trivially consistent) child
/// list.
pub proof fn lemma_empty_parent_retained(world: TreeWorld, p: Id)
    requires
        world.wf_indexes(),
        world.parent@.contains_key(p),
        forall|c: Id|
            world.indexed@.contains_key(c) ==> (#[trigger] world.indexed@[c]).0 != p,
    ensures
        world.parent@[p].children@.len() == 0,
{
    if world.parent@[p].children@.len() > 0 {
        let s = world.parent@[p].children@[0];
        assert(world.indexed@.contains_key(s.1) && world.indexed@[s.1] == ChildOf(p, s.0));
    }
}

/// In a list satisfying `parent_ok` no entity id appears twice: the
/// relation of an id pins its key, and a strictly sorted list cannot hold
/// the same reference twice.
proof fn lemma_ids_distinct(p: Id, ch: Seq<SiblingID>, sib: Map<Id, SiblingIndex>, m: Map<
    Id,
    ChildOf,
>)
    requires
        parent_ok(p, ch, sib, m),
    ensures
        forall|a: int, b: int|
            0 <= a < b < ch.len() ==> (#[trigger] ch[a]).1 != (#[trigger] ch[b]).1,
{
    assert forall|a: int, b: int|
        0 <= a < b < ch.len() implies (#[trigger] ch[a]).1 != (#[trigger] ch[b]).1 by {
        if ch[a].1 == ch[b].1 {
            assert(m[ch[a].1] == ChildOf(p, ch[a].0));
            assert(m[ch[b].1] == ChildOf(p, ch[b].0));
            assert(sib_lt(ch[a], ch[b]));
        }
    }
}

/// The index of the entry for `child` in a child list that holds one.
fn find_child_pos(ch: &Vec<SiblingID>, child: Id) -> (r: usize)
    requires
        exists|i: int| 0 <= i < ch@.len() && (#[trigger] ch@[i]).1 == child,
    ensures
        r < ch@.len(),
        ch@[r as int].1 == child,
{
    let mut j: usize = 0;
    while j < ch.len()
        invariant
            j <= ch@.len(),
            exists|i: int| 0 <= i < ch@.len() && (#[trigger] ch@[i]).1 == child,
            forall|l: int| 0 <= l < j ==> (#[trigger] ch@[l]).1 != child,
        decreases ch@.len() - j,
    {
        if ch[j].1 == child {
            return j;
        }
        j += 1;
    }
    proof {
        let i = choose|i: int| 0 <= i < ch@.len() && (#[trigger] ch@[i]).1 == child;
        assert(false);
    }
    0
}

/// The first position whose entry is not below `x`: the insertion point
/// that keeps the list sorted.
fn lower_bound(v: &Vec<SiblingID>, x: SiblingID) -> (r: usize)
    requires
        sorted_strict(v@),
    ensures
        r <= v@.len(),
        forall|l: int| 0 <= l < r ==> sib_lt(#[trigger] v@[l], x),
        forall|l: int| r <= l < v@.len() ==> !sib_lt(#[trigger] v@[l], x),
{
    let mut lo: usize = 0;
    let mut hi: usize = v.len();
    while lo < hi
        invariant
            lo <= hi <= v@.len(),
            sorted_strict(v@),
            forall|l: int| 0 <= l < lo ==> sib_lt(#[trigger] v@[l], x),
            forall|l: int| hi <= l < v@.len() ==> !sib_lt(#[trigger] v@[l], x),
        decreases hi - lo,
    {
        let mid = lo + (hi - lo) / 2;
        let m = v[mid];
        if m.0.0 < x.0.0 || (m.0.0 == x.0.0 && m.1 < x.1) {
            lo = mid + 1;
        } else {
            hi = mid;
        }
    }
    lo
}

/// Build the missing parent record of `parent_id`: scan all current
/// relations for its children, sort them once, and create the full linked
/// list for that set in one pass. Every one of those children must be
/// unindexed; the pass order guarantees that.
fn materialize_parent(world: &mut TreeWorld, parent_id: Id)
    requires
        old(world).wf_indexes(),
        !old(world).parent@.contains_key(parent_id),
        forall|c: Id|
            old(world).rels@.contains_key(c) && (#[trigger] old(world).rels@[c]).0 == parent_id
                ==> !old(world).indexed@.contains_key(c),
    ensures
        final(world).wf_indexes(),
        final(world).parent@.dom() == old(world).parent@.dom().insert(parent_id),
        final(world).rels == old(world).rels,
        final(world).inserted == old(world).inserted,
        final(world).modified == old(world).modified,
        final(world).deleted == old(world).deleted,
        forall|k: Id|
            old(world).indexed@.contains_key(k) ==> final(world).indexed@.contains_key(k)
                && final(world).indexed@[k] == old(world).indexed@[k],
        forall|k: Id|
            #[trigger] final(world).indexed@.contains_key(k) <==> old(
                world,
            ).indexed@.contains_key(k) || (old(world).rels@.contains_key(k) && old(
                world,
            ).rels@[k].0 == parent_id),
        forall|k: Id|
            final(world).indexed@.contains_key(k) && !old(world).indexed@.contains_key(k)
                ==> final(world).indexed@[k] == old(world).rels@[k],
{
    let ghost m0 = world.indexed@;
    let ghost sib0 = world.sibling@;
    let ghost par0 = world.parent@;
    let ghost r = world.rels@;
    let ghost entries = world.rels.entries@;

    // collect the current children of parent_id, sorted as they come
    let mut children: Vec<SiblingID> = Vec::new();
    let n = world.rels.entries.len();
    let mut i: usize = 0;
    while i < n
        invariant
            world == old(world),
            n == entries.len(),
            entries == world.rels.entries@,
            r == world.rels@,
            world.rels.wf(),
            i <= n,
            sorted_strict(children@),
            forall|l: int|
                0 <= l < children@.len() ==> exists|j: int|
                    0 <= j < i && (#[trigger] entries[j]).0 == (#[trigger] children@[l]).1
                        && entries[j].1 == ChildOf(parent_id, children@[l].0),
            forall|j: int|
                0 <= j < i && (#[trigger] entries[j]).1.0 == parent_id ==> children@.contains(
                    (entries[j].1.1, entries[j].0),
                ),
        decreases n - i,
    {
        let (id, co) = world.rels.entries[i];
        if co.0 == parent_id {
            let x: SiblingID = (co.1, id);
            let pos = lower_bound(&children, x);
            proof {
                // x is new: a matching entry would repeat the key of entry i
                if pos < children@.len() && children@[pos as int] == x {
                    let j = choose|j: int|
                        0 <= j < i && (#[trigger] entries[j]).0 == children@[pos as int].1
                            && entries[j].1 == ChildOf(parent_id, children@[pos as int].0);
                    assert(entries[j].0 == entries[i as int].0);
                }
            }
            let ghost before = children@;
            children.insert(pos, x);
            proof {
                assert forall|a: int, b: int|
                    0 <= a < b < children@.len() implies sib_lt(
                    #[trigger] children@[a],
                    #[trigger] children@[b],
                ) by {
                    let px = pos as int;
                    let a0: int = if a < px { a } else { a - 1 };
                    let b0: int = if b < px { b } else { b - 1 };
                    if a < px {
                        assert(children@[a] == before[a]);
                    }
                    if a > px {
                        assert(children@[a] == before[a - 1]);
                    }
                    if b < px {
                        assert(children@[b] == before[b]);
                    }
                    if b > px {
                        assert(children@[b] == before[b - 1]);
                    }
                    if a == px && b > px {
                        assert(!sib_lt(before[b - 1], x));
                        assert(children@[b] == before[b - 1]);
                        if !sib_lt(x, before[b - 1]) {
                            assert(before[b - 1] == x);
                            assert(false);
                        }
                    }
                    if b == px && a < px {
                        assert(sib_lt(before[a], x));
                    }
                }
                assert forall|l: int|
                    0 <= l < children@.len() implies exists|j: int|
                        0 <= j < i + 1 && (#[trigger] entries[j]).0 == (
                        #[trigger] children@[l]).1 && entries[j].1 == ChildOf(
                            parent_id,
                            children@[l].0,
                        ) by {
                    let px = pos as int;
                    if l == px {
                        assert(entries[i as int].0 == children@[l].1 && entries[i as int].1
                            == ChildOf(parent_id, children@[l].0));
                    } else {
                        let l0: int = if l < px { l } else { l - 1 };
                        assert(children@[l] == before[l0]);
                        let j = choose|j: int|
                            0 <= j < i && (#[trigger] entries[j]).0 == before[l0].1 && entries[j].1
                                == ChildOf(parent_id, before[l0].0);
                        assert(entries[j].0 == children@[l].1);
                    }
                }
                assert forall|j: int|
                    0 <= j < i + 1 && (#[trigger] entries[j]).1.0 == parent_id
                        implies children@.contains((entries[j].1.1, entries[j].0)) by {
                    if j == i {
                        assert(children@[pos as int] == (entries[j].1.1, entries[j].0));
                    } else {
                        assert(before.contains((entries[j].1.1, entries[j].0)));
                        let l0 = choose|l0: int|
                            0 <= l0 < before.len() && before[l0] == (entries[j].1.1, entries[j].0);
                        if l0 < pos as int {
                            assert(children@[l0] == before[l0]);
                        } else {
                            assert(children@[l0 + 1] == before[l0]);
                        }
                    }
                }
            }
        }
        i += 1;
    }

    proof {
        // each id occurs once: two equal ids would repeat a relation entry
        assert forall|a: int, b: int|
            0 <= a < b < children@.len() implies (#[trigger] children@[a]).1 != (
            #[trigger] children@[b]).1 by {
            if children@[a].1 == children@[b].1 {
                let ja = choose|j: int|
                    0 <= j < n && (#[trigger] entries[j]).0 == children@[a].1 && entries[j].1
                        == ChildOf(parent_id, children@[a].0);
                let jb = choose|j: int|
                    0 <= j < n && (#[trigger] entries[j]).0 == children@[b].1 && entries[j].1
                        == ChildOf(parent_id, children@[b].0);
                assert(ja == jb);
                assert(sib_lt(children@[a], children@[b]));
            }
        }
        // each child is a current relation naming parent_id, hence unindexed
        assert forall|l: int| 0 <= l < children@.len() implies r.contains_key(
            (#[trigger] children@[l]).1,
        ) && r[children@[l].1] == ChildOf(parent_id, children@[l].0) && !m0.contains_key(
            children@[l].1,
        ) && !sib0.contains_key(children@[l].1) by {
            let j = choose|j: int|
                0 <= j < n && (#[trigger] entries[j]).0 == children@[l].1 && entries[j].1
                    == ChildOf(parent_id, children@[l].0);
        }
    }
    let ghost ch = children@;

    // create the sibling records for the whole set
    let mut idx: usize = 0;
    while idx < children.len()
        invariant
            children@ == ch,
            idx <= ch.len(),
            world.rels == old(world).rels,
            world.parent == old(world).parent,
            world.inserted == old(world).inserted,
            world.modified == old(world).modified,
            world.deleted == old(world).deleted,
            world.indexed@ == m0,
            world.sibling.wf(),
            forall|q: Id| #[trigger] sib0.contains_key(q) <==> m0.contains_key(q),
            sorted_strict(ch),
            forall|a: int, b: int|
                0 <= a < b < ch.len() ==> (#[trigger] ch[a]).1 != (#[trigger] ch[b]).1,
            forall|l: int|
                0 <= l < ch.len() ==> r.contains_key((#[trigger] ch[l]).1) && r[ch[l].1]
                    == ChildOf(parent_id, ch[l].0) && !m0.contains_key(ch[l].1),
            forall|q: Id|
                #[trigger] world.sibling@.contains_key(q) <==> sib0.contains_key(q) || exists|
                    l: int,
                |
                    0 <= l < idx && (#[trigger] ch[l]).1 == q,
            forall|q: Id|
                sib0.contains_key(q) ==> #[trigger] world.sibling@[q] == sib0[q],
            forall|l: int|
                0 <= l < idx ==> #[trigger] world.sibling@[ch[l].1] == expected_record(
                    ch,
                    l,
                    parent_id,
                ),
        decreases ch.len() - idx,
    {
        let next_sibling = if idx + 1 < children.len() {
            Some(children[idx + 1])
        } else {
            None
        };
        let prev_sibling = if idx > 0 {
            Some(children[idx - 1])
        } else {
            None
        };
        let c = children[idx];
        proof {
            // sib0 never holds a child of this parent
            if sib0.contains_key(c.1) {
                assert(m0.contains_key(c.1));
            }
        }
        world.sibling.insert(
            c.1,
            SiblingIndex {
                next_sibling,
                prev_sibling,
                ordered_node: c,
                parent_node: parent_id,
            },
        );
        proof {
            assert forall|q: Id|
                #[trigger] world.sibling@.contains_key(q) <==> sib0.contains_key(q) || exists|
                    l: int,
                |
                    0 <= l < idx + 1 && (#[trigger] ch[l]).1 == q by {
                if world.sibling@.contains_key(q) && q != c.1 {
                }
                if q == c.1 {
                    assert(ch[idx as int].1 == q);
                }
            }
            assert forall|l: int|
                0 <= l < idx + 1 implies #[trigger] world.sibling@[ch[l].1] == expected_record(
                ch,
                l,
                parent_id,
            ) by {
                if l < idx {
                    assert(ch[l].1 != c.1);
                }
            }
        }
        idx += 1;
    }

    // the parent has no parent or siblings of its own to touch
    world.parent.insert(parent_id, ParentIndex { children });
    proof {
        world.indexed@ = Map::new(
            |k: Id| m0.contains_key(k) || (r.contains_key(k) && r[k].0 == parent_id),
            |k: Id| if r.contains_key(k) && r[k].0 == parent_id { r[k] } else { m0[k] },
        );
        let m1 = world.indexed@;
        let sib1 = world.sibling@;
        let par1 = world.parent@;

        assert(par1.dom() =~= par0.dom().insert(parent_id));
        assert(par1[parent_id].children@ == ch);

        assert forall|c: Id| #[trigger] sib1.contains_key(c) <==> m1.contains_key(c) by {
            if m1.contains_key(c) && !m0.contains_key(c) {
                assert(ch.contains((r[c].1, c)));
                let l = choose|l: int| 0 <= l < ch.len() && ch[l] == (r[c].1, c);
                assert(ch[l].1 == c);
            }
            if sib1.contains_key(c) && !sib0.contains_key(c) {
                let l = choose|l: int| 0 <= l < ch.len() && (#[trigger] ch[l]).1 == c;
                assert(r.contains_key(c) && r[c].0 == parent_id);
            }
        }
        assert forall|c: Id| m1.contains_key(c) implies par1.contains_key(
            (#[trigger] m1[c]).0,
        ) by {
            if m0.contains_key(c) {
                assert(m1[c] == m0[c]);
                assert(par0.contains_key(m0[c].0));
            } else {
                assert(m1[c].0 == parent_id);
            }
        }
        assert forall|p: Id| #[trigger] par1.contains_key(p) implies parent_ok(
            p,
            par1[p].children@,
            sib1,
            m1,
        ) by {
            if p == parent_id {
                assert forall|l: int| 0 <= l < ch.len() implies {
                    let s = #[trigger] ch[l];
                    &&& m1.contains_key(s.1)
                    &&& m1[s.1] == ChildOf(p, s.0)
                    &&& sib1.contains_key(s.1)
                    &&& sib1[s.1] == expected_record(ch, l, p)
                } by {
                    assert(ch[l].1 == ch[l].1);
                }
                assert forall|c: Id|
                    m1.contains_key(c) && (#[trigger] m1[c]).0 == p implies ch.contains(
                    (m1[c].1, c),
                ) by {
                    if m0.contains_key(c) {
                        assert(par0.contains_key(m0[c].0));
                        assert(parent_ok(p, par0[p].children@, sib0, m0));
                        assert(false);
                    } else {
                        assert(r.contains_key(c) && r[c].0 == parent_id);
                        assert(m1[c] == r[c]);
                    }
                }
            } else {
                let chp = par0[p].children@;
                assert(par1[p] == par0[p]);
                assert(parent_ok(p, chp, sib0, m0));
                assert forall|l: int| 0 <= l < chp.len() implies {
                    let s = #[trigger] chp[l];
                    &&& m1.contains_key(s.1)
                    &&& m1[s.1] == ChildOf(p, s.0)
                    &&& sib1.contains_key(s.1)
                    &&& sib1[s.1] == expected_record(chp, l, p)
                } by {
                    let s = chp[l];
                    assert(m0.contains_key(s.1));
                    assert(m1[s.1] == m0[s.1]);
                    assert(sib1[s.1] == sib0[s.1]);
                }
                assert forall|c: Id|
                    m1.contains_key(c) && (#[trigger] m1[c]).0 == p implies chp.contains(
                    (m1[c].1, c),
                ) by {
                    if !m0.contains_key(c) {
                        assert(m1[c].0 == parent_id);
                        assert(false);
                    }
                    assert(m1[c] == m0[c]);
                }
            }
        }
    }
}

/// Splice a fresh sibling reference for `child_id` into `parent_id`'s
/// existing child list at its sorted position, patch the two neighbours'
/// records, and create the child's own sibling record.
#[verifier::rlimit(100)]
fn splice_new_child(world: &mut TreeWorld, child_id: Id, child_order: &Ordered, parent_id: Id)
    requires
        old(world).wf_indexes(),
        !old(world).indexed@.contains_key(child_id),
        old(world).parent@.contains_key(parent_id),
    ensures
        final(world).wf_indexes(),
        final(world).indexed@ == old(world).indexed@.insert(
            child_id,
            ChildOf(parent_id, *child_order),
        ),
        final(world).parent@.dom() == old(world).parent@.dom(),
        final(world).rels == old(world).rels,
        final(world).inserted == old(world).inserted,
        final(world).modified == old(world).modified,
        final(world).deleted == old(world).deleted,
{
    let to_insert: SiblingID = (*child_order, child_id);
    let ghost m0 = world.indexed@;
    let ghost sib0 = world.sibling@;
    let ghost par0 = world.parent@;
    proof {
        assert(!m0.contains_key(child_id));
        assert(par0.contains_key(parent_id));
    }

    let mut pi = world.parent.remove(parent_id).unwrap();
    let ghost ch = pi.children@;
    proof {
        lemma_ids_distinct(parent_id, ch, sib0, m0);
        assert forall|l: int| 0 <= l < ch.len() implies (#[trigger] ch[l]).1 != child_id by {
            assert(m0.contains_key(ch[l].1));
        }
        assert(!ch.contains(to_insert));
    }

    let insert_at = lower_bound(&pi.children, to_insert);
    let ghost ix = insert_at as int;

    let prev_node_opt = if insert_at > 0 {
        Some(pi.children[insert_at - 1])
    } else {
        None
    };
    let next_node_opt = if insert_at < pi.children.len() {
        Some(pi.children[insert_at])
    } else {
        None
    };

    // splice the new sibling reference into the sorted child list
    pi.children.insert(insert_at, to_insert);
    world.parent.insert(parent_id, pi);
    let ghost nch = ch.insert(ix, to_insert);

    // update the neighbours' references
    if let Some(prev_node) = prev_node_opt {
        let mut prev_rec = *world.sibling.get(prev_node.1).unwrap();
        prev_rec.next_sibling = Some(to_insert);
        world.sibling.insert(prev_node.1, prev_rec);
    }
    if let Some(next_node) = next_node_opt {
        let mut next_rec = *world.sibling.get(next_node.1).unwrap();
        next_rec.prev_sibling = Some(to_insert);
        world.sibling.insert(next_node.1, next_rec);
    }

    world.sibling.insert(
        child_id,
        SiblingIndex {
            ordered_node: to_insert,
            next_sibling: next_node_opt,
            prev_sibling: prev_node_opt,
            parent_node: parent_id,
        },
    );
    proof {
        world.indexed@ = m0.insert(child_id, ChildOf(parent_id, *child_order));
    }

    proof {
        let sib1 = world.sibling@;
        let par1 = world.parent@;
        let m1 = world.indexed@;

        assert(par1.dom() =~= par0.dom().insert(parent_id));
        assert(par1.dom() =~= par0.dom());
        assert(par1[parent_id].children@ == nch);

        // the entry at the insertion point, when there is one, is strictly
        // above the new reference
        assert forall|l: int| ix <= l < ch.len() implies sib_lt(to_insert, #[trigger] ch[l]) by {
            assert(!sib_lt(ch[l], to_insert));
            if ch[l] == to_insert {
                assert(ch.contains(to_insert));
            }
            assert(ch[l].0 == Ordered(ch[l].0.0) && to_insert.0 == Ordered(to_insert.0.0));
        }

        // positions in the spliced list against the old one
        assert forall|l: int| 0 <= l < nch.len() implies #[trigger] nch[l] == (if l < ix {
            ch[l]
        } else if l == ix {
            to_insert
        } else {
            ch[l - 1]
        }) by {}

        // how the sibling map moved, pointwise
        assert(sib1.contains_key(child_id) && sib1[child_id] == SiblingIndex {
            ordered_node: to_insert,
            next_sibling: next_node_opt,
            prev_sibling: prev_node_opt,
            parent_node: parent_id,
        });
        assert forall|q: Id| q != child_id implies (#[trigger] sib1.contains_key(q)
            <==> sib0.contains_key(q)) by {}
        assert forall|q: Id|
            q != child_id && sib0.contains_key(q) && (prev_node_opt is Some ==> q
                != prev_node_opt->Some_0.1) && (next_node_opt is Some ==> q
                != next_node_opt->Some_0.1) implies #[trigger] sib1[q] == sib0[q] by {}
        if prev_node_opt is Some {
            assert(sib1[prev_node_opt->Some_0.1] == SiblingIndex {
                next_sibling: Some(to_insert),
                ..sib0[prev_node_opt->Some_0.1]
            }) by {
                assert(ch[ix - 1].1 != child_id);
                if next_node_opt is Some {
                    assert(ch[ix - 1].1 != ch[ix].1);
                }
            }
        }
        if next_node_opt is Some {
            assert(sib1[next_node_opt->Some_0.1] == SiblingIndex {
                prev_sibling: Some(to_insert),
                ..sib0[next_node_opt->Some_0.1]
            }) by {
                assert(ch[ix].1 != child_id);
            }
        }

        assert forall|c: Id| #[trigger] sib1.contains_key(c) <==> m1.contains_key(c) by {}
        assert forall|c: Id| m1.contains_key(c) implies par1.contains_key(
            (#[trigger] m1[c]).0,
        ) by {
            if c != child_id {
                assert(m0.contains_key(c) && m0[c] == m1[c]);
            }
        }
        assert forall|p: Id| #[trigger] par1.contains_key(p) implies parent_ok(
            p,
            par1[p].children@,
            sib1,
            m1,
        ) by {
            if p == parent_id {
                assert(sorted_strict(nch)) by {
                    assert forall|a: int, b: int| 0 <= a < b < nch.len() implies sib_lt(
                        #[trigger] nch[a],
                        #[trigger] nch[b],
                    ) by {
                        if a != ix && b != ix {
                            let a0: int = if a < ix { a } else { a - 1 };
                            let b0: int = if b < ix { b } else { b - 1 };
                            assert(nch[a] == ch[a0] && nch[b] == ch[b0]);
                        }
                    }
                }
                assert forall|l: int| 0 <= l < nch.len() implies {
                    let s = #[trigger] nch[l];
                    &&& m1.contains_key(s.1)
                    &&& m1[s.1] == ChildOf(p, s.0)
                    &&& sib1.contains_key(s.1)
                    &&& sib1[s.1] == expected_record(nch, l, p)
                } by {
                    if l == ix {
                        assert(nch[l] == to_insert);
                        assert(expected_record(nch, l, p) == sib1[child_id]) by {
                            if l > 0 {
                                assert(nch[l - 1] == ch[ix - 1]);
                            }
                            if l + 1 < nch.len() {
                                assert(nch[l + 1] == ch[ix]);
                            }
                        }
                    } else {
                        let l0: int = if l < ix { l } else { l - 1 };
                        let s = nch[l];
                        assert(s == ch[l0]);
                        assert(s.1 != child_id);
                        assert(m1[s.1] == m0[s.1]);
                        assert(sib0[s.1] == expected_record(ch, l0, p));
                        if l0 == ix - 1 {
                            // the new previous neighbour
                            assert(prev_node_opt == Some(ch[ix - 1]));
                            assert(s.1 == prev_node_opt->Some_0.1);
                            assert(sib1[s.1] == SiblingIndex {
                                next_sibling: Some(to_insert),
                                ..sib0[s.1]
                            });
                            assert(expected_record(nch, l, p) == SiblingIndex {
                                next_sibling: Some(to_insert),
                                ..expected_record(ch, l0, p)
                            }) by {
                                if l > 0 {
                                    assert(nch[l - 1] == ch[l - 1]);
                                }
                                assert(nch[l + 1] == to_insert);
                            }
                        } else if l0 == ix {
                            // the new next neighbour
                            assert(next_node_opt == Some(ch[ix]));
                            assert(s.1 == next_node_opt->Some_0.1);
                            assert(s.1 != child_id);
                            if prev_node_opt is Some {
                                assert(ch[ix - 1].1 != ch[ix].1);
                            }
                            assert(sib1[s.1] == SiblingIndex {
                                prev_sibling: Some(to_insert),
                                ..sib0[s.1]
                            });
                            assert(expected_record(nch, l, p) == SiblingIndex {
                                prev_sibling: Some(to_insert),
                                ..expected_record(ch, l0, p)
                            }) by {
                                assert(l == ix + 1);
                                assert(nch[l - 1] == to_insert);
                                if l + 1 < nch.len() {
                                    assert(nch[l + 1] == ch[l0 + 1]);
                                }
                            }
                        } else {
                            assert(s.1 != child_id);
                            if prev_node_opt is Some && s.1 == prev_node_opt->Some_0.1 {
                                assert(ch[l0].1 == ch[ix - 1].1);
                                assert(l0 == ix - 1);
                                assert(false);
                            }
                            if next_node_opt is Some && s.1 == next_node_opt->Some_0.1 {
                                assert(ch[l0].1 == ch[ix].1);
                                assert(l0 == ix);
                                assert(false);
                            }
                            assert(sib1[s.1] == sib0[s.1]);
                            assert(expected_record(nch, l, p) == expected_record(ch, l0, p)) by {
                                if l < ix {
                                    assert(l0 == l && l < ix - 1);
                                    if l > 0 {
                                        assert(nch[l - 1] == ch[l - 1]);
                                    }
                                    assert(l + 1 < nch.len());
                                    assert(nch[l + 1] == ch[l + 1]);
                                    assert(l + 1 < ch.len());
                                } else {
                                    assert(l0 == l - 1 && l0 > ix);
                                    assert(nch[l - 1] == ch[l0 - 1]);
                                    if l + 1 < nch.len() {
                                        assert(nch[l + 1] == ch[l0 + 1]);
                                    }
                                }
                            }
                        }
                    }
                }
                assert forall|c: Id|
                    m1.contains_key(c) && (#[trigger] m1[c]).0 == p implies nch.contains(
                    (m1[c].1, c),
                ) by {
                    if c == child_id {
                        assert(nch[ix] == (m1[c].1, c));
                    } else {
                        assert(ch.contains((m0[c].1, c)));
                        let l0 = choose|l0: int| 0 <= l0 < ch.len() && ch[l0] == (m0[c].1, c);
                        let l: int = if l0 < ix { l0 } else { l0 + 1 };
                        assert(nch[l] == ch[l0]);
                    }
                }
            } else {
                let chp = par0[p].children@;
                assert(par1[p] == par0[p]);
                assert(parent_ok(p, chp, sib0, m0));
                assert forall|l: int| 0 <= l < chp.len() implies {
                    let s = #[trigger] chp[l];
                    &&& m1.contains_key(s.1)
                    &&& m1[s.1] == ChildOf(p, s.0)
                    &&& sib1.contains_key(s.1)
                    &&& sib1[s.1] == expected_record(chp, l, p)
                } by {
                    let s = chp[l];
                    assert(sib0[s.1] == expected_record(chp, l, p));
                    assert(s.1 != child_id) by {
                        assert(m0.contains_key(s.1));
                    }
                    if prev_node_opt is Some && s.1 == prev_node_opt->Some_0.1 {
                        assert(sib0[s.1] == expected_record(ch, ix - 1, parent_id));
                        assert(false);
                    }
                    if next_node_opt is Some && s.1 == next_node_opt->Some_0.1 {
                        assert(sib0[s.1] == expected_record(ch, ix, parent_id));
                        assert(false);
                    }
                    assert(sib1[s.1] == sib0[s.1]);
                }
                assert forall|c: Id|
                    m1.contains_key(c) && (#[trigger] m1[c]).0 == p implies chp.contains(
                    (m1[c].1, c),
                ) by {
                    assert(c != child_id);
                    assert(m0.contains_key(c) && m0[c] == m1[c]);
                }
            }
        }
    }
}

/// Place `child_id` into the derived indexes under `parent_id` at
/// `child_order`, materializing the parent's record first if it has none.
/// Re-applying an insert that is already in place mutates nothing; when
/// only the key changed, the stale entry is unlinked first. The relation
/// being inserted must already stand in the store, a child indexed at all
/// must be indexed under this same parent, and when the parent is still
/// unindexed none of its current children may be indexed yet (the pass
/// order guarantees both).
#[verifier::rlimit(100)]
pub fn insert_child_of(world: &mut TreeWorld, child_id: Id, child_order: &Ordered, parent_id: Id)
    requires
        old(world).wf_indexes(),
        old(world).rels@.contains_key(child_id),
        old(world).rels@[child_id] == ChildOf(parent_id, *child_order),
        old(world).indexed@.contains_key(child_id) ==> old(world).indexed@[child_id].0
            == parent_id,
        !old(world).parent@.contains_key(parent_id) ==> forall|c: Id|
            old(world).rels@.contains_key(c) && (#[trigger] old(world).rels@[c]).0 == parent_id
                ==> !old(world).indexed@.contains_key(c),
    ensures
        final(world).wf_indexes(),
        final(world).parent@.dom() == old(world).parent@.dom().insert(parent_id),
        final(world).rels == old(world).rels,
        final(world).inserted == old(world).inserted,
        final(world).modified == old(world).modified,
        final(world).deleted == old(world).deleted,
        forall|k: Id|
            k != child_id && old(world).indexed@.contains_key(k)
                ==> final(world).indexed@.contains_key(k)
                && final(world).indexed@[k] == old(world).indexed@[k],
        final(world).indexed@.contains_key(child_id),
        final(world).indexed@[child_id] == ChildOf(parent_id, *child_order),
        forall|k: Id|
            k != child_id && #[trigger] final(world).indexed@.contains_key(k)
                && !old(world).indexed@.contains_key(k)
                ==> old(world).rels@.contains_key(k)
                && final(world).indexed@[k] == old(world).rels@[k]
                && old(world).rels@[k].0 == parent_id,
        !old(world).parent@.contains_key(parent_id) ==> forall|k: Id|
            old(world).rels@.contains_key(k) && (#[trigger] old(world).rels@[k]).0 == parent_id
                ==> final(world).indexed@.contains_key(k),
        old(world).indexed@.contains_key(child_id) && old(world).indexed@[child_id] == ChildOf(
            parent_id,
            *child_order,
        ) ==> *final(world) == *old(world),
        old(world).parent@.contains_key(parent_id) ==> final(world).indexed@ == old(
            world,
        ).indexed@.insert(child_id, ChildOf(parent_id, *child_order)),
{
    // parent: make sure its record exists, scanning all relations once if
    // it does not
    if !world.parent.contains(parent_id) {
        materialize_parent(world, parent_id);
    }
    let ghost ma = world.indexed@;
    let ghost r = world.rels@;
    proof {
        assert(world.parent@.contains_key(parent_id));
        assert(ma.contains_key(child_id) ==> ma[child_id].0 == parent_id);
    }

    let to_insert: SiblingID = (*child_order, child_id);
    let pi_ref = world.parent.get(parent_id).unwrap();
    let ghost cha = pi_ref.children@;
    let pos = lower_bound(&pi_ref.children, to_insert);
    let mut found = false;
    if pos < pi_ref.children.len() {
        let s = pi_ref.children[pos];
        found = s.0.0 == child_order.0 && s.1 == child_id;
    }
    proof {
        if found {
            assert(cha[pos as int] == to_insert);
        }
        if cha.contains(to_insert) {
            let q = choose|q: int| 0 <= q < cha.len() && cha[q] == to_insert;
            assert(q >= pos) by {
                if q < pos {
                    assert(sib_lt(cha[q], to_insert));
                }
            }
            assert(q == pos) by {
                if q > pos {
                    assert(sib_lt(cha[pos as int], cha[q]));
                }
            }
            assert(found);
        }
    }
    if found {
        // idempotence guard: the sibling reference is already in place
        proof {
            assert(ma.contains_key(child_id) && ma[child_id] == ChildOf(
                parent_id,
                *child_order,
            ));
            assert(world.parent@.dom() =~= old(world).parent@.dom().insert(parent_id));
            if old(world).indexed@.contains_key(child_id) {
                assert(old(world).parent@.contains_key(parent_id));
            }
            if old(world).parent@.contains_key(parent_id) {
                assert(world.indexed@ =~= old(world).indexed@.insert(
                    child_id,
                    ChildOf(parent_id, *child_order),
                ));
            }
        }
        return;
    }

    proof {
        // not found, so no materialization happened: that scan would have
        // indexed child at exactly this sibling reference
        if !old(world).parent@.contains_key(parent_id) {
            assert(world.indexed@.contains_key(child_id));
            assert(world.indexed@[child_id] == ChildOf(parent_id, *child_order));
            assert(cha.contains((world.indexed@[child_id].1, child_id)));
            assert(false);
        }
        // and for the same reason the child is not indexed at exactly the
        // new (parent, key): that entry would have been found
        if ma.contains_key(child_id) && ma[child_id] == ChildOf(parent_id, *child_order) {
            assert(cha.contains((ma[child_id].1, child_id)));
            assert(false);
        }
    }

    // the child may still be indexed under this parent at an older key:
    // take that stale entry out, repairing its neighbours' links, before
    // the fresh reference is spliced in
    if world.sibling.contains(child_id) {
        proof {
            assert(world.indexed@.contains_key(child_id));
        }
        unlink_child(world, child_id);
    }

    proof {
        assert(!world.indexed@.contains_key(child_id));
        assert(old(world).parent@.contains_key(parent_id));
    }
    let ghost mb = world.indexed@;
    splice_new_child(world, child_id, child_order, parent_id);
    proof {
        assert(world.indexed@ =~= old(world).indexed@.insert(
            child_id,
            ChildOf(parent_id, *child_order),
        ));
        assert(world.parent@.dom() =~= old(world).parent@.dom().insert(parent_id));
    }
}

/// Unlink `child` from the derived indexes: remove its entry from its/// Unlink `child` from the derived indexes: remove its entry from its
/// parent's child list, re-link its previous and next siblings to each
/// other, and delete its sibling record. The child must have been indexed
/// (a missing record would mean a prior invariant breach upstream).
#[verifier::rlimit(100)]
pub fn unlink_child(world: &mut TreeWorld, child: Id)
    requires
        old(world).wf_indexes(),
        old(world).indexed@.contains_key(child),
    ensures
        final(world).wf_indexes(),
        final(world).indexed@ == old(world).indexed@.remove(child),
        final(world).parent@.dom() == old(world).parent@.dom(),
        final(world).rels == old(world).rels,
        final(world).inserted == old(world).inserted,
        final(world).modified == old(world).modified,
        final(world).deleted == old(world).deleted,
{
    let ghost m0 = world.indexed@;
    let ghost sib0 = world.sibling@;
    let ghost par0 = world.parent@;

    let child_index = *world.sibling.get(child).unwrap();
    let parent_id = child_index.parent_node;
    let t_prev = child_index.prev_sibling;
    let t_next = child_index.next_sibling;

    let ghost ch = par0[m0[child].0].children@;
    proof {
        // child stands somewhere in its parent's list, and the record
        // there is child's own, so parent_id is m0[child].0.
        assert(ch.contains((m0[child].1, child)));
        let i = choose|i: int| 0 <= i < ch.len() && ch[i] == (m0[child].1, child);
        assert(sib0[child] == expected_record(ch, i, m0[child].0));
        assert(parent_id == m0[child].0);
        lemma_ids_distinct(parent_id, ch, sib0, m0);
    }

    // parent: remove child from the ordered child list
    let mut pi = world.parent.remove(parent_id).unwrap();
    let j = find_child_pos(&pi.children, child);
    let ghost jx = j as int;
    proof {
        // the record at the found position is child's own
        assert(sib0[ch[jx].1] == expected_record(ch, jx, parent_id));
        assert(child_index == expected_record(ch, jx, parent_id));
    }
    let _removed = pi.children.remove(j);
    world.parent.insert(parent_id, pi);
    let ghost nch = ch.remove(jx);

    // re-link the neighbours around the removed entry
    if let Some(prev_sibling_id) = t_prev {
        let mut prev_rec = *world.sibling.get(prev_sibling_id.1).unwrap();
        prev_rec.next_sibling = t_next;
        world.sibling.insert(prev_sibling_id.1, prev_rec);
    }
    if let Some(next_sibling_id) = t_next {
        let mut next_rec = *world.sibling.get(next_sibling_id.1).unwrap();
        next_rec.prev_sibling = t_prev;
        world.sibling.insert(next_sibling_id.1, next_rec);
    }

    let _gone = world.sibling.remove(child);
    proof {
        world.indexed@ = m0.remove(child);
    }

    proof {
        let sib1 = world.sibling@;
        let par1 = world.parent@;
        let m1 = world.indexed@;

        assert(par1.dom() =~= par0.dom());
        assert(par1[parent_id].children@ == nch);
        assert forall|q: Id| q != parent_id && par0.contains_key(q) implies par1[q]
            == par0[q] by {}

        // how the sibling map moved, pointwise
        assert(!sib1.contains_key(child));
        assert forall|q: Id| q != child implies (#[trigger] sib1.contains_key(q)
            <==> sib0.contains_key(q)) by {}
        assert forall|q: Id|
            q != child && sib0.contains_key(q) && (t_prev is Some ==> q != t_prev->Some_0.1) && (
            t_next is Some ==> q != t_next->Some_0.1) implies #[trigger] sib1[q] == sib0[q] by {}

        // positions in the shortened list against the old one
        assert forall|l: int| 0 <= l < nch.len() implies #[trigger] nch[l] == ch[
            if l < jx { l } else { l + 1 }] by {}

        assert forall|c: Id| #[trigger] sib1.contains_key(c) <==> m1.contains_key(c) by {}
        assert forall|c: Id| m1.contains_key(c) implies par1.contains_key((#[trigger] m1[c]).0) by {
            assert(m0.contains_key(c) && m0[c] == m1[c]);
        }
        assert forall|p: Id| #[trigger] par1.contains_key(p) implies parent_ok(
            p,
            par1[p].children@,
            sib1,
            m1,
        ) by {
            if p == parent_id {
                assert(sorted_strict(nch)) by {
                    assert forall|a: int, b: int| 0 <= a < b < nch.len() implies sib_lt(
                        #[trigger] nch[a],
                        #[trigger] nch[b],
                    ) by {
                        let a0: int = if a < jx { a } else { a + 1 };
                        let b0: int = if b < jx { b } else { b + 1 };
                        assert(nch[a] == ch[a0] && nch[b] == ch[b0]);
                    }
                }
                assert forall|l: int| 0 <= l < nch.len() implies {
                    let s = #[trigger] nch[l];
                    &&& m1.contains_key(s.1)
                    &&& m1[s.1] == ChildOf(p, s.0)
                    &&& sib1.contains_key(s.1)
                    &&& sib1[s.1] == expected_record(nch, l, p)
                } by {
                    let l0: int = if l < jx { l } else { l + 1 };
                    let s = nch[l];
                    assert(s == ch[l0]);
                    assert(s.1 != child);
                    assert(m1[s.1] == m0[s.1]);
                    assert(sib0[s.1] == expected_record(ch, l0, p));
                    if t_prev is Some && s.1 == t_prev->Some_0.1 {
                        // the previous neighbour: its next pointer was re-aimed
                        assert(jx > 0 && t_prev->Some_0 == ch[jx - 1]);
                        assert(l0 == jx - 1) by {
                            assert(ch[jx - 1].1 == s.1);
                        }
                        assert(sib1[s.1] == SiblingIndex {
                            next_sibling: t_next,
                            ..sib0[s.1]
                        });
                        assert(expected_record(nch, l, p) == SiblingIndex {
                            next_sibling: t_next,
                            ..expected_record(ch, l0, p)
                        }) by {
                            if l > 0 {
                                assert(nch[l - 1] == ch[l - 1]);
                            }
                            if l + 1 < nch.len() {
                                assert(nch[l + 1] == ch[jx + 1]);
                            }
                        }
                    } else if t_next is Some && s.1 == t_next->Some_0.1 {
                        // the next neighbour: its prev pointer was re-aimed
                        assert(jx + 1 < ch.len() && t_next->Some_0 == ch[jx + 1]);
                        assert(l0 == jx + 1) by {
                            assert(ch[jx + 1].1 == s.1);
                        }
                        assert(sib1[s.1] == SiblingIndex {
                            prev_sibling: t_prev,
                            ..sib0[s.1]
                        });
                        assert(expected_record(nch, l, p) == SiblingIndex {
                            prev_sibling: t_prev,
                            ..expected_record(ch, l0, p)
                        }) by {
                            if l > 0 {
                                assert(nch[l - 1] == ch[jx - 1]);
                            }
                            if l + 1 < nch.len() {
                                assert(nch[l + 1] == ch[l0 + 1]);
                            }
                        }
                    } else {
                        assert(sib1[s.1] == sib0[s.1]);
                        assert(expected_record(nch, l, p) == expected_record(ch, l0, p)) by {
                            if l > 0 {
                                let pr: int = if l - 1 < jx { l - 1 } else { l };
                                assert(nch[l - 1] == ch[pr]);
                                assert(pr == l0 - 1) by {
                                    if l0 - 1 == jx {
                                        assert(ch[jx].1 == child);
                                        assert(sib0[s.1] == expected_record(ch, l0, p));
                                        assert(t_prev->Some_0 == ch[jx]);
                                        assert(false);
                                    }
                                }
                            }
                            if l + 1 < nch.len() {
                                let nx: int = if l + 1 < jx { l + 1 } else { l + 2 };
                                assert(nch[l + 1] == ch[nx]);
                                assert(nx == l0 + 1) by {
                                    if l0 + 1 == jx {
                                        assert(t_next->Some_0 == ch[jx]);
                                        assert(false);
                                    }
                                }
                            }
                        }
                    }
                }
                assert forall|c: Id|
                    m1.contains_key(c) && (#[trigger] m1[c]).0 == p implies nch.contains(
                    (m1[c].1, c),
                ) by {
                    assert(ch.contains((m0[c].1, c)));
                    let l0 = choose|l0: int| 0 <= l0 < ch.len() && ch[l0] == (m0[c].1, c);
                    assert(l0 != jx) by {
                        assert(ch[jx].1 == child);
                    }
                    let l: int = if l0 < jx { l0 } else { l0 - 1 };
                    assert(nch[l] == ch[l0]);
                }
            } else {
                let chp = par0[p].children@;
                assert(par1[p] == par0[p]);
                assert(parent_ok(p, chp, sib0, m0));
                assert forall|l: int| 0 <= l < chp.len() implies {
                    let s = #[trigger] chp[l];
                    &&& m1.contains_key(s.1)
                    &&& m1[s.1] == ChildOf(p, s.0)
                    &&& sib1.contains_key(s.1)
                    &&& sib1[s.1] == expected_record(chp, l, p)
                } by {
                    let s = chp[l];
                    assert(sib0[s.1] == expected_record(chp, l, p));
                    assert(s.1 != child) by {
                        if s.1 == child {
                            assert(sib0[child].parent_node == p);
                        }
                    }
                    if t_prev is Some && s.1 == t_prev->Some_0.1 {
                        assert(sib0[t_prev->Some_0.1] == expected_record(ch, jx - 1, parent_id));
                        assert(false);
                    }
                    if t_next is Some && s.1 == t_next->Some_0.1 {
                        assert(sib0[t_next->Some_0.1] == expected_record(ch, jx + 1, parent_id));
                        assert(false);
                    }
                    assert(sib1[s.1] == sib0[s.1]);
                }
                assert forall|c: Id|
                    m1.contains_key(c) && (#[trigger] m1[c]).0 == p implies chp.contains(
                    (m1[c].1, c),
                ) by {
                    assert(m0.contains_key(c) && m0[c] == m1[c]);
                }
            }
        }
        assert(world.indexed@ =~= m0.remove(child));
    }
}

/// One maintenance pass: consume the store's change diff and update the
/// derived indexes so that they are consistent with the live relations
/// again. Deleted entities are unlinked first, then every modified entity
/// is unlinked from its old place, then insertions are placed, then the
/// modified entities are re-inserted under their new parent and key (a
/// modification is never an in-place key patch). Unlinking all modified
/// entities before any insertion runs means that a parent record
/// materialized mid-pass never meets a child that is still indexed
/// elsewhere. A parent record, once created, is never removed, even when
/// its last child goes away.
#[verifier::rlimit(100)]
pub fn tree_indexing(world: &mut TreeWorld)
    requires
        old(world).inv(),
    ensures
        final(world).inv(),
        final(world).rels == old(world).rels,
        final(world).indexed@ == old(world).rels@,
        final(world).inserted@.len() == 0,
        final(world).modified@.len() == 0,
        final(world).deleted@.len() == 0,
        old(world).parent@.dom() <= final(world).parent@.dom(),
        forall|q: Id|
            #[trigger] final(world).parent@.contains_key(q) <==> old(world).parent@.contains_key(
                q,
            ) || (exists|k: Id|
                #[trigger] old(world).inserted@.contains(k) && old(world).rels@[k].0 == q) || (
            exists|k: Id| #[trigger] old(world).modified@.contains(k) && old(world).rels@[k].0 == q),
{
    let ghost r = world.rels@;
    let ghost i0 = world.indexed@;
    let ghost ins = world.inserted@;
    let ghost md = world.modified@;
    let ghost del = world.deleted@;
    let ghost par0 = world.parent@;

    // deletions first: unlink every entity whose relation went away
    let dn = world.deleted.len();
    let mut di: usize = 0;
    while di < dn
        invariant
            world.wf_indexes(),
            world.rels == old(world).rels,
            world.inserted == old(world).inserted,
            world.modified == old(world).modified,
            world.deleted == old(world).deleted,
            r == world.rels@,
            i0 == old(world).indexed@,
            ins == world.inserted@,
            md == world.modified@,
            del == world.deleted@,
            diff_rel(r, i0, ins, md, del),
            forall|c: Id| i0.contains_key(c) ==> par0.contains_key((#[trigger] i0[c]).0),
            dn == del.len(),
            di <= dn,
            world.parent@.dom() == par0.dom(),
            forall|l: int| 0 <= l < di ==> !world.indexed@.contains_key(#[trigger] del[l]),
            forall|k: Id|
                #[trigger] world.indexed@.contains_key(k) ==> i0.contains_key(k)
                    && world.indexed@[k] == i0[k],
            forall|k: Id|
                i0.contains_key(k) && (forall|l: int| 0 <= l < di ==> #[trigger] del[l] != k)
                    ==> #[trigger] world.indexed@.contains_key(k),
        decreases dn - di,
    {
        let deleted_id = world.deleted[di];
        proof {
            assert(del[di as int] == deleted_id);
            assert(del.contains(deleted_id));
            assert forall|l: int| 0 <= l < di implies #[trigger] del[l] != deleted_id by {}
            assert(world.indexed@.contains_key(deleted_id));
        }
        unlink_child(world, deleted_id);
        di += 1;
    }

    proof {
        assert forall|k: Id| #[trigger] world.indexed@.contains_key(k) implies !del.contains(
            k,
        ) by {
            if del.contains(k) {
                let l = choose|l: int| 0 <= l < del.len() && del[l] == k;
            }
        }
    }

    // then take every modified entity out of its old place, so that a
    // parent record materialized later never meets a still-indexed child
    let mn = world.modified.len();
    let mut mu: usize = 0;
    while mu < mn
        invariant
            world.wf_indexes(),
            world.rels == old(world).rels,
            world.inserted == old(world).inserted,
            world.modified == old(world).modified,
            world.deleted == old(world).deleted,
            r == world.rels@,
            i0 == old(world).indexed@,
            ins == world.inserted@,
            md == world.modified@,
            del == world.deleted@,
            diff_rel(r, i0, ins, md, del),
            forall|c: Id| i0.contains_key(c) ==> par0.contains_key((#[trigger] i0[c]).0),
            mn == md.len(),
            mu <= mn,
            world.parent@.dom() == par0.dom(),
            forall|l: int| 0 <= l < mu ==> !world.indexed@.contains_key(#[trigger] md[l]),
            forall|k: Id|
                #[trigger] world.indexed@.contains_key(k) ==> i0.contains_key(k) && !del.contains(
                    k,
                ) && world.indexed@[k] == i0[k],
            forall|k: Id|
                i0.contains_key(k) && !del.contains(k) && (forall|l: int|
                    0 <= l < mu ==> #[trigger] md[l] != k) ==> #[trigger] world.indexed@.contains_key(
                    k,
                ),
        decreases mn - mu,
    {
        let modified_id = world.modified[mu];
        proof {
            assert(md[mu as int] == modified_id);
            assert(md.contains(modified_id));
            assert forall|l: int| 0 <= l < mu implies #[trigger] md[l] != modified_id by {}
            assert(i0.contains_key(modified_id) && !del.contains(modified_id));
            assert(world.indexed@.contains_key(modified_id));
        }
        unlink_child(world, modified_id);
        mu += 1;
    }

    proof {
        assert forall|k: Id| #[trigger] world.indexed@.contains_key(k) implies !md.contains(k) by {
            if md.contains(k) {
                let l = choose|l: int| 0 <= l < md.len() && md[l] == k;
            }
        }
    }

    // insertions: place every entity whose relation is new
    let inn = world.inserted.len();
    let mut ii: usize = 0;
    while ii < inn
        invariant
            world.wf_indexes(),
            world.rels == old(world).rels,
            world.inserted == old(world).inserted,
            world.modified == old(world).modified,
            world.deleted == old(world).deleted,
            r == world.rels@,
            i0 == old(world).indexed@,
            ins == world.inserted@,
            md == world.modified@,
            del == world.deleted@,
            diff_rel(r, i0, ins, md, del),
            forall|c: Id| i0.contains_key(c) ==> par0.contains_key((#[trigger] i0[c]).0),
            inn == ins.len(),
            ii <= inn,
            par0.dom() <= world.parent@.dom(),
            forall|q: Id|
                #[trigger] world.parent@.contains_key(q) <==> par0.contains_key(q) || exists|
                    l: int,
                |
                    0 <= l < ii && r[#[trigger] ins[l]].0 == q,
            forall|k: Id|
                i0.contains_key(k) && !del.contains(k) && !md.contains(k)
                    ==> #[trigger] world.indexed@.contains_key(k) && world.indexed@[k] == i0[k],
            forall|k: Id|
                #[trigger] world.indexed@.contains_key(k) && !(i0.contains_key(k) && !del.contains(
                    k,
                ) && !md.contains(k)) ==> (ins.contains(k) || md.contains(k)) && r.contains_key(k)
                    && world.indexed@[k] == r[k],
            forall|l: int| 0 <= l < ii ==> world.indexed@.contains_key(#[trigger] ins[l]),
        decreases inn - ii,
    {
        let inserted_id = world.inserted[ii];
        proof {
            assert(ins[ii as int] == inserted_id);
            assert(ins.contains(inserted_id));
        }
        let co = *world.rels.get(inserted_id).unwrap();
        proof {
            assert(co == ChildOf(co.0, co.1));
            if world.indexed@.contains_key(inserted_id) {
                assert(!(i0.contains_key(inserted_id) && !del.contains(inserted_id)
                    && !md.contains(inserted_id)));
                assert(world.indexed@[inserted_id] == r[inserted_id]);
            }
            if !world.parent@.contains_key(co.0) {
                assert forall|c: Id|
                    r.contains_key(c) && (#[trigger] r[c]).0 == co.0
                        implies !world.indexed@.contains_key(c) by {
                    if world.indexed@.contains_key(c) {
                        if i0.contains_key(c) && !del.contains(c) && !md.contains(c) {
                            if r[c] == i0[c] {
                                assert(par0.contains_key(i0[c].0));
                            } else {
                                assert(md.contains(c) || ins.contains(c));
                                if ins.contains(c) {
                                    assert(del.contains(c));
                                }
                            }
                        } else {
                            assert(world.indexed@[c] == r[c]);
                        }
                    }
                }
            }
        }
        let ghost mpre = world.indexed@;
        let ghost parpre = world.parent@;
        insert_child_of(world, inserted_id, &co.1, co.0);
        proof {
            assert forall|q: Id|
                #[trigger] world.parent@.contains_key(q) <==> par0.contains_key(q) || exists|
                    l: int,
                |
                    0 <= l < ii + 1 && r[#[trigger] ins[l]].0 == q by {
                assert(world.parent@.dom() == parpre.dom().insert(co.0));
                if world.parent@.contains_key(q) {
                    if q == co.0 {
                        assert(r[ins[ii as int]].0 == q);
                    } else {
                        assert(parpre.contains_key(q));
                        if !par0.contains_key(q) {
                            let l = choose|l: int| 0 <= l < ii && r[#[trigger] ins[l]].0 == q;
                            assert(0 <= l < ii + 1 && r[ins[l]].0 == q);
                        }
                    }
                }
                if exists|l: int| 0 <= l < ii + 1 && r[#[trigger] ins[l]].0 == q {
                    let l = choose|l: int| 0 <= l < ii + 1 && r[#[trigger] ins[l]].0 == q;
                    if l == ii {
                        assert(q == co.0);
                    } else {
                        assert(parpre.contains_key(q));
                    }
                }
                if par0.contains_key(q) {
                    assert(parpre.contains_key(q));
                }
            }
            assert forall|k: Id|
                i0.contains_key(k) && !del.contains(k) && !md.contains(k)
                    implies #[trigger] world.indexed@.contains_key(k) && world.indexed@[k]
                    == i0[k] by {
                assert(mpre.contains_key(k) && mpre[k] == i0[k]);
                if k == inserted_id {
                    assert(!i0.contains_key(k) || del.contains(k));
                } else {
                    assert(world.indexed@.contains_key(k) && world.indexed@[k] == mpre[k]);
                }
            }
            assert forall|k: Id|
                #[trigger] world.indexed@.contains_key(k) && !(i0.contains_key(k) && !del.contains(
                    k,
                ) && !md.contains(k)) implies (ins.contains(k) || md.contains(k))
                    && r.contains_key(k) && world.indexed@[k] == r[k] by {
                if k == inserted_id {
                    assert(world.indexed@[k] == ChildOf(co.0, co.1));
                } else if mpre.contains_key(k) {
                    assert(world.indexed@[k] == mpre[k]);
                } else {
                    assert(r.contains_key(k) && world.indexed@[k] == r[k] && r[k].0 == co.0);
                    if i0.contains_key(k) {
                        if del.contains(k) {
                            assert(ins.contains(k));
                        } else {
                            assert(md.contains(k));
                        }
                    } else {
                        assert(ins.contains(k));
                    }
                }
            }
        }
        ii += 1;
    }

    // finally re-insert every modified entity under its new parent and key
    let mut mi: usize = 0;
    while mi < mn
        invariant
            world.wf_indexes(),
            world.rels == old(world).rels,
            world.inserted == old(world).inserted,
            world.modified == old(world).modified,
            world.deleted == old(world).deleted,
            r == world.rels@,
            i0 == old(world).indexed@,
            ins == world.inserted@,
            md == world.modified@,
            del == world.deleted@,
            diff_rel(r, i0, ins, md, del),
            forall|c: Id| i0.contains_key(c) ==> par0.contains_key((#[trigger] i0[c]).0),
            mn == md.len(),
            mi <= mn,
            par0.dom() <= world.parent@.dom(),
            forall|q: Id|
                #[trigger] world.parent@.contains_key(q) <==> par0.contains_key(q) || (exists|
                    l: int,
                |
                    0 <= l < ins.len() && r[#[trigger] ins[l]].0 == q) || (exists|l: int|
                    0 <= l < mi && r[#[trigger] md[l]].0 == q),
            forall|k: Id|
                i0.contains_key(k) && !del.contains(k) && !md.contains(k)
                    ==> #[trigger] world.indexed@.contains_key(k) && world.indexed@[k] == i0[k],
            forall|k: Id|
                #[trigger] world.indexed@.contains_key(k) && !(i0.contains_key(k) && !del.contains(
                    k,
                ) && !md.contains(k)) ==> (ins.contains(k) || md.contains(k)) && r.contains_key(k)
                    && world.indexed@[k] == r[k],
            forall|l: int| 0 <= l < ins.len() ==> world.indexed@.contains_key(#[trigger] ins[l]),
            forall|l: int| 0 <= l < mi ==> world.indexed@.contains_key(#[trigger] md[l]),
        decreases mn - mi,
    {
        let modified_id = world.modified[mi];
        proof {
            assert(md[mi as int] == modified_id);
            assert(md.contains(modified_id));
        }
        let co = *world.rels.get(modified_id).unwrap();
        proof {
            assert(co == ChildOf(co.0, co.1));
            if world.indexed@.contains_key(modified_id) {
                assert(world.indexed@[modified_id] == r[modified_id]);
            }
            if !world.parent@.contains_key(co.0) {
                assert forall|c: Id|
                    r.contains_key(c) && (#[trigger] r[c]).0 == co.0
                        implies !world.indexed@.contains_key(c) by {
                    if world.indexed@.contains_key(c) {
                        if i0.contains_key(c) && !del.contains(c) && !md.contains(c) {
                            if r[c] == i0[c] {
                                assert(par0.contains_key(i0[c].0));
                            } else {
                                assert(md.contains(c) || ins.contains(c));
                                if ins.contains(c) {
                                    assert(del.contains(c));
                                }
                            }
                        } else {
                            assert(world.indexed@[c] == r[c]);
                        }
                    }
                }
            }
        }
        let ghost mpre = world.indexed@;
        let ghost parpre = world.parent@;
        insert_child_of(world, modified_id, &co.1, co.0);
        proof {
            assert forall|q: Id|
                #[trigger] world.parent@.contains_key(q) <==> par0.contains_key(q) || (exists|
                    l: int,
                |
                    0 <= l < ins.len() && r[#[trigger] ins[l]].0 == q) || (exists|l: int|
                    0 <= l < mi + 1 && r[#[trigger] md[l]].0 == q) by {
                assert(world.parent@.dom() == parpre.dom().insert(co.0));
                if world.parent@.contains_key(q) && q != co.0 {
                    assert(parpre.contains_key(q));
                    if !par0.contains_key(q) && !(exists|l: int|
                        0 <= l < ins.len() && r[#[trigger] ins[l]].0 == q) {
                        let l = choose|l: int| 0 <= l < mi && r[#[trigger] md[l]].0 == q;
                        assert(0 <= l < mi + 1 && r[md[l]].0 == q);
                    }
                }
                if q == co.0 {
                    assert(r[md[mi as int]].0 == q);
                }
                if exists|l: int| 0 <= l < mi + 1 && r[#[trigger] md[l]].0 == q {
                    let l = choose|l: int| 0 <= l < mi + 1 && r[#[trigger] md[l]].0 == q;
                    if l == mi {
                        assert(q == co.0);
                    } else {
                        assert(parpre.contains_key(q));
                    }
                }
                if par0.contains_key(q) || (exists|l: int|
                    0 <= l < ins.len() && r[#[trigger] ins[l]].0 == q) {
                    assert(parpre.contains_key(q));
                }
            }
            assert forall|k: Id|
                i0.contains_key(k) && !del.contains(k) && !md.contains(k)
                    implies #[trigger] world.indexed@.contains_key(k) && world.indexed@[k]
                    == i0[k] by {
                assert(mpre.contains_key(k) && mpre[k] == i0[k]);
                assert(k != modified_id);
                assert(world.indexed@.contains_key(k) && world.indexed@[k] == mpre[k]);
            }
            assert forall|k: Id|
                #[trigger] world.indexed@.contains_key(k) && !(i0.contains_key(k) && !del.contains(
                    k,
                ) && !md.contains(k)) implies (ins.contains(k) || md.contains(k))
                    && r.contains_key(k) && world.indexed@[k] == r[k] by {
                if k == modified_id {
                    assert(world.indexed@[k] == ChildOf(co.0, co.1));
                } else if mpre.contains_key(k) {
                    assert(world.indexed@[k] == mpre[k]);
                } else {
                    assert(r.contains_key(k) && world.indexed@[k] == r[k] && r[k].0 == co.0);
                    if i0.contains_key(k) {
                        if del.contains(k) {
                            assert(ins.contains(k));
                        } else {
                            assert(md.contains(k));
                        }
                    } else {
                        assert(ins.contains(k));
                    }
                }
            }
            assert forall|l: int|
                0 <= l < ins.len() implies world.indexed@.contains_key(#[trigger] ins[l]) by {
                if ins[l] != modified_id {
                    assert(mpre.contains_key(ins[l]));
                }
            }
        }
        mi += 1;
    }

    // the diff is consumed: the snapshot is the live relations again
    world.deleted.clear();
    world.inserted.clear();
    world.modified.clear();
    proof {
        assert forall|k: Id| #[trigger] world.indexed@.contains_key(k) implies r.contains_key(k)
            && world.indexed@[k] == r[k] by {
            if i0.contains_key(k) && !del.contains(k) && !md.contains(k) {
                assert(world.indexed@[k] == i0[k]);
                if ins.contains(k) {
                    assert(!i0.contains_key(k) || del.contains(k));
                }
                assert(r.contains_key(k));
                assert(r[k] == i0[k]);
            }
        }
        assert forall|k: Id| r.contains_key(k) implies world.indexed@.contains_key(k) by {
            if md.contains(k) {
                let l = choose|l: int| 0 <= l < md.len() && md[l] == k;
            } else if ins.contains(k) {
                let l = choose|l: int| 0 <= l < ins.len() && ins[l] == k;
            } else {
                if !(i0.contains_key(k) && !del.contains(k)) {
                    assert(ins.contains(k));
                }
            }
        }
        assert(world.indexed@ =~= r);
        assert forall|q: Id|
            #[trigger] world.parent@.contains_key(q) <==> par0.contains_key(q) || (exists|k: Id|
                #[trigger] ins.contains(k) && r[k].0 == q) || (exists|k: Id|
                #[trigger] md.contains(k) && r[k].0 == q) by {
            if world.parent@.contains_key(q) && !par0.contains_key(q) {
                if exists|l: int| 0 <= l < ins.len() && r[#[trigger] ins[l]].0 == q {
                    let l = choose|l: int| 0 <= l < ins.len() && r[#[trigger] ins[l]].0 == q;
                    assert(ins.contains(ins[l]) && r[ins[l]].0 == q);
                } else {
                    let l = choose|l: int| 0 <= l < md.len() && r[#[trigger] md[l]].0 == q;
                    assert(md.contains(md[l]) && r[md[l]].0 == q);
                }
            }
            if exists|k: Id| #[trigger] ins.contains(k) && r[k].0 == q {
                let k = choose|k: Id| #[trigger] ins.contains(k) && r[k].0 == q;
                let l = choose|l: int| 0 <= l < ins.len() && ins[l] == k;
                assert(r[ins[l]].0 == q);
            }
            if exists|k: Id| #[trigger] md.contains(k) && r[k].0 == q {
                let k = choose|k: Id| #[trigger] md.contains(k) && r[k].0 == q;
                let l = choose|l: int| 0 <= l < md.len() && md[l] == k;
                assert(r[md[l]].0 == q);
            }
        }
    }
}

} // verus!
