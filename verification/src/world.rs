//! The relation store and the derived indexes, held together. The store
//! keeps one optional `ChildOf` per entity and a change diff since the
//! last completed maintenance pass, partitioned into inserted (absent then
//! present), modified (present before and after), and deleted (present
//! then absent) entities. A relation that is removed and re-added within
//! one window appears as deleted and inserted, never as a no-op.

use vstd::prelude::*;

use crate::idmap::IdMap;
use crate::indexing::{inv_indexes, ParentIndex, SiblingIndex};
use crate::node::{ChildOf, Id};

verus! {

/// No entity appears twice.
pub open spec fn no_dup(s: Seq<Id>) -> bool {
    forall|i: int, j: int| 0 <= i < j < s.len() ==> s[i] != s[j]
}

/// The relations, their change diff, and the derived indexes. `indexed` is
/// the ghost snapshot of the relations as of the last completed
/// maintenance pass; the indexes are consistent with it, and the diff
/// lists record exactly how the live relations have drifted from it.
pub struct TreeWorld {
    pub rels: IdMap<ChildOf>,
    pub inserted: Vec<Id>,
    pub modified: Vec<Id>,
    pub deleted: Vec<Id>,
    pub sibling: IdMap<SiblingIndex>,
    pub parent: IdMap<ParentIndex>,
    pub indexed: Ghost<Map<Id, ChildOf>>,
}

impl TreeWorld {
    /// The maps are well formed and the indexes are consistent with the
    /// `indexed` snapshot. Holds at every point, even mid-pass.
    pub open spec fn wf_indexes(self) -> bool {
        &&& self.rels.wf()
        &&& self.sibling.wf()
        &&& self.parent.wf()
        &&& inv_indexes(self.sibling@, self.parent@, self.indexed@)
    }

    /// The diff lists partition exactly the drift of the live relations
    /// from the `indexed` snapshot.
    pub open spec fn diff_ok(self) -> bool {
        diff_rel(self.rels@, self.indexed@, self.inserted@, self.modified@, self.deleted@)
    }

    /// The full invariant between passes.
    pub open spec fn inv(self) -> bool {
        self.wf_indexes() && self.diff_ok()
    }
}

/// The diff lists `ins`, `md`, `del` partition exactly the drift of the
/// live relations `r` from the snapshot `ix` of the last completed pass.
pub open spec fn diff_rel(
    r: Map<Id, ChildOf>,
    ix: Map<Id, ChildOf>,
    ins: Seq<Id>,
    md: Seq<Id>,
    del: Seq<Id>,
) -> bool {
    &&& no_dup(ins)
    &&& no_dup(md)
    &&& no_dup(del)
    &&& forall|k: Id|
        #[trigger] ins.contains(k) ==> r.contains_key(k) && (!ix.contains_key(k)
            || del.contains(k))
    &&& forall|k: Id|
        #[trigger] md.contains(k) ==> r.contains_key(k) && ix.contains_key(k)
            && !ins.contains(k) && !del.contains(k)
    &&& forall|k: Id|
        #[trigger] del.contains(k) ==> ix.contains_key(k) && (!r.contains_key(k)
            || ins.contains(k))
    &&& forall|k: Id|
        r.contains_key(k) && !ix.contains_key(k) ==> ins.contains(k)
    &&& forall|k: Id|
        ix.contains_key(k) && !r.contains_key(k) ==> del.contains(k)
    &&& forall|k: Id|
        r.contains_key(k) && ix.contains_key(k) && !md.contains(k) && !ins.contains(k) ==> r[k]
            == ix[k]
}

impl TreeWorld {
    pub fn new() -> (r: Self)
        ensures
            r.inv(),
            r.rels@ == Map::<Id, ChildOf>::empty(),
            r.sibling@ == Map::<Id, SiblingIndex>::empty(),
            r.parent@ == Map::<Id, ParentIndex>::empty(),
            r.indexed@ == Map::<Id, ChildOf>::empty(),
            r.inserted@.len() == 0,
            r.modified@.len() == 0,
            r.deleted@.len() == 0,
    {
        TreeWorld {
            rels: IdMap::new(),
            inserted: Vec::new(),
            modified: Vec::new(),
            deleted: Vec::new(),
            sibling: IdMap::new(),
            parent: IdMap::new(),
            indexed: Ghost(Map::empty()),
        }
    }

    /// The current relation of `id`, if any.
    pub fn child_of(&self, id: Id) -> (r: Option<&ChildOf>)
        requires
            self.inv(),
        ensures
            match r {
                Some(v) => self.rels@.contains_key(id) && *v == self.rels@[id],
                None => !self.rels@.contains_key(id),
            },
    {
        self.rels.get(id)
    }

    /// The sibling record of `id`, if it had a relation at the last pass.
    pub fn sibling_index(&self, id: Id) -> (r: Option<&SiblingIndex>)
        requires
            self.inv(),
        ensures
            match r {
                Some(v) => self.sibling@.contains_key(id) && *v == self.sibling@[id],
                None => !self.sibling@.contains_key(id),
            },
    {
        self.sibling.get(id)
    }

    /// The ordered child list of `id`, if it has ever been a parent.
    pub fn parent_index(&self, id: Id) -> (r: Option<&ParentIndex>)
        requires
            self.inv(),
        ensures
            match r {
                Some(v) => self.parent@.contains_key(id) && *v == self.parent@[id],
                None => !self.parent@.contains_key(id),
            },
    {
        self.parent.get(id)
    }

    /// Set or overwrite the relation of `id`, recording the change in the
    /// diff for the next maintenance pass: a write over a present relation
    /// marks `id` modified (unless the same window already saw it
    /// inserted), a write over an absent one marks it inserted.
    pub fn set_child_of(&mut self, id: Id, v: ChildOf)
        requires
            old(self).inv(),
        ensures
            final(self).inv(),
            final(self).rels@ == old(self).rels@.insert(id, v),
            final(self).sibling@ == old(self).sibling@,
            final(self).parent@ == old(self).parent@,
            final(self).indexed@ == old(self).indexed@,
            old(self).rels@.contains_key(id) ==> final(self).inserted == old(self).inserted
                && final(self).deleted == old(self).deleted && forall|q: Id|
                #[trigger] final(self).modified@.contains(q) <==> old(self).modified@.contains(q)
                    || (q == id && !old(self).inserted@.contains(id)),
            !old(self).rels@.contains_key(id) ==> final(self).modified == old(self).modified
                && final(self).deleted == old(self).deleted && forall|q: Id|
                #[trigger] final(self).inserted@.contains(q) <==> old(self).inserted@.contains(q)
                    || q == id,
    {
        let present = self.rels.contains(id);
        self.rels.insert(id, v);
        if present {
            if !list_contains(&self.inserted, id) && !list_contains(&self.modified, id) {
                self.modified.push(id);
                proof {
                    lemma_push_membership(old(self).modified@, id);
                }
            }
        } else {
            proof {
                assert(!old(self).inserted@.contains(id));
                assert(!old(self).modified@.contains(id));
                lemma_push_membership(old(self).inserted@, id);
            }
            self.inserted.push(id);
        }
    }

    /// Delete the relation of `id` if present, recording the change in the
    /// diff for the next maintenance pass: `id` leaves the inserted and
    /// modified lists, and joins the deleted list whenever the last pass
    /// had indexed it (that is, unless this same window inserted it).
    /// Absent relations are left alone.
    pub fn delete_child_of(&mut self, id: Id)
        requires
            old(self).inv(),
        ensures
            final(self).inv(),
            final(self).rels@ == old(self).rels@.remove(id),
            final(self).sibling@ == old(self).sibling@,
            final(self).parent@ == old(self).parent@,
            final(self).indexed@ == old(self).indexed@,
            !old(self).rels@.contains_key(id) ==> *final(self) == *old(self),
            old(self).rels@.contains_key(id) ==> {
                &&& forall|q: Id|
                    #[trigger] final(self).inserted@.contains(q) <==> old(
                        self,
                    ).inserted@.contains(q) && q != id
                &&& forall|q: Id|
                    #[trigger] final(self).modified@.contains(q) <==> old(
                        self,
                    ).modified@.contains(q) && q != id
                &&& forall|q: Id|
                    #[trigger] final(self).deleted@.contains(q) <==> old(self).deleted@.contains(
                        q,
                    ) || (q == id && !old(self).inserted@.contains(id))
            },
    {
        let present = self.rels.contains(id);
        if present {
            let _stale = self.rels.remove(id);
            if list_contains(&self.inserted, id) {
                list_remove(&mut self.inserted, id);
            } else if list_contains(&self.modified, id) {
                list_remove(&mut self.modified, id);
                proof {
                    lemma_push_membership(self.deleted@, id);
                }
                self.deleted.push(id);
            } else {
                proof {
                    assert(!self.deleted@.contains(id));
                    lemma_push_membership(self.deleted@, id);
                }
                self.deleted.push(id);
            }
        } else {
            proof {
                assert(self.rels@ =~= old(self).rels@.remove(id));
            }
        }
    }
}

/// Whether `list` holds `k`.
pub fn list_contains(list: &Vec<Id>, k: Id) -> (r: bool)
    ensures
        r == list@.contains(k),
{
    let mut i: usize = 0;
    while i < list.len()
        invariant
            i <= list@.len(),
            forall|j: int| 0 <= j < i ==> list@[j] != k,
        decreases list@.len() - i,
    {
        if list[i] == k {
            return true;
        }
        i += 1;
    }
    false
}

/// Remove the one occurrence of `k` from a duplicate-free `list`, if any.
fn list_remove(list: &mut Vec<Id>, k: Id)
    requires
        no_dup(old(list)@),
    ensures
        no_dup(final(list)@),
        forall|q: Id| #[trigger] final(list)@.contains(q) <==> old(list)@.contains(q) && q != k,
{
    let ghost l0 = list@;
    let mut i: usize = 0;
    while i < list.len()
        invariant
            list@ == l0,
            l0 == old(list)@,
            no_dup(l0),
            i <= l0.len(),
            forall|j: int| 0 <= j < i ==> l0[j] != k,
        decreases l0.len() - i,
    {
        if list[i] == k {
            let _found = list.remove(i);
            proof {
                let l1 = list@;
                assert forall|a: int, b: int| 0 <= a < b < l1.len() implies l1[a] != l1[b] by {
                    let a0: int = if a < i { a } else { a + 1 };
                    let b0: int = if b < i { b } else { b + 1 };
                    assert(l1[a] == l0[a0] && l1[b] == l0[b0]);
                }
                assert forall|q: Id| #[trigger] l1.contains(q) implies l0.contains(q) && q != k by {
                    let j = choose|j: int| 0 <= j < l1.len() && l1[j] == q;
                    let j0: int = if j < i { j } else { j + 1 };
                    assert(l0[j0] == q);
                    assert(l0[i as int] == k);
                }
                assert forall|q: Id| l0.contains(q) && q != k implies #[trigger] l1.contains(q) by {
                    let j0 = choose|j0: int| 0 <= j0 < l0.len() && l0[j0] == q;
                    if j0 < i {
                        assert(l1[j0] == q);
                    } else {
                        assert(j0 != i);
                        assert(l1[j0 - 1] == q);
                    }
                }
            }
            return;
        }
        i += 1;
    }
    proof {
        assert forall|q: Id| #[trigger] list@.contains(q) implies l0.contains(q) && q != k by {
            let j = choose|j: int| 0 <= j < l0.len() && l0[j] == q;
            assert(l0[j] != k);
        }
    }
}

/// Membership after pushing an element.
proof fn lemma_push_membership(s: Seq<Id>, x: Id)
    ensures
        forall|q: Id| #[trigger] s.push(x).contains(q) <==> s.contains(q) || q == x,
        no_dup(s) && !s.contains(x) ==> no_dup(s.push(x)),
{
    assert forall|q: Id| #[trigger] s.push(x).contains(q) implies s.contains(q) || q == x by {
        let j = choose|j: int| 0 <= j < s.push(x).len() && s.push(x)[j] == q;
        if j < s.len() {
            assert(s[j] == q);
        }
    }
    assert forall|q: Id| s.contains(q) || q == x implies #[trigger] s.push(x).contains(q) by {
        if q == x {
            assert(s.push(x)[s.len() as int] == q);
        } else {
            let j = choose|j: int| 0 <= j < s.len() && s[j] == q;
            assert(s.push(x)[j] == q);
        }
    }
    if no_dup(s) && !s.contains(x) {
        assert forall|a: int, b: int|
            0 <= a < b < s.push(x).len() implies s.push(x)[a] != s.push(x)[b] by {
            if b == s.len() {
                assert(s[a] == s.push(x)[a]);
                assert(s.contains(s[a]));
            }
        }
    }
}

} // verus!
