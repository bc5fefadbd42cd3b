//! The partition tree: leaves hold up to `2^D` entries keyed by position; a
//! full leaf that receives a new position bisects into `2^D` children and
//! inserts each entry into the child whose box holds it, so a child that
//! would go over capacity bisects in turn.
use vstd::prelude::*;
use crate::bits::two_pow;
use crate::geometry::{
    child_high, child_low, dims_ok, lemma_child_spread, lemma_shl_two_pow, lemma_split_partitions,
    lemma_two_points_splittable, Bounds, Vector,
};

verus! {

/// A payload the tree can carry.
pub trait QEntity: Sized {

}

impl QEntity for u8 {

}

impl QEntity for u16 {

}

impl QEntity for u32 {

}

impl QEntity for u64 {

}

impl QEntity for i32 {

}

impl QEntity for i64 {

}

/// No two entries share a position.
pub open spec fn keys_unique<const D: usize, QE>(s: Seq<(Vector<D>, QE)>) -> bool {
    forall|i: int, j: int|
        #![trigger s[i], s[j]]
        0 <= i < s.len() && 0 <= j < s.len() && i != j ==> s[i].0@ != s[j].0@
}

/// Some entry sits at `q`.
pub open spec fn has_key<const D: usize, QE>(s: Seq<(Vector<D>, QE)>, q: Seq<i32>) -> bool {
    exists|i: int| 0 <= i < s.len() && #[trigger] s[i].0@ == q
}

/// The payload of the entry at `q`, if any.
pub open spec fn entry_of<const D: usize, QE>(s: Seq<(Vector<D>, QE)>, q: Seq<i32>) -> Option<QE> {
    if has_key(s, q) {
        Some(s[choose|i: int| 0 <= i < s.len() && #[trigger] s[i].0@ == q].1)
    } else {
        None
    }
}

pub proof fn lemma_entry_at<const D: usize, QE>(s: Seq<(Vector<D>, QE)>, q: Seq<i32>, j: int)
    requires
        keys_unique(s),
        0 <= j < s.len(),
        s[j].0@ == q,
    ensures
        entry_of(s, q) == Some(s[j].1),
{
    assert(has_key(s, q));
    let i = choose|i: int| 0 <= i < s.len() && #[trigger] s[i].0@ == q;
    assert(s[i].0@ == q);
    if i != j {
        assert(s[i].0@ != s[j].0@);
    }
}

/// A node of the tree: a leaf holds entries, an inner node holds `2^D`
/// children, child `c` covering the part of `bounds` that `c`'s bits choose.
pub struct Space<const D: usize, QE> {
    pub bounds: Bounds<D>,
    pub entities: Vec<(Vector<D>, QE)>,
    pub children: Vec<Space<D, QE>>,
}

impl<const D: usize, QE> Space<D, QE> {
    pub open spec fn is_leaf(&self) -> bool {
        self.children@.len() == 0
    }

    /// A leaf holds at most `2^D` entries, with distinct positions inside its
    /// box; an inner node has no entries, a box that can be cut, and exactly
    /// the children that bisection gives.
    pub open spec fn wf(&self) -> bool
        decreases self,
    {
        &&& dims_ok(D as nat)
        &&& self.bounds.wf()
        &&& if self.is_leaf() {
            &&& self.entities@.len() <= two_pow(D as nat)
            &&& keys_unique(self.entities@)
            &&& forall|i: int|
                0 <= i < self.entities@.len() ==> self.bounds.holds(#[trigger] self.entities@[i].0@)
        } else {
            &&& self.entities@.len() == 0
            &&& self.bounds.splittable()
            &&& self.children@.len() == two_pow(D as nat)
            &&& forall|c: int|
                #![trigger self.children@[c]]
                0 <= c < self.children@.len() ==> self.bounds.is_child(
                    c as nat,
                    self.children@[c].bounds,
                ) && self.children@[c].wf()
        }
    }

    /// What the subtree holds at `p`: the descent follows the child that the
    /// box's cut assigns to `p`.
    pub open spec fn lookup(&self, p: Seq<i32>) -> Option<QE>
        decreases self,
    {
        if self.is_leaf() {
            entry_of(self.entities@, p)
        } else {
            let c = self.bounds.child_index(p);
            if c < self.children@.len() {
                self.children@[c as int].lookup(p)
            } else {
                None
            }
        }
    }

    /// Entries held by children `k..` (or by the leaf itself).
    pub open spec fn weight(&self, k: int) -> nat
        decreases self, self.children@.len() - k,
    {
        if self.is_leaf() {
            self.entities@.len()
        } else if k < 0 || k >= self.children@.len() {
            0
        } else {
            self.children@[k].weight(0) + self.weight(k + 1)
        }
    }

    /// Number of entries that a traversal of the subtree reaches.
    pub open spec fn count(&self) -> nat {
        self.weight(0)
    }

    /// The subtree's contents as a map from position to payload.
    pub open spec fn view(&self) -> Map<Seq<i32>, QE> {
        Map::new(|p: Seq<i32>| p.len() == D && self.lookup(p) is Some, |p: Seq<i32>| self.lookup(p)->0)
    }

    /// Nodes in children `k..`, plus this node.
    pub open spec fn node_weight(&self, k: int) -> nat
        decreases self, self.children@.len() - k,
    {
        if self.is_leaf() || k < 0 || k >= self.children@.len() {
            1
        } else {
            self.children@[k].node_weight(0) + self.node_weight(k + 1)
        }
    }

    /// Number of nodes in the subtree.
    pub open spec fn nodes(&self) -> nat {
        self.node_weight(0)
    }

    /// `other` has the same nodes, with the same boxes, as this subtree; only
    /// the entries of leaves may differ.
    pub open spec fn same_shape(&self, other: Space<D, QE>) -> bool
        decreases self,
    {
        &&& other.bounds == self.bounds
        &&& other.children@.len() == self.children@.len()
        &&& forall|c: int|
            #![trigger self.children@[c]]
            0 <= c < self.children@.len() ==> self.children@[c].same_shape(other.children@[c])
    }

    /// The leaf that the descent for `p` reaches holds `2^D` entries or more.
    pub open spec fn full_leaf_at(&self, p: Seq<i32>) -> bool
        decreases self,
    {
        if self.is_leaf() {
            self.entities@.len() >= two_pow(D as nat)
        } else {
            let c = self.bounds.child_index(p);
            if c < self.children@.len() {
                self.children@[c as int].full_leaf_at(p)
            } else {
                false
            }
        }
    }

    /// `other` is this subtree after a new position `p` arrived: the nodes off
    /// the descent for `p` are unchanged, inner nodes stay inner with the same
    /// box, and the leaf reached becomes an inner node exactly when it already
    /// held `2^D` entries (its new children may have split in turn), else
    /// stays a leaf.
    pub open spec fn grows_along(&self, other: Space<D, QE>, p: Seq<i32>) -> bool
        decreases self,
    {
        &&& other.bounds == self.bounds
        &&& if self.is_leaf() {
            if self.entities@.len() >= two_pow(D as nat) {
                !other.is_leaf()
            } else {
                other.is_leaf()
            }
        } else {
            let ci = self.bounds.child_index(p) as int;
            &&& other.children@.len() == self.children@.len()
            &&& 0 <= ci < self.children@.len()
            &&& forall|c: int|
                #![trigger other.children@[c]]
                0 <= c < self.children@.len() && c != ci ==> other.children@[c] == self.children@[c]
            &&& self.children@[ci].grows_along(other.children@[ci], p)
        }
    }
}

/// Replacing one child changes an inner node's count by the change of that child's.
proof fn lemma_weight_update<const D: usize, QE>(a: Space<D, QE>, b: Space<D, QE>, c: int, k: int)
    requires
        !a.is_leaf(),
        b.children@.len() == a.children@.len(),
        0 <= c < a.children@.len(),
        0 <= k <= a.children@.len(),
        forall|j: int| 0 <= j < a.children@.len() && j != c ==> b.children@[j] == a.children@[j],
    ensures
        b.weight(k) + (if k <= c {
            a.children@[c].count()
        } else {
            0
        }) == a.weight(k) + (if k <= c {
            b.children@[c].count()
        } else {
            0
        }),
    decreases a.children@.len() - k,
{
    if k < a.children@.len() {
        lemma_weight_update(a, b, c, k + 1);
    }
}

/// Replacing one child changes an inner node's node count by the change of that child's.
proof fn lemma_node_weight_update<const D: usize, QE>(a: Space<D, QE>, b: Space<D, QE>, c: int, k: int)
    requires
        !a.is_leaf(),
        b.children@.len() == a.children@.len(),
        0 <= c < a.children@.len(),
        0 <= k <= a.children@.len(),
        forall|j: int| 0 <= j < a.children@.len() && j != c ==> b.children@[j] == a.children@[j],
    ensures
        b.node_weight(k) + (if k <= c {
            a.children@[c].nodes()
        } else {
            0
        }) == a.node_weight(k) + (if k <= c {
            b.children@[c].nodes()
        } else {
            0
        }),
    decreases a.children@.len() - k,
{
    if k < a.children@.len() {
        lemma_node_weight_update(a, b, c, k + 1);
    }
}

/// Every subtree has at least one node.
proof fn lemma_node_weight_pos<const D: usize, QE>(s: Space<D, QE>, k: int)
    ensures
        s.node_weight(k) >= 1,
    decreases s.children@.len() - k,
{
    if !s.is_leaf() && 0 <= k < s.children@.len() {
        lemma_node_weight_pos(s, k + 1);
    }
}

/// An inner node has more nodes than children.
proof fn lemma_node_weight_lower<const D: usize, QE>(s: Space<D, QE>, k: int)
    requires
        !s.is_leaf(),
        0 <= k <= s.children@.len(),
    ensures
        s.node_weight(k) >= 1 + s.children@.len() - k,
    decreases s.children@.len() - k,
{
    if k < s.children@.len() {
        lemma_node_weight_lower(s, k + 1);
        lemma_node_weight_pos(s.children@[k], 0);
    }
}

/// Every subtree has the shape of itself.
pub proof fn lemma_same_shape_refl<const D: usize, QE>(s: Space<D, QE>)
    ensures
        s.same_shape(s),
    decreases s,
{
    assert forall|c: int| #![trigger s.children@[c]] 0 <= c < s.children@.len() implies s.children@[c].same_shape(s.children@[c]) by {
        lemma_same_shape_refl(s.children@[c]);
    }
}

/// A leaf with no entries.
fn empty_leaf<const D: usize, QE>(bounds: Bounds<D>) -> (r: Space<D, QE>)
    requires
        bounds.wf(),
        dims_ok(D as nat),
    ensures
        r.wf(),
        r.is_leaf(),
        r.bounds == bounds,
        r.entities@.len() == 0,
{
    Space { bounds, entities: Vec::new(), children: Vec::new() }
}

impl<const D: usize, QE: QEntity> Space<D, QE> {
    /// Bisects a full leaf and hands its entries, with one more, to the
    /// children through `insert_at`, so that a child which would go over
    /// capacity splits in turn.
    fn subdivide(&mut self, position: Vector<D>, entity: QE)
        requires
            old(self).wf(),
            old(self).is_leaf(),
            old(self).entities@.len() >= 1,
            old(self).bounds.holds(position@),
            !has_key(old(self).entities@, position@),
        ensures
            final(self).wf(),
            final(self).bounds == old(self).bounds,
            forall|q: Seq<i32>|
                #[trigger] final(self).lookup(q) == if q == position@ {
                    Some(entity)
                } else {
                    old(self).lookup(q)
                },
            final(self).count() == old(self).count() + 1,
            !final(self).is_leaf(),
            final(self).nodes() >= 1 + two_pow(D as nat),
        decreases old(self).bounds.spread(), 0nat,
    {
        let ghost pos = position@;
        let ghost ent = entity;
        let mut pending: Vec<(Vector<D>, QE)> = Vec::new();
        std::mem::swap(&mut pending, &mut self.entities);
        pending.push((position, entity));
        let ghost all = pending@;
        proof {
            assert(keys_unique(all)) by {
                assert forall|i: int, j: int|
                    #![trigger all[i], all[j]]
                    0 <= i < all.len() && 0 <= j < all.len() && i != j implies all[i].0@ != all[j].0@ by {
                    if i == all.len() - 1 {
                        assert(old(self).entities@[j] == all[j]);
                    } else if j == all.len() - 1 {
                        assert(old(self).entities@[i] == all[i]);
                    } else {
                        assert(old(self).entities@[i] == all[i]);
                        assert(old(self).entities@[j] == all[j]);
                    }
                }
            }
            assert forall|q: Seq<i32>| #[trigger] entry_of(all, q) == if q == pos {
                Some(ent)
            } else {
                entry_of(old(self).entities@, q)
            } by {
                if q == pos {
                    lemma_entry_at(all, q, all.len() - 1);
                } else if has_key(old(self).entities@, q) {
                    let j = choose|j: int|
                        0 <= j < old(self).entities@.len() && #[trigger] old(self).entities@[j].0@ == q;
                    lemma_entry_at(old(self).entities@, q, j);
                    lemma_entry_at(all, q, j);
                } else {
                    if has_key(all, q) {
                        let j = choose|j: int| 0 <= j < all.len() && #[trigger] all[j].0@ == q;
                        assert(old(self).entities@[j] == all[j]);
                    }
                }
            }
        }
        proof {
            assert(all[0] == old(self).entities@[0]);
            assert(all[0].0@ != pos);
            lemma_two_points_splittable(self.bounds, all[0].0@, pos);
        }
        let mut boxes = self.bounds.split();
        let ghost orig = boxes@;
        let mut children: Vec<Space<D, QE>> = Vec::new();
        while boxes.len() > 0
            invariant
                dims_ok(D as nat),
                self.bounds.wf(),
                orig.len() == two_pow(D as nat),
                forall|c: int| #![trigger orig[c]] 0 <= c < orig.len() ==> orig[c].wf() && self.bounds.is_child(c as nat, orig[c]),
                children@.len() + boxes@.len() == orig.len(),
                boxes@ == orig.subrange(children@.len() as int, orig.len() as int),
                forall|c: int|
                    #![trigger children@[c]]
                    0 <= c < children@.len() ==> children@[c].wf() && children@[c].is_leaf()
                        && children@[c].entities@.len() == 0 && children@[c].bounds == orig[c],
            decreases boxes@.len(),
        {
            let b = boxes.remove(0);
            proof {
                assert(b == orig[children@.len() as int]);
            }
            children.push(empty_leaf(b));
            proof {
                assert(boxes@ =~= orig.subrange(children@.len() as int, orig.len() as int));
            }
        }
        self.children = children;
        proof {
            crate::bits::lemma_two_pow_positive(D as nat);
            assert(!self.is_leaf());
            assert forall|c: int| 0 <= c < self.children@.len() implies #[trigger] self.children@[c].weight(0) == 0 by {
            }
            assert forall|k: int| 0 <= k <= self.children@.len() implies #[trigger] self.weight(k) == 0 by {
                lemma_weight_zero(*self, k);
            }
            assert forall|q: Seq<i32>| #[trigger] self.lookup(q) is None by {
                let c = self.bounds.child_index(q);
                if c < self.children@.len() {
                    let ch = self.children@[c as int];
                    assert(ch.is_leaf());
                    assert(ch.lookup(q) == entry_of(ch.entities@, q));
                    if has_key(ch.entities@, q) {
                        let j = choose|j: int| 0 <= j < ch.entities@.len() && #[trigger] ch.entities@[j].0@ == q;
                    }
                }
            }
        }
        while pending.len() > 0
            invariant
                self.wf(),
                !self.is_leaf(),
                self.bounds == old(self).bounds,
                keys_unique(pending@),
                forall|i: int| 0 <= i < pending@.len() ==> self.bounds.holds(#[trigger] pending@[i].0@),
                forall|q: Seq<i32>| has_key(pending@, q) ==> #[trigger] self.lookup(q) is None,
                forall|q: Seq<i32>| #[trigger] entry_of(all, q) == if has_key(pending@, q) {
                    entry_of(pending@, q)
                } else {
                    self.lookup(q)
                },
                self.count() + pending@.len() == all.len(),
            decreases pending@.len(),
        {
            let ghost before = *self;
            let ghost pend = pending@;
            let (key, value) = pending.pop().unwrap();
            let ghost ek = key@;
            let ghost ev = value;
            proof {
                assert(pend[pend.len() - 1] == (key, value));
                assert(self.bounds.holds(ek));
            }
            let c = self.child_of_position(&key);
            proof {
                assert(self.bounds.is_child(c as nat, self.children@[c as int].bounds));
                assert(self.children@[c as int].wf());
                lemma_child_spread(self.bounds, c as nat, self.children@[c as int].bounds);
                assert(has_key(pend, ek));
                assert(self.lookup(ek) is None);
                assert(self.lookup(ek) == self.children@[c as int].lookup(ek));
                lemma_entry_at(pend, ek, pend.len() - 1);
            }
            let added = self.children[c].insert_at(key, value);
            proof {
                let after = *self;
                assert forall|k: int| #![trigger after.children@[k]] 0 <= k < after.children@.len() implies after.bounds.is_child(
                    k as nat,
                    after.children@[k].bounds,
                ) && after.children@[k].wf() by {
                    if k != c {
                        assert(after.children@[k] == before.children@[k]);
                    }
                }
                assert(after.wf());
                lemma_weight_update(before, after, c as int, 0);
                assert forall|q: Seq<i32>| #[trigger] after.lookup(q) == if q == ek {
                    Some(ev)
                } else {
                    before.lookup(q)
                } by {
                    let cq = after.bounds.child_index(q);
                    if cq < after.children@.len() && cq != c {
                        assert(after.children@[cq as int] == before.children@[cq as int]);
                    }
                    if cq == c {
                        assert(after.lookup(q) == after.children@[c as int].lookup(q));
                        assert(before.lookup(q) == before.children@[c as int].lookup(q));
                    }
                }
                let pn = pending@;
                assert(pn == pend.drop_last());
                assert forall|q: Seq<i32>| q != ek implies (has_key(pn, q) == has_key(pend, q) && (has_key(pn, q) ==> entry_of(pn, q) == entry_of(pend, q))) by {
                    if has_key(pend, q) {
                        let j = choose|j: int| 0 <= j < pend.len() && #[trigger] pend[j].0@ == q;
                        assert(j != pend.len() - 1);
                        assert(pn[j] == pend[j]);
                        lemma_entry_at(pend, q, j);
                        lemma_entry_at(pn, q, j);
                    }
                    if has_key(pn, q) {
                        let j = choose|j: int| 0 <= j < pn.len() && #[trigger] pn[j].0@ == q;
                        assert(pn[j] == pend[j]);
                    }
                }
                assert(!has_key(pn, ek)) by {
                    if has_key(pn, ek) {
                        let j = choose|j: int| 0 <= j < pn.len() && #[trigger] pn[j].0@ == ek;
                        assert(pn[j] == pend[j]);
                        assert(pend[j] == pend[pend.len() - 1]);
                    }
                }
                assert forall|q: Seq<i32>| has_key(pn, q) implies #[trigger] after.lookup(q) is None by {
                    assert(q != ek);
                }
                assert forall|i: int| 0 <= i < pn.len() implies after.bounds.holds(#[trigger] pn[i].0@) by {
                    assert(pn[i] == pend[i]);
                }
                assert forall|i: int, j: int|
                    #![trigger pn[i], pn[j]]
                    0 <= i < pn.len() && 0 <= j < pn.len() && i != j implies pn[i].0@ != pn[j].0@ by {
                    assert(pn[i] == pend[i]);
                    assert(pn[j] == pend[j]);
                }
            }
        }
        proof {
            assert forall|q: Seq<i32>| #[trigger] self.lookup(q) == if q == pos {
                Some(ent)
            } else {
                old(self).lookup(q)
            } by {
                assert(entry_of(all, q) == self.lookup(q));
            }
            lemma_node_weight_lower(*self, 0);
        }
    }
}

impl<const D: usize, QE: QEntity> Space<D, QE> {
    /// Index of the entry at `position` in a leaf, if any.
    fn find_entry(&self, position: &Vector<D>) -> (r: Option<usize>)
        requires
            self.wf(),
            self.is_leaf(),
        ensures
            match r {
                Some(i) => i < self.entities@.len() && self.entities@[i as int].0@ == position@,
                None => !has_key(self.entities@, position@),
            },
    {
        let mut i: usize = 0;
        while i < self.entities.len()
            invariant
                i <= self.entities@.len(),
                forall|k: int| 0 <= k < i ==> #[trigger] self.entities@[k].0@ != position@,
            decreases self.entities@.len() - i,
        {
            if self.entities[i].0.same(position) {
                return Some(i);
            }
            i = i + 1;
        }
        None
    }

    /// Puts `entity` at `position` in the subtree; returns whether the
    /// position was new.
    fn insert_at(&mut self, position: Vector<D>, entity: QE) -> (added: bool)
        requires
            old(self).wf(),
            old(self).bounds.holds(position@),
        ensures
            final(self).wf(),
            final(self).bounds == old(self).bounds,
            added == (old(self).lookup(position@) is None),
            forall|q: Seq<i32>|
                #[trigger] final(self).lookup(q) == if q == position@ {
                    Some(entity)
                } else {
                    old(self).lookup(q)
                },
            final(self).count() == old(self).count() + if added {
                1nat
            } else {
                0nat
            },
            !added ==> old(self).same_shape(*final(self)),
            added ==> old(self).grows_along(*final(self), position@),
            !(added && old(self).full_leaf_at(position@)) ==> final(self).nodes() == old(self).nodes(),
            added && old(self).full_leaf_at(position@) ==> final(self).nodes() >= old(self).nodes()
                + two_pow(D as nat),
        decreases old(self).bounds.spread(), 1nat,
    {
        let ghost pos = position@;
        let ghost ent = entity;
        if self.children.len() == 0 {
            let ghost s = self.entities@;
            match self.find_entry(&position) {
                Some(i) => {
                    self.entities.set(i, (position, entity));
                    proof {
                        let t = self.entities@;
                        lemma_entry_at(s, pos, i as int);
                        assert(keys_unique(t)) by {
                            assert forall|a: int, b: int|
                                #![trigger t[a], t[b]]
                                0 <= a < t.len() && 0 <= b < t.len() && a != b implies t[a].0@ != t[b].0@ by {
                                assert(s[a].0@ != s[b].0@);
                            }
                        }
                        assert forall|k: int| 0 <= k < t.len() implies self.bounds.holds(#[trigger] t[k].0@) by {
                            assert(self.bounds.holds(s[k].0@));
                        }
                        lemma_entry_at(t, pos, i as int);
                        assert forall|q: Seq<i32>| #[trigger] entry_of(t, q) == if q == pos {
                            Some(ent)
                        } else {
                            entry_of(s, q)
                        } by {
                            if q != pos {
                                if has_key(s, q) {
                                    let j = choose|j: int| 0 <= j < s.len() && #[trigger] s[j].0@ == q;
                                    lemma_entry_at(s, q, j);
                                    lemma_entry_at(t, q, j);
                                }
                                if has_key(t, q) {
                                    let j = choose|j: int| 0 <= j < t.len() && #[trigger] t[j].0@ == q;
                                    assert(t[j] == s[j]);
                                }
                            }
                        }
                    }
                    false
                },
                None => {
                    let cap: usize = 1usize << (D as u32);
                    proof {
                        lemma_shl_two_pow(D as nat);
                    }
                    if self.entities.len() < cap {
                        self.entities.push((position, entity));
                        proof {
                            let t = self.entities@;
                            assert(keys_unique(t)) by {
                                assert forall|a: int, b: int|
                                    #![trigger t[a], t[b]]
                                    0 <= a < t.len() && 0 <= b < t.len() && a != b implies t[a].0@ != t[b].0@ by {
                                    if a == t.len() - 1 {
                                        assert(t[b] == s[b]);
                                    } else if b == t.len() - 1 {
                                        assert(t[a] == s[a]);
                                    } else {
                                        assert(t[a] == s[a]);
                                        assert(t[b] == s[b]);
                                    }
                                }
                            }
                            assert forall|k: int| 0 <= k < t.len() implies self.bounds.holds(#[trigger] t[k].0@) by {
                                if k < s.len() {
                                    assert(t[k] == s[k]);
                                }
                            }
                            lemma_entry_at(t, pos, t.len() - 1);
                            assert forall|q: Seq<i32>| #[trigger] entry_of(t, q) == if q == pos {
                                Some(ent)
                            } else {
                                entry_of(s, q)
                            } by {
                                if q != pos {
                                    if has_key(s, q) {
                                        let j = choose|j: int| 0 <= j < s.len() && #[trigger] s[j].0@ == q;
                                        lemma_entry_at(s, q, j);
                                        assert(t[j] == s[j]);
                                        lemma_entry_at(t, q, j);
                                    }
                                    if has_key(t, q) {
                                        let j = choose|j: int| 0 <= j < t.len() && #[trigger] t[j].0@ == q;
                                        assert(j != t.len() - 1);
                                        assert(t[j] == s[j]);
                                    }
                                }
                            }
                        }
                    } else {
                        proof {
                            crate::bits::lemma_two_pow_positive(D as nat);
                        }
                        self.subdivide(position, entity);
                    }
                    true
                },
            }
        } else {
            let c = self.child_of_position(&position);
            proof {
                assert(self.bounds.is_child(c as nat, self.children@[c as int].bounds));
                lemma_child_spread(self.bounds, c as nat, self.children@[c as int].bounds);
            }
            let ghost before = *self;
            let added = self.children[c].insert_at(position, entity);
            proof {
                let after = *self;
                assert forall|k: int| #![trigger after.children@[k]] 0 <= k < after.children@.len() implies after.bounds.is_child(
                    k as nat,
                    after.children@[k].bounds,
                ) && after.children@[k].wf() by {
                    if k != c {
                        assert(after.children@[k] == before.children@[k]);
                    }
                }
                lemma_weight_update(before, after, c as int, 0);
                lemma_node_weight_update(before, after, c as int, 0);
                assert(before.full_leaf_at(pos) == before.children@[c as int].full_leaf_at(pos));
                if !added {
                    assert forall|k: int| #![trigger before.children@[k]] 0 <= k < before.children@.len() implies before.children@[k].same_shape(after.children@[k]) by {
                        if k != c {
                            assert(after.children@[k] == before.children@[k]);
                            lemma_same_shape_refl(before.children@[k]);
                        }
                    }
                } else {
                    assert forall|k: int| #![trigger after.children@[k]] 0 <= k < before.children@.len() && k != c implies after.children@[k] == before.children@[k] by {
                    }
                }
                assert forall|q: Seq<i32>| #[trigger] after.lookup(q) == if q == pos {
                    Some(ent)
                } else {
                    before.lookup(q)
                } by {
                    let cq = after.bounds.child_index(q);
                    if cq < after.children@.len() && cq != c {
                        assert(after.children@[cq as int] == before.children@[cq as int]);
                    }
                    if cq == c {
                        assert(after.lookup(q) == after.children@[c as int].lookup(q));
                        assert(before.lookup(q) == before.children@[c as int].lookup(q));
                    }
                }
            }
            added
        }
    }

    /// The child of an inner node whose box holds `position`.
    fn child_of_position(&self, position: &Vector<D>) -> (c: usize)
        requires
            self.wf(),
            !self.is_leaf(),
            self.bounds.holds(position@),
        ensures
            c == self.bounds.child_index(position@),
            c < self.children@.len(),
            self.children@[c as int].bounds.holds(position@),
    {
        let c = self.bounds.child_of(position);
        proof {
            let boxes = Seq::new(self.children@.len(), |k: int| self.children@[k].bounds);
            assert forall|k: int| 0 <= k < boxes.len() implies self.bounds.is_child(k as nat, #[trigger] boxes[k]) by {
                assert(self.children@[k].bounds == boxes[k]);
            }
            lemma_split_partitions(self.bounds, boxes, position@);
            assert(boxes[c as int] == self.children@[c as int].bounds);
        }
        c
    }
}


impl<const D: usize, QE: QEntity> Space<D, QE> {
    /// The payload at `position` in the subtree.
    fn get_at(&self, position: &Vector<D>) -> (r: Option<&QE>)
        requires
            self.wf(),
            position.wf(),
        ensures
            match r {
                Some(v) => self.lookup(position@) == Some(*v),
                None => self.lookup(position@) is None,
            },
        decreases self,
    {
        if self.children.len() == 0 {
            match self.find_entry(position) {
                Some(i) => {
                    proof {
                        lemma_entry_at(self.entities@, position@, i as int);
                    }
                    Some(&self.entities[i].1)
                },
                None => None,
            }
        } else {
            let c = self.bounds.child_of(position);
            proof {
                crate::bits::lemma_two_pow_positive(D as nat);
            }
            self.children[c].get_at(position)
        }
    }

    /// Takes the entry at `position` out of the subtree and returns its payload.
    fn remove_at(&mut self, position: &Vector<D>) -> (removed: Option<QE>)
        requires
            old(self).wf(),
            position.wf(),
        ensures
            final(self).wf(),
            final(self).bounds == old(self).bounds,
            removed == old(self).lookup(position@),
            forall|q: Seq<i32>|
                #[trigger] final(self).lookup(q) == if q == position@ {
                    None
                } else {
                    old(self).lookup(q)
                },
            final(self).count() + (if removed is Some {
                1nat
            } else {
                0nat
            }) == old(self).count(),
            old(self).same_shape(*final(self)),
            final(self).nodes() == old(self).nodes(),
        decreases *old(self),
    {
        let ghost pos = position@;
        if self.children.len() == 0 {
            let ghost s = self.entities@;
            match self.find_entry(position) {
                Some(i) => {
                    proof {
                        lemma_entry_at(s, pos, i as int);
                    }
                    let e = self.entities.remove(i);
                    proof {
                        let t = self.entities@;
                        assert(t == s.remove(i as int));
                        assert forall|k: int| 0 <= k < t.len() implies self.bounds.holds(#[trigger] t[k].0@) by {
                            if k < i {
                                assert(t[k] == s[k]);
                            } else {
                                assert(t[k] == s[k + 1]);
                            }
                        }
                        assert(keys_unique(t)) by {
                            assert forall|a: int, b: int|
                                #![trigger t[a], t[b]]
                                0 <= a < t.len() && 0 <= b < t.len() && a != b implies t[a].0@ != t[b].0@ by {
                                let a2 = if a < i { a } else { a + 1 };
                                let b2 = if b < i { b } else { b + 1 };
                                assert(t[a] == s[a2]);
                                assert(t[b] == s[b2]);
                                assert(s[a2].0@ != s[b2].0@);
                            }
                        }
                        assert forall|q: Seq<i32>| #[trigger] entry_of(t, q) == if q == pos {
                            None
                        } else {
                            entry_of(s, q)
                        } by {
                            if has_key(t, q) {
                                let j = choose|j: int| 0 <= j < t.len() && #[trigger] t[j].0@ == q;
                                let j2 = if j < i { j } else { j + 1 };
                                assert(t[j] == s[j2]);
                                if q == pos {
                                    assert(s[j2].0@ != s[i as int].0@);
                                } else {
                                    lemma_entry_at(t, q, j);
                                    lemma_entry_at(s, q, j2);
                                }
                            }
                            if q != pos && has_key(s, q) {
                                let j = choose|j: int| 0 <= j < s.len() && #[trigger] s[j].0@ == q;
                                assert(j != i);
                                let j2 = if j < i { j } else { j - 1 };
                                assert(t[j2] == s[j]);
                            }
                        }
                    }
                    Some(e.1)
                },
                None => None,
            }
        } else {
            let c = self.bounds.child_of(position);
            proof {
                crate::bits::lemma_two_pow_positive(D as nat);
            }
            let ghost before = *self;
            let removed = self.children[c].remove_at(position);
            proof {
                let after = *self;
                assert forall|k: int| #![trigger after.children@[k]] 0 <= k < after.children@.len() implies after.bounds.is_child(
                    k as nat,
                    after.children@[k].bounds,
                ) && after.children@[k].wf() by {
                    if k != c {
                        assert(after.children@[k] == before.children@[k]);
                    }
                }
                lemma_weight_update(before, after, c as int, 0);
                lemma_node_weight_update(before, after, c as int, 0);
                assert forall|k: int| #![trigger before.children@[k]] 0 <= k < before.children@.len() implies before.children@[k].same_shape(after.children@[k]) by {
                    if k != c {
                        assert(after.children@[k] == before.children@[k]);
                        lemma_same_shape_refl(before.children@[k]);
                    }
                }
                assert forall|q: Seq<i32>| #[trigger] after.lookup(q) == if q == pos {
                    None
                } else {
                    before.lookup(q)
                } by {
                    let cq = after.bounds.child_index(q);
                    if cq < after.children@.len() && cq != c {
                        assert(after.children@[cq as int] == before.children@[cq as int]);
                    }
                    if cq == c {
                        assert(after.lookup(q) == after.children@[c as int].lookup(q));
                        assert(before.lookup(q) == before.children@[c as int].lookup(q));
                    }
                }
            }
            removed
        }
    }
}


/// Whatever a subtree holds lies inside its box.
proof fn lemma_lookup_in_bounds<const D: usize, QE>(s: Space<D, QE>, q: Seq<i32>)
    requires
        s.wf(),
        s.lookup(q) is Some,
    ensures
        s.bounds.holds(q),
    decreases s,
{
    if s.is_leaf() {
        let j = choose|j: int| 0 <= j < s.entities@.len() && #[trigger] s.entities@[j].0@ == q;
    } else {
        let c = s.bounds.child_index(q);
        let ch = s.children@[c as int];
        lemma_lookup_in_bounds(ch, q);
        assert forall|i: int| #![trigger s.bounds.low()[i]] 0 <= i < D implies s.bounds.low()[i] < q[i] as int && q[i] as int
            <= s.bounds.high()[i] by {
            assert(ch.bounds.low()[i] == child_low(s.bounds.low(), s.bounds.high(), c, i));
            assert(ch.bounds.high()[i] == child_high(s.bounds.low(), s.bounds.high(), c, i));
            assert(ch.bounds.low()[i] < q[i] as int);
            assert(q[i] as int <= ch.bounds.high()[i]);
        }
    }
}

/// A point inside two boxes shows that they meet.
proof fn lemma_common_point_meets<const D: usize>(a: Bounds<D>, b: Bounds<D>, q: Seq<i32>)
    requires
        a.holds(q),
        b.holds(q),
    ensures
        a.meets(b),
{
    assert forall|i: int| #![trigger a.low()[i]] 0 <= i < D implies a.low()[i] < b.high()[i] && b.low()[i] < a.high()[i] by {
        assert(a.low()[i] < q[i] as int);
        assert(q[i] as int <= a.high()[i]);
        assert(b.low()[i] < q[i] as int);
        assert(q[i] as int <= b.high()[i]);
    }
}

impl<const D: usize, QE: QEntity> Space<D, QE> {
    /// Appends to `out` every entry of the subtree inside `window`, visiting
    /// only children whose boxes meet it.
    fn collect_window<'a>(&'a self, window: &Bounds<D>, out: &mut Vec<(Vector<D>, &'a QE)>)
        requires
            self.wf(),
            window.wf(),
        ensures
            final(out)@.len() >= old(out)@.len(),
            final(out)@.subrange(0, old(out)@.len() as int) == old(out)@,
            forall|i: int|
                #![trigger final(out)@[i]]
                old(out)@.len() <= i < final(out)@.len() ==> window.holds(final(out)@[i].0@)
                    && self.bounds.holds(final(out)@[i].0@)
                    && self.lookup(final(out)@[i].0@) == Some(*final(out)@[i].1),
            forall|q: Seq<i32>|
                window.holds(q) && #[trigger] self.lookup(q) is Some ==> exists|i: int|
                    old(out)@.len() <= i < final(out)@.len() && #[trigger] final(out)@[i].0@ == q,
            forall|i: int, j: int|
                #![trigger final(out)@[i], final(out)@[j]]
                old(out)@.len() <= i < final(out)@.len() && old(out)@.len() <= j < final(out)@.len()
                    && i != j ==> final(out)@[i].0@ != final(out)@[j].0@,
        decreases self,
    {
        let ghost start = out@.len();
        let ghost o0 = out@;
        if self.children.len() == 0 {
            let mut k: usize = 0;
            while k < self.entities.len()
                invariant
                    self.wf(),
                    self.is_leaf(),
                    window.wf(),
                    k <= self.entities@.len(),
                    out@.len() >= start,
                    out@.subrange(0, start as int) == o0,
                    forall|i: int|
                        #![trigger out@[i]]
                        start <= i < out@.len() ==> window.holds(out@[i].0@) && self.bounds.holds(out@[i].0@)
                            && self.lookup(out@[i].0@) == Some(*out@[i].1)
                            && exists|e: int| 0 <= e < k && #[trigger] self.entities@[e].0@ == out@[i].0@,
                    forall|e: int|
                        0 <= e < k && window.holds(#[trigger] self.entities@[e].0@) ==> exists|i: int|
                            start <= i < out@.len() && #[trigger] out@[i].0@ == self.entities@[e].0@,
                    forall|i: int, j: int|
                        #![trigger out@[i], out@[j]]
                        start <= i < out@.len() && start <= j < out@.len() && i != j ==> out@[i].0@
                            != out@[j].0@,
                decreases self.entities@.len() - k,
            {
                let ghost ob = out@;
                let e = &self.entities[k];
                let ghost ek = e.0@;
                proof {
                    assert(self.bounds.holds(self.entities@[k as int].0@));
                }
                if window.contains(&e.0) {
                    proof {
                        lemma_entry_at(self.entities@, ek, k as int);
                    }
                    out.push((e.0.duplicate(), &e.1));
                    proof {
                        assert forall|i: int| #![trigger out@[i]] start <= i < out@.len() implies window.holds(out@[i].0@)
                            && self.bounds.holds(out@[i].0@) && self.lookup(out@[i].0@) == Some(*out@[i].1)
                            && exists|e2: int| 0 <= e2 < k + 1 && #[trigger] self.entities@[e2].0@ == out@[i].0@ by {
                            if i < ob.len() {
                                assert(out@[i] == ob[i]);
                            } else {
                                assert(self.entities@[k as int].0@ == out@[i].0@);
                            }
                        }
                        assert forall|e2: int|
                            0 <= e2 < k + 1 && window.holds(#[trigger] self.entities@[e2].0@) implies exists|i: int|
                                start <= i < out@.len() && #[trigger] out@[i].0@ == self.entities@[e2].0@ by {
                            if e2 < k {
                                let i = choose|i: int| start <= i < ob.len() && #[trigger] ob[i].0@ == self.entities@[e2].0@;
                                assert(out@[i] == ob[i]);
                            } else {
                                assert(out@[ob.len() as int].0@ == self.entities@[e2].0@);
                            }
                        }
                        assert forall|i: int, j: int|
                            #![trigger out@[i], out@[j]]
                            start <= i < out@.len() && start <= j < out@.len() && i != j implies out@[i].0@
                                != out@[j].0@ by {
                            if i < ob.len() && j < ob.len() {
                                assert(out@[i] == ob[i]);
                                assert(out@[j] == ob[j]);
                            } else if i < ob.len() {
                                assert(out@[i] == ob[i]);
                                let e1 = choose|e1: int| 0 <= e1 < k && #[trigger] self.entities@[e1].0@ == ob[i].0@;
                                assert(self.entities@[e1].0@ != self.entities@[k as int].0@);
                            } else if j < ob.len() {
                                assert(out@[j] == ob[j]);
                                let e1 = choose|e1: int| 0 <= e1 < k && #[trigger] self.entities@[e1].0@ == ob[j].0@;
                                assert(self.entities@[e1].0@ != self.entities@[k as int].0@);
                            }
                        }
                        assert(out@.subrange(0, start as int) =~= ob.subrange(0, start as int));
                    }
                }
                k = k + 1;
            }
            proof {
                assert forall|q: Seq<i32>| window.holds(q) && #[trigger] self.lookup(q) is Some implies exists|i: int|
                    start <= i < out@.len() && #[trigger] out@[i].0@ == q by {
                    let e = choose|e: int| 0 <= e < self.entities@.len() && #[trigger] self.entities@[e].0@ == q;
                    assert(window.holds(self.entities@[e].0@));
                }
            }
        } else {
            let n = self.children.len();
            let mut c: usize = 0;
            while c < n
                invariant
                    self.wf(),
                    !self.is_leaf(),
                    window.wf(),
                    n == self.children@.len(),
                    c <= n,
                    out@.len() >= start,
                    out@.subrange(0, start as int) == o0,
                    forall|i: int|
                        #![trigger out@[i]]
                        start <= i < out@.len() ==> window.holds(out@[i].0@) && self.bounds.holds(out@[i].0@)
                            && self.lookup(out@[i].0@) == Some(*out@[i].1)
                            && self.bounds.child_index(out@[i].0@) < c,
                    forall|q: Seq<i32>|
                        window.holds(q) && #[trigger] self.lookup(q) is Some && self.bounds.child_index(q) < c
                            ==> exists|i: int| start <= i < out@.len() && #[trigger] out@[i].0@ == q,
                    forall|i: int, j: int|
                        #![trigger out@[i], out@[j]]
                        start <= i < out@.len() && start <= j < out@.len() && i != j ==> out@[i].0@
                            != out@[j].0@,
                decreases n - c,
            {
                let ghost ob = out@;
                let ch = &self.children[c];
                proof {
                    assert(self.bounds.is_child(c as nat, ch.bounds) && ch.wf());
                }
                if ch.bounds.intersects(window) {
                    ch.collect_window(window, out);
                    proof {
                        let boxes = Seq::new(self.children@.len(), |k: int| self.children@[k].bounds);
                        assert forall|k: int| 0 <= k < boxes.len() implies self.bounds.is_child(k as nat, #[trigger] boxes[k]) by {
                            assert(self.children@[k].bounds == boxes[k]);
                        }
                        assert forall|i: int| #![trigger out@[i]] start <= i < out@.len() implies window.holds(out@[i].0@)
                            && self.bounds.holds(out@[i].0@) && self.lookup(out@[i].0@) == Some(*out@[i].1)
                            && self.bounds.child_index(out@[i].0@) < c + 1 by {
                            if i < ob.len() {
                                assert(out@.subrange(0, ob.len() as int)[i] == out@[i]);
                            } else {
                                let q = out@[i].0@;
                                assert(ch.bounds.holds(q));
                                lemma_lookup_in_bounds_parent(*self, c as int, q);
                                lemma_split_partitions(self.bounds, boxes, q);
                                assert(boxes[c as int].holds(q));
                            }
                        }
                        assert forall|q: Seq<i32>|
                            window.holds(q) && #[trigger] self.lookup(q) is Some && self.bounds.child_index(q) < c + 1
                                implies exists|i: int| start <= i < out@.len() && #[trigger] out@[i].0@ == q by {
                            if self.bounds.child_index(q) < c {
                                let i = choose|i: int| start <= i < ob.len() && #[trigger] ob[i].0@ == q;
                                assert(out@.subrange(0, ob.len() as int)[i] == out@[i]);
                            } else {
                                assert(ch.lookup(q) is Some);
                            }
                        }
                        assert forall|i: int, j: int|
                            #![trigger out@[i], out@[j]]
                            start <= i < out@.len() && start <= j < out@.len() && i != j implies out@[i].0@
                                != out@[j].0@ by {
                            if i < ob.len() {
                                assert(out@.subrange(0, ob.len() as int)[i] == out@[i]);
                            }
                            if j < ob.len() {
                                assert(out@.subrange(0, ob.len() as int)[j] == out@[j]);
                            }
                            if i < ob.len() && j >= ob.len() {
                                let q = out@[j].0@;
                                lemma_lookup_in_bounds_parent(*self, c as int, q);
                                lemma_split_partitions(self.bounds, boxes, q);
                                assert(boxes[c as int].holds(q));
                            }
                            if j < ob.len() && i >= ob.len() {
                                let q = out@[i].0@;
                                lemma_lookup_in_bounds_parent(*self, c as int, q);
                                lemma_split_partitions(self.bounds, boxes, q);
                                assert(boxes[c as int].holds(q));
                            }
                        }
                        assert(out@.subrange(0, start as int) =~= out@.subrange(0, ob.len() as int).subrange(0, start as int));
                    }
                } else {
                    proof {
                        assert forall|q: Seq<i32>|
                            window.holds(q) && #[trigger] self.lookup(q) is Some && self.bounds.child_index(q) < c + 1
                                implies exists|i: int| start <= i < out@.len() && #[trigger] out@[i].0@ == q by {
                            if self.bounds.child_index(q) == c {
                                assert(ch.lookup(q) is Some);
                                lemma_lookup_in_bounds(*ch, q);
                                lemma_common_point_meets(ch.bounds, *window, q);
                            }
                        }
                    }
                }
                c = c + 1;
            }
            proof {
                assert forall|q: Seq<i32>| window.holds(q) && #[trigger] self.lookup(q) is Some implies exists|i: int|
                    start <= i < out@.len() && #[trigger] out@[i].0@ == q by {
                    assert(self.bounds.child_index(q) < n);
                }
            }
        }
    }
}

/// A point held by child `c` of an inner node lies in the node's box too.
proof fn lemma_lookup_in_bounds_parent<const D: usize, QE>(s: Space<D, QE>, c: int, q: Seq<i32>)
    requires
        s.wf(),
        !s.is_leaf(),
        0 <= c < s.children@.len(),
        s.children@[c].bounds.holds(q),
    ensures
        s.bounds.holds(q),
{
    let ch = s.children@[c];
    assert forall|i: int| #![trigger s.bounds.low()[i]] 0 <= i < D implies s.bounds.low()[i] < q[i] as int && q[i] as int
        <= s.bounds.high()[i] by {
        assert(ch.bounds.low()[i] == child_low(s.bounds.low(), s.bounds.high(), c as nat, i));
        assert(ch.bounds.high()[i] == child_high(s.bounds.low(), s.bounds.high(), c as nat, i));
        assert(ch.bounds.low()[i] < q[i] as int);
        assert(q[i] as int <= ch.bounds.high()[i]);
    }
}

/// A partition tree over positions in `D` dimensions.
pub struct SpaceTree<const D: usize, QE: QEntity> {
    pub root: Space<D, QE>,
    pub len: usize,
}

impl<const D: usize, QE: QEntity> View for SpaceTree<D, QE> {
    type V = Map<Seq<i32>, QE>;

    open spec fn view(&self) -> Map<Seq<i32>, QE> {
        self.root.view()
    }
}

impl<const D: usize, QE: QEntity> SpaceTree<D, QE> {
    /// The root is a well-formed subtree whose box holds every position; the
    /// stored length is the number of distinct positions, and the number of
    /// entries a traversal reaches.
    pub open spec fn wf(&self) -> bool {
        &&& self.root.wf()
        &&& forall|p: Seq<i32>| p.len() == D ==> #[trigger] self.root.bounds.holds(p)
        &&& self@.dom().finite()
        &&& self@.dom().len() == self.size()
        &&& self.root.count() == self.size()
    }

    /// Number of entries that a traversal from the root reaches.
    pub open spec fn reachable(&self) -> nat {
        self.root.count()
    }

    /// However often the tree has subdivided, a traversal from the root
    /// reaches exactly one entry per distinct position held.
    pub proof fn lemma_reachable_is_size(&self)
        requires
            self.wf(),
        ensures
            self.reachable() == self@.dom().len(),
            self@.dom().finite(),
    {
    }

    pub open spec fn size(&self) -> nat {
        self.len as nat
    }

    /// An empty tree.
    pub fn new() -> (r: Self)
        requires
            dims_ok(D as nat),
        ensures
            r.wf(),
            r@ == Map::<Seq<i32>, QE>::empty(),
            r.root.is_leaf(),
            r.root.entities@.len() == 0,
            forall|p: Seq<i32>| p.len() == D ==> #[trigger] r.root.bounds.holds(p),
            forall|i: int|
                #![trigger r.root.bounds.low()[i]]
                0 <= i < D ==> r.root.bounds.low()[i] == crate::geometry::BOUND_LOW
                    && r.root.bounds.high()[i] == crate::geometry::BOUND_HIGH,
            r.root.nodes() == 1,
    {
        let root = empty_leaf(Bounds::new());
        let r = SpaceTree { root, len: 0 };
        proof {
            assert forall|q: Seq<i32>| !(#[trigger] has_key(r.root.entities@, q)) by {
            }
            assert(r@ =~= Map::<Seq<i32>, QE>::empty());
        }
        r
    }

    /// Number of distinct positions held.
    pub fn len(&self) -> (r: usize)
        requires
            self.wf(),
        ensures
            r == self@.dom().len(),
            r == self.reachable(),
    {
        self.len
    }

    /// Puts `entity` at `position`, replacing what was there. A position with
    /// a number of coordinates other than `D` is refused and nothing changes.
    ///
    /// An overwrite leaves every node as it was. A new position descends to
    /// its leaf: that leaf becomes an inner node of `2^D` children when it
    /// already holds `2^D` entries (a child that would go over capacity
    /// splits in turn), and stays a leaf otherwise; no node off that path
    /// changes, and inner nodes stay inner.
    pub fn insert(&mut self, entity: QE, position: Vec<i32>) -> (r: Result<(), crate::error::SpatialError>)
        requires
            old(self).wf(),
            old(self)@.dom().len() < usize::MAX || old(self)@.contains_key(position@),
        ensures
            final(self).wf(),
            r is Ok <==> position@.len() == D,
            r is Ok ==> final(self)@ == old(self)@.insert(position@, entity),
            final(self)@.dom().len() <= old(self)@.dom().len() + 1,
            r is Err ==> r == Err::<(), _>(crate::error::SpatialError::DimensionMismatch) && *final(self)
                == *old(self),
            r is Ok && old(self)@.contains_key(position@) ==> old(self).root.same_shape(final(self).root),
            r is Ok && !old(self)@.contains_key(position@) ==> old(self).root.grows_along(
                final(self).root,
                position@,
            ),
            !(r is Ok && !old(self)@.contains_key(position@) && old(self).root.full_leaf_at(position@))
                ==> final(self).root.nodes() == old(self).root.nodes(),
            r is Ok && !old(self)@.contains_key(position@) && old(self).root.full_leaf_at(position@)
                ==> final(self).root.nodes() >= old(self).root.nodes() + two_pow(D as nat),
            !old(self).root.is_leaf() ==> !final(self).root.is_leaf(),
            old(self).root.is_leaf() && r is Ok && !old(self)@.contains_key(position@) && old(self)@.dom().len()
                >= two_pow(D as nat) ==> !final(self).root.is_leaf() && final(self).root.children@.len()
                == two_pow(D as nat),
    {
        let ghost pos = position@;
        let ghost ent = entity;
        let v = match Vector::<D>::from_coords(position) {
            Some(v) => v,
            None => {
                return Err(crate::error::SpatialError::DimensionMismatch);
            },
        };
        let ghost before = *self;
        let added = self.root.insert_at(v, entity);
        proof {
            assert(added == !before@.dom().contains(pos));
            if before.root.is_leaf() {
                assert(before.root.count() == before.root.entities@.len());
            }
        }
        if added {
            self.len = self.len + 1;
        }
        proof {
            assert(self@ =~= before@.insert(pos, ent));
            assert(added == !before@.dom().contains(pos));
            if added {
                assert(self@.dom() =~= before@.dom().insert(pos));
            } else {
                assert(self@.dom() =~= before@.dom());
            }
        }
        Ok(())
    }

    /// The payload at `position`, `None` where nothing is there; a position
    /// with a number of coordinates other than `D` is refused.
    pub fn get(&self, position: &Vec<i32>) -> (r: Result<Option<&QE>, crate::error::SpatialError>)
        requires
            self.wf(),
        ensures
            position@.len() != D ==> r == Err::<Option<&QE>, _>(crate::error::SpatialError::DimensionMismatch),
            position@.len() == D ==> r is Ok,
            r matches Ok(Some(v)) ==> self@.contains_key(position@) && self@[position@] == *v,
            r matches Ok(None) ==> !self@.contains_key(position@),
    {
        if position.len() != D {
            return Err(crate::error::SpatialError::DimensionMismatch);
        }
        let v = Vector::<D>::from_coords(position.clone()).unwrap();
        Ok(self.root.get_at(&v))
    }

    /// Every entry whose position lies inside `window`, each once; only
    /// subtrees whose boxes meet the window are visited.
    pub fn query_window(&self, window: &Bounds<D>) -> (r: Vec<(Vector<D>, &QE)>)
        requires
            self.wf(),
            window.wf(),
        ensures
            forall|i: int|
                #![trigger r@[i]]
                0 <= i < r@.len() ==> window.holds(r@[i].0@) && self@.contains_key(r@[i].0@)
                    && self@[r@[i].0@] == *r@[i].1,
            forall|q: Seq<i32>|
                window.holds(q) && #[trigger] self@.contains_key(q) ==> exists|i: int|
                    0 <= i < r@.len() && #[trigger] r@[i].0@ == q,
            forall|i: int, j: int|
                #![trigger r@[i], r@[j]]
                0 <= i < r@.len() && 0 <= j < r@.len() && i != j ==> r@[i].0@ != r@[j].0@,
    {
        let mut out: Vec<(Vector<D>, &QE)> = Vec::new();
        self.root.collect_window(window, &mut out);
        out
    }

    /// Takes out the entry at `position` and returns its payload, `None` where
    /// nothing is there; a position with a number of coordinates other than
    /// `D` is refused. Inner nodes stay as they are.
    pub fn remove(&mut self, position: &Vec<i32>) -> (r: Result<Option<QE>, crate::error::SpatialError>)
        requires
            old(self).wf(),
        ensures
            position@.len() != D ==> r == Err::<Option<QE>, _>(crate::error::SpatialError::DimensionMismatch),
            position@.len() == D ==> r == Ok::<Option<QE>, crate::error::SpatialError>(if old(self)@.contains_key(position@) {
                Some(old(self)@[position@])
            } else {
                None::<QE>
            }),
            final(self).wf(),
            final(self)@ == old(self)@.remove(position@),
            old(self).root.same_shape(final(self).root),
            final(self).root.nodes() == old(self).root.nodes(),
    {
        if position.len() != D {
            proof {
                assert(self@ =~= self@.remove(position@));
                lemma_same_shape_refl(self.root);
            }
            return Err(crate::error::SpatialError::DimensionMismatch);
        }
        let v = Vector::<D>::from_coords(position.clone()).unwrap();
        let ghost pos = v@;
        let ghost before = *self;
        let removed = self.root.remove_at(&v);
        if removed.is_some() {
            self.len = self.len - 1;
        }
        proof {
            assert(self@ =~= before@.remove(pos));
            if removed is Some {
                assert(before@.dom().contains(pos));
                assert(self@.dom() =~= before@.dom().remove(pos));
            } else {
                assert(self@.dom() =~= before@.dom());
            }
        }
        Ok(removed)
    }
}

/// The contents after inserting `vs[i]` at `ps[i]`, in order, into `m`.
pub open spec fn insert_all<V>(m: Map<Seq<i32>, V>, ps: Seq<Seq<i32>>, vs: Seq<V>) -> Map<Seq<i32>, V>
    decreases ps.len(),
{
    if ps.len() == 0 || vs.len() == 0 {
        m
    } else {
        insert_all(m, ps.drop_last(), vs.drop_last()).insert(ps.last(), vs.last())
    }
}

/// Inserting `N` distinct new positions, however the tree subdivides, leaves
/// `N` more positions than before; since a tree's length is both its number
/// of positions and the number of entries a traversal reaches, a traversal of
/// a tree built from empty this way reaches exactly `N` entries.
pub proof fn lemma_distinct_inserts_count<V>(m: Map<Seq<i32>, V>, ps: Seq<Seq<i32>>, vs: Seq<V>)
    requires
        m.dom().finite(),
        ps.len() == vs.len(),
        forall|i: int, j: int| 0 <= i < ps.len() && 0 <= j < ps.len() && i != j ==> ps[i] != ps[j],
        forall|i: int| 0 <= i < ps.len() ==> !m.contains_key(#[trigger] ps[i]),
    ensures
        insert_all(m, ps, vs).dom().finite(),
        insert_all(m, ps, vs).dom().len() == m.dom().len() + ps.len(),
        forall|i: int| 0 <= i < ps.len() ==> #[trigger] insert_all(m, ps, vs).contains_key(ps[i]),
    decreases ps.len(),
{
    if ps.len() > 0 {
        let pp = ps.drop_last();
        let vp = vs.drop_last();
        lemma_distinct_inserts_count(m, pp, vp);
        let prev = insert_all(m, pp, vp);
        let last = ps.last();
        assert(!prev.contains_key(last)) by {
            if prev.contains_key(last) {
                lemma_insert_all_keys(m, pp, vp, last);
                let i = choose|i: int| 0 <= i < pp.len() && pp[i] == last;
                assert(ps[i] == pp[i]);
            }
        }
        assert(prev.insert(last, vs.last()).dom() =~= prev.dom().insert(last));
        assert forall|i: int| 0 <= i < ps.len() implies #[trigger] insert_all(m, ps, vs).contains_key(ps[i]) by {
            if i < ps.len() - 1 {
                assert(prev.contains_key(pp[i]));
            }
        }
    }
}

proof fn lemma_insert_all_keys<V>(m: Map<Seq<i32>, V>, ps: Seq<Seq<i32>>, vs: Seq<V>, q: Seq<i32>)
    requires
        ps.len() == vs.len(),
        insert_all(m, ps, vs).contains_key(q),
    ensures
        m.contains_key(q) || exists|i: int| 0 <= i < ps.len() && ps[i] == q,
    decreases ps.len(),
{
    if ps.len() > 0 && q != ps.last() {
        lemma_insert_all_keys(m, ps.drop_last(), vs.drop_last(), q);
        if !m.contains_key(q) {
            let i = choose|i: int| 0 <= i < ps.len() - 1 && ps.drop_last()[i] == q;
            assert(ps[i] == q);
        }
    }
}

/// Inserting at a position already held replaces its payload and leaves the
/// number of positions unchanged.
pub proof fn lemma_overwrite_keeps_size<V>(m: Map<Seq<i32>, V>, p: Seq<i32>, v: V)
    requires
        m.dom().finite(),
        m.contains_key(p),
    ensures
        m.insert(p, v)[p] == v,
        m.insert(p, v).dom().len() == m.dom().len(),
        forall|q: Seq<i32>| q != p ==> #[trigger] m.insert(p, v).get(q) == m.get(q),
{
    assert(m.insert(p, v).dom() =~= m.dom());
}

proof fn lemma_weight_zero<const D: usize, QE>(s: Space<D, QE>, k: int)
    requires
        !s.is_leaf(),
        0 <= k <= s.children@.len(),
        forall|c: int| 0 <= c < s.children@.len() ==> #[trigger] s.children@[c].weight(0) == 0,
    ensures
        s.weight(k) == 0,
    decreases s.children@.len() - k,
{
    if k < s.children@.len() {
        lemma_weight_zero(s, k + 1);
        assert(s.weight(k) == s.children@[k].weight(0) + s.weight(k + 1));
    }
}

} // verus!
