//! How deep the tree below a shape reaches.
use std::collections::HashSet;
use vstd::prelude::*;

use crate::shape::{Shape, ShapesPool, Uuid};

verus! {

/// Whether a shape links to another one.
pub open spec fn links(shape: Shape, id: Uuid) -> bool {
    shape.children@.contains(id) || shape.paint_order@.contains(id) || shape.mask_id == Some(id)
}

/// Whether no chain of links from `id` passes more than `depth` shapes.
pub open spec fn within(pool: Map<Uuid, Shape>, id: Uuid, depth: nat) -> bool
    decreases depth,
{
    pool.contains_key(id) ==> depth > 0 && forall|c: Uuid| #[trigger]
        links(pool[id], c) ==> within(pool, c, (depth - 1) as nat)
}

/// Whether the links from `id` lead into no cycle.
pub open spec fn acyclic(pool: Map<Uuid, Shape>, id: Uuid) -> bool {
    exists|depth: nat| within(pool, id, depth)
}

/// The number of shapes on the longest chain of links from `id`.
pub open spec fn height(pool: Map<Uuid, Shape>, id: Uuid) -> nat {
    choose|depth: nat| is_height(pool, id, depth)
}

/// Whether `depth` is the least that the chains of links from `id` stay within.
pub open spec fn is_height(pool: Map<Uuid, Shape>, id: Uuid, depth: nat) -> bool {
    within(pool, id, depth) && forall|d: nat| d < depth ==> !#[trigger] within(pool, id, d)
}

proof fn lemma_least(pool: Map<Uuid, Shape>, id: Uuid, depth: nat)
    requires
        within(pool, id, depth),
    ensures
        exists|d: nat| d <= depth && is_height(pool, id, d),
    decreases depth,
{
    if exists|d: nat| d < depth && within(pool, id, d) {
        let d = choose|d: nat| d < depth && within(pool, id, d);
        lemma_least(pool, id, d);
        let e = choose|e: nat| e <= d && is_height(pool, id, e);
        assert(e <= depth && is_height(pool, id, e));
    } else {
        assert(is_height(pool, id, depth));
    }
}

proof fn lemma_height(pool: Map<Uuid, Shape>, id: Uuid, depth: nat)
    requires
        within(pool, id, depth),
    ensures
        is_height(pool, id, height(pool, id)),
        height(pool, id) <= depth,
{
    lemma_least(pool, id, depth);
    let h = height(pool, id);
    if h > depth {
        assert(!within(pool, id, depth));
    }
}

/// A shape that another one links to lies lower.
pub proof fn lemma_height_of_link(pool: Map<Uuid, Shape>, id: Uuid, child: Uuid)
    requires
        acyclic(pool, id),
        pool.contains_key(id),
        links(pool[id], child),
    ensures
        acyclic(pool, child),
        height(pool, child) < height(pool, id),
{
    let d = choose|depth: nat| within(pool, id, depth);
    lemma_height(pool, id, d);
    let h = height(pool, id);
    assert(within(pool, child, (h - 1) as nat));
    lemma_height(pool, child, (h - 1) as nat);
}

proof fn lemma_within_more(pool: Map<Uuid, Shape>, id: Uuid, d: nat, e: nat)
    requires
        within(pool, id, d),
        d <= e,
    ensures
        within(pool, id, e),
    decreases d,
{
    if pool.contains_key(id) {
        assert forall|c: Uuid| #[trigger] links(pool[id], c) implies within(
            pool,
            c,
            (e - 1) as nat,
        ) by {
            lemma_within_more(pool, c, (d - 1) as nat, (e - 1) as nat);
        }
    }
}

// One depth for several shapes.
proof fn lemma_all_within(pool: Map<Uuid, Shape>, ids: Seq<Uuid>) -> (depth: nat)
    requires
        forall|c: Uuid| #[trigger] ids.contains(c) ==> acyclic(pool, c),
    ensures
        forall|c: Uuid| #[trigger] ids.contains(c) ==> within(pool, c, depth),
    decreases ids.len(),
{
    if ids.len() == 0 {
        0
    } else {
        let init = ids.drop_last();
        assert forall|c: Uuid| #[trigger] init.contains(c) implies acyclic(pool, c) by {
            let i = choose|i: int| 0 <= i < init.len() && init[i] == c;
            assert(ids[i] == c);
            assert(ids.contains(c));
        }
        let d = lemma_all_within(pool, init);
        let last = ids.last();
        assert(ids.contains(last));
        let e = choose|e: nat| within(pool, last, e);
        assert forall|c: Uuid| #[trigger] ids.contains(c) implies within(pool, c, d + e) by {
            let i = choose|i: int| 0 <= i < ids.len() && ids[i] == c;
            if i < init.len() {
                assert(init[i] == c);
                assert(init.contains(c));
                lemma_within_more(pool, c, d, d + e);
            } else {
                lemma_within_more(pool, c, e, d + e);
            }
        }
        d + e
    }
}

// A shape whose links lead into no cycle is on none.
proof fn lemma_acyclic_above(pool: Map<Uuid, Shape>, id: Uuid)
    requires
        pool.contains_key(id),
        forall|c: Uuid| #[trigger] links(pool[id], c) ==> acyclic(pool, c),
    ensures
        acyclic(pool, id),
{
    let shape = pool[id];
    assert forall|c: Uuid| #[trigger] shape.children@.contains(c) implies acyclic(pool, c) by {
        assert(links(shape, c));
    }
    assert forall|c: Uuid| #[trigger] shape.paint_order@.contains(c) implies acyclic(pool, c) by {
        assert(links(shape, c));
    }
    let mask = match shape.mask_id {
        Some(mask) => seq![mask],
        None => Seq::empty(),
    };
    assert forall|c: Uuid| #[trigger] mask.contains(c) implies acyclic(pool, c) by {
        assert(links(shape, c));
    }
    let d = lemma_all_within(pool, shape.children@);
    let e = lemma_all_within(pool, shape.paint_order@);
    let f = lemma_all_within(pool, mask);
    let depth = d + e + f;
    assert forall|c: Uuid| #[trigger] links(shape, c) implies within(pool, c, depth) by {
        if shape.children@.contains(c) {
            lemma_within_more(pool, c, d, depth);
        } else if shape.paint_order@.contains(c) {
            lemma_within_more(pool, c, e, depth);
        } else {
            assert(mask[0] == c);
            assert(mask.contains(c));
            lemma_within_more(pool, c, f, depth);
        }
    }
    assert(within(pool, id, depth + 1));
}

// Whether a shape is settled, or there is none.
spec fn done(pool: Map<Uuid, Shape>, settled: Set<Uuid>, id: Uuid) -> bool {
    settled.contains(id) || !pool.contains_key(id)
}

spec fn links_done(pool: Map<Uuid, Shape>, settled: Set<Uuid>, id: Uuid) -> bool {
    forall|c: Uuid| #[trigger] links(pool[id], c) ==> done(pool, settled, c)
}

// Where no shape is left that could be settled, all without a cycle are.
proof fn lemma_settled(pool: Map<Uuid, Shape>, settled: Set<Uuid>, id: Uuid)
    requires
        acyclic(pool, id),
        forall|k: Uuid| #[trigger]
            pool.contains_key(k) && links_done(pool, settled, k) ==> settled.contains(k),
    ensures
        done(pool, settled, id),
    decreases height(pool, id),
{
    if pool.contains_key(id) {
        assert forall|c: Uuid| #[trigger] links(pool[id], c) implies done(pool, settled, c) by {
            lemma_height_of_link(pool, id, c);
            lemma_settled(pool, settled, c);
        }
        assert(links_done(pool, settled, id));
    }
}

impl ShapesPool {
    fn is_done(&self, settled: &HashSet<Uuid>, id: &Uuid) -> (r: bool)
        ensures
            r == done(self@, settled@, *id),
    {
        broadcast use vstd::std_specs::hash::group_hash_axioms;

        settled.contains(id) || self.get(id).is_none()
    }

    fn all_done(&self, settled: &HashSet<Uuid>, ids: &Vec<Uuid>) -> (r: bool)
        ensures
            r == forall|c: Uuid| #[trigger] ids@.contains(c) ==> done(self@, settled@, c),
    {
        let mut i: usize = 0;
        while i < ids.len()
            invariant
                0 <= i <= ids.len(),
                forall|j: int| 0 <= j < i ==> done(self@, settled@, #[trigger] ids@[j]),
            decreases ids.len() - i,
        {
            if !self.is_done(settled, &ids[i]) {
                assert(ids@.contains(ids@[i as int]));
                return false;
            }
            i = i + 1;
        }
        true
    }

    fn are_links_done(&self, settled: &HashSet<Uuid>, shape: &Shape) -> (r: bool)
        requires
            self@.contains_key(shape.id),
            self@[shape.id] == *shape,
        ensures
            r == links_done(self@, settled@, shape.id),
    {
        let children = self.all_done(settled, &shape.children);
        let painted = self.all_done(settled, &shape.paint_order);
        let mask = match &shape.mask_id {
            Some(mask) => self.is_done(settled, mask),
            None => true,
        };
        proof {
            if !children {
                let c = choose|c: Uuid| #[trigger]
                    shape.children@.contains(c) && !done(self@, settled@, c);
                assert(links(*shape, c));
            }
            if !painted {
                let c = choose|c: Uuid| #[trigger]
                    shape.paint_order@.contains(c) && !done(self@, settled@, c);
                assert(links(*shape, c));
            }
            if !mask {
                assert(links(*shape, shape.mask_id->0));
            }
        }
        children && painted && mask
    }

    /// Settles each shape whose links are all settled or lead to no shape, and returns
    /// whether there was one.
    fn settle(&self, settled: &mut HashSet<Uuid>) -> (changed: bool)
        requires
            forall|k: Uuid| #[trigger]
                old(settled)@.contains(k) ==> self@.contains_key(k) && acyclic(self@, k),
        ensures
            forall|k: Uuid| #[trigger]
                final(settled)@.contains(k) ==> self@.contains_key(k) && acyclic(self@, k),
            changed ==> final(settled)@.len() > old(settled)@.len(),
            !changed ==> final(settled)@ == old(settled)@ && forall|k: Uuid| #[trigger]
                self@.contains_key(k) && links_done(self@, final(settled)@, k)
                    ==> final(settled)@.contains(k),
    {
        broadcast use vstd::std_specs::hash::group_hash_axioms;

        proof {
            self.lemma_finite();
        }
        let ids = self.ids();
        let mut changed = false;
        let mut i: usize = 0;
        while i < ids.len()
            invariant
                0 <= i <= ids.len(),
                self@.dom().finite(),
                forall|k: Uuid| #[trigger] ids@.contains(k) <==> self@.contains_key(k),
                forall|k: Uuid| #[trigger]
                    settled@.contains(k) ==> self@.contains_key(k) && acyclic(self@, k),
                changed ==> settled@.len() > old(settled)@.len(),
                !changed ==> settled@ == old(settled)@,
                !changed ==> forall|j: int|
                    0 <= j < i && links_done(self@, settled@, #[trigger] ids@[j])
                        ==> settled@.contains(ids@[j]),
            decreases ids.len() - i,
        {
            broadcast use vstd::std_specs::hash::group_hash_axioms;

            let id = ids[i];
            assert(ids@.contains(id));
            if !settled.contains(&id) {
                match self.get(&id) {
                    Some(shape) => {
                        if self.are_links_done(settled, shape) {
                            proof {
                                assert forall|c: Uuid| #[trigger]
                                    links(self@[id], c) implies acyclic(self@, c) by {
                                    if !settled@.contains(c) {
                                        assert(within(self@, c, 0));
                                    }
                                }
                                lemma_acyclic_above(self@, id);
                                vstd::set_lib::lemma_len_subset(settled@, self@.dom());
                            }
                            settled.insert(id);
                            changed = true;
                        }
                    },
                    None => {},
                }
            }
            i = i + 1;
        }
        proof {
            if !changed {
                assert forall|k: Uuid| #[trigger]
                    self@.contains_key(k) && links_done(self@, settled@, k) implies settled@.contains(
                    k,
                ) by {
                    assert(ids@.contains(k));
                    let j = choose|j: int| 0 <= j < ids@.len() && ids@[j] == k;
                    assert(links_done(self@, settled@, ids@[j]));
                }
            }
        }
        changed
    }

    /// Whether the links from a shape lead into no cycle.
    pub fn is_acyclic(&self, id: &Uuid) -> (r: bool)
        ensures
            r == acyclic(self@, *id),
    {
        broadcast use vstd::std_specs::hash::group_hash_axioms;

        proof {
            self.lemma_finite();
        }
        let mut settled: HashSet<Uuid> = HashSet::new();
        while self.settle(&mut settled)
            invariant
                self@.dom().finite(),
                forall|k: Uuid| #[trigger]
                    settled@.contains(k) ==> self@.contains_key(k) && acyclic(self@, k),
            decreases self@.dom().len() - settled@.len(),
        {
            proof {
                vstd::set_lib::lemma_len_subset(settled@, self@.dom());
            }
        }
        proof {
            if acyclic(self@, *id) {
                lemma_settled(self@, settled@, *id);
            } else if !self@.contains_key(*id) {
                assert(within(self@, *id, 0));
            }
        }
        self.is_done(&settled, id)
    }
}

/// The links from a shape lead into no cycle where those from its children, painted or
/// not, and from its mask do not, and only there. A shape that is not in the pool has no
/// links.
pub proof fn acyclic_shapes_link_to_acyclic_ones(pool: Map<Uuid, Shape>, id: Uuid)
    ensures
        !pool.contains_key(id) ==> acyclic(pool, id),
        pool.contains_key(id) ==> (acyclic(pool, id) <==> forall|c: Uuid|
            pool[id].children@.contains(c) || pool[id].paint_order@.contains(c)
                || pool[id].mask_id == Some(c) ==> #[trigger] acyclic(pool, c)),
{
    if !pool.contains_key(id) {
        assert(within(pool, id, 0));
    } else {
        if acyclic(pool, id) {
            assert forall|c: Uuid|
                pool[id].children@.contains(c) || pool[id].paint_order@.contains(c)
                    || pool[id].mask_id == Some(c) implies #[trigger] acyclic(pool, c) by {
                assert(links(pool[id], c));
                lemma_height_of_link(pool, id, c);
            }
        }
        if forall|c: Uuid|
            pool[id].children@.contains(c) || pool[id].paint_order@.contains(c)
                || pool[id].mask_id == Some(c) ==> #[trigger] acyclic(pool, c) {
            assert forall|c: Uuid| #[trigger] links(pool[id], c) implies acyclic(pool, c) by {}
            lemma_acyclic_above(pool, id);
        }
    }
}

/// Whether each shape of a path is in the pool and links to the next one.
pub open spec fn chain(pool: Map<Uuid, Shape>, path: Seq<Uuid>) -> bool {
    &&& forall|i: int| 0 <= i < path.len() ==> pool.contains_key(#[trigger] path[i])
    &&& forall|i: int|
        0 <= i < path.len() - 1 ==> links(pool[#[trigger] path[i]], path[i + 1])
}

proof fn lemma_chain_falls(pool: Map<Uuid, Shape>, path: Seq<Uuid>, n: int)
    requires
        0 <= n < path.len(),
        chain(pool, path),
        acyclic(pool, path[0]),
    ensures
        acyclic(pool, path[n]),
        height(pool, path[n]) <= height(pool, path[0]) - n,
    decreases n,
{
    if n > 0 {
        lemma_chain_falls(pool, path, n - 1);
        assert(links(pool[path[n - 1]], path[n - 1 + 1]));
        lemma_height_of_link(pool, path[n - 1], path[n]);
    }
}

/// A shape from which links lead back to it is not acyclic.
pub proof fn acyclic_shapes_lie_on_no_cycle(pool: Map<Uuid, Shape>, path: Seq<Uuid>)
    requires
        path.len() >= 2,
        path[0] == path.last(),
        chain(pool, path),
    ensures
        !acyclic(pool, path[0]),
{
    if acyclic(pool, path[0]) {
        lemma_chain_falls(pool, path, path.len() - 1);
    }
}

} // verus!
