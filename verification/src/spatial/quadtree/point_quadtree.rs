//! The point quadtree: one point per node, four children per subdivision.
//!
//! A node that already holds a point and receives another one is subdivided at
//! the point it holds, not at the middle of its box. The shape of the tree is
//! therefore a function of the order in which the points came, and so is the
//! order in which a region query reports them.

use crate::arena::{Arena, HasId, Id, IsMemoryArena};
use crate::spatial::quadtree::prelude::{
    lemma_common_point_intersects, lemma_quadrants_partition, quadrant_of, BBox2D, Vec2,
};
use std::fmt::Debug;
use vstd::multiset::Multiset;
use vstd::prelude::*;

verus! {

/// What a payload stored with a point must offer.
pub trait IsPayload: Clone + Debug + Send + Sync {

}

impl<T: Clone + Debug + Send + Sync> IsPayload for T {

}

/// A point together with its payload.
pub type Node<T> = (Vec2, T);

/// A quadrant of the plane: a box, at most one point, and four children once
/// it has been subdivided, in the order south-west, south-east, north-east,
/// north-west.
#[derive(Clone, Debug)]
pub struct Quad<P: IsPayload> {
    pub id: Id,
    pub bbox: BBox2D,
    pub point: Option<Node<P>>,
    pub children: Option<[Id; 4]>,
}

impl<P: IsPayload> Quad<P> {
    /// An empty quadrant without children.
    pub fn new(id: Id, bbox: BBox2D) -> (quad: Self)
        ensures
            quad.id == id,
            quad.bbox == bbox,
            quad.point is None,
            quad.children is None,
    {
        Self { id, bbox, point: None, children: None }
    }
}

impl<P: IsPayload> HasId for Quad<P> {
    open spec fn ident(&self) -> Id {
        self.id
    }

    fn get_id(&self) -> (id: Id) {
        self.id
    }
}

/// The entries that fall in quadrant `k` around `pivot`.
pub open spec fn falls_in<P>(pivot: Vec2, k: int) -> spec_fn(Node<P>) -> bool {
    |e: Node<P>| quadrant_of(pivot, e.0) == k
}

/// Of the entries that came after the first, those that fall in quadrant `k`
/// around the first, in the order in which they came.
pub open spec fn part<P>(h: Seq<Node<P>>, k: int) -> Seq<Node<P>> {
    h.drop_first().filter(falls_in(h[0].0, k))
}

/// The order in which a tree reports the entries that were inserted in the
/// order `h`: the first entry, then the entries south-west of it, then those
/// south-east, north-east and north-west of it, each group arranged likewise.
pub open spec fn arrange<P>(h: Seq<Node<P>>) -> Seq<Node<P>>
    decreases h.len(),
{
    if h.len() == 0 {
        h
    } else {
        proof {
            lemma_part_shorter(h);
        }
        seq![h[0]] + arrange(part(h, 0)) + arrange(part(h, 1)) + arrange(part(h, 2)) + arrange(
            part(h, 3),
        )
    }
}

/// Some entry of `h` has the point `p`.
pub open spec fn has_point<P>(h: Seq<Node<P>>, p: Vec2) -> bool {
    exists|i: int| 0 <= i < h.len() && (#[trigger] h[i]).0 == p
}

/// No two entries of `h` have the same point.
pub open spec fn distinct_points<P>(h: Seq<Node<P>>) -> bool {
    forall|i: int, j: int| 0 <= i < j < h.len() ==> (#[trigger] h[i]).0 != (#[trigger] h[j]).0
}

/// Each group of later entries is shorter than the whole.
pub proof fn lemma_part_shorter<P>(h: Seq<Node<P>>)
    requires
        h.len() > 0,
    ensures
        forall|k: int| (#[trigger] part(h, k)).len() < h.len(),
{
    assert forall|k: int| (#[trigger] part(h, k)).len() < h.len() by {
        h.drop_first().lemma_filter_len(falls_in(h[0].0, k));
    }
}

/// The four groups of entries around a pivot hold every entry once.
pub proof fn lemma_groups_cover<P>(s: Seq<Node<P>>, pivot: Vec2)
    ensures
        s.to_multiset() == s.filter(falls_in(pivot, 0)).to_multiset().add(
            s.filter(falls_in(pivot, 1)).to_multiset(),
        ).add(s.filter(falls_in(pivot, 2)).to_multiset()).add(
            s.filter(falls_in(pivot, 3)).to_multiset(),
        ),
    decreases s.len(),
{
    broadcast use vstd::seq_lib::group_to_multiset_ensures;
    broadcast use vstd::multiset::group_multiset_axioms;

    let groups = |t: Seq<Node<P>>|
        t.filter(falls_in(pivot, 0)).to_multiset().add(
            t.filter(falls_in(pivot, 1)).to_multiset(),
        ).add(t.filter(falls_in(pivot, 2)).to_multiset()).add(
            t.filter(falls_in(pivot, 3)).to_multiset(),
        );
    if s.len() == 0 {
        s.lemma_filter_len(falls_in(pivot, 0));
        s.lemma_filter_len(falls_in(pivot, 1));
        s.lemma_filter_len(falls_in(pivot, 2));
        s.lemma_filter_len(falls_in(pivot, 3));
        assert(s.to_multiset() =~= groups(s));
    } else {
        let init = s.drop_last();
        let e = s.last();
        lemma_groups_cover(init, pivot);
        assert(s == init.push(e));
        init.lemma_filter_push(e, falls_in(pivot, 0));
        init.lemma_filter_push(e, falls_in(pivot, 1));
        init.lemma_filter_push(e, falls_in(pivot, 2));
        init.lemma_filter_push(e, falls_in(pivot, 3));
        assert(s.to_multiset() =~= groups(s));
    }
}

/// A tree reports the entries that were inserted, each once.
pub proof fn lemma_arrange_permutes<P>(h: Seq<Node<P>>)
    ensures
        arrange(h).to_multiset() == h.to_multiset(),
        arrange(h).len() == h.len(),
        forall|e: Node<P>| arrange(h).contains(e) <==> h.contains(e),
    decreases h.len(),
{
    broadcast use vstd::seq_lib::group_to_multiset_ensures;
    broadcast use vstd::multiset::group_multiset_axioms;
    broadcast use vstd::seq_lib::lemma_multiset_commutative;

    if h.len() > 0 {
        lemma_part_shorter(h);
        lemma_arrange_permutes(part(h, 0));
        lemma_arrange_permutes(part(h, 1));
        lemma_arrange_permutes(part(h, 2));
        lemma_arrange_permutes(part(h, 3));
        lemma_groups_cover(h.drop_first(), h[0].0);
        assert(h == seq![h[0]] + h.drop_first());
        assert(seq![h[0]].to_multiset() =~= Multiset::singleton(h[0])) by {
            assert(seq![h[0]] == Seq::<Node<P>>::empty().push(h[0]));
        }
        assert(arrange(h).to_multiset() =~= h.to_multiset());
    }
    assert(arrange(h).len() == arrange(h).to_multiset().len());
    assert(h.len() == h.to_multiset().len());
    assert forall|e: Node<P>| arrange(h).contains(e) <==> h.contains(e) by {
        assert(arrange(h).to_multiset().count(e) == h.to_multiset().count(e));
    }
}

/// The entries whose point lies in `region`.
pub open spec fn within<P>(region: BBox2D) -> spec_fn(Node<P>) -> bool {
    |e: Node<P>| region.contains(&e.0)
}

/// `copies` holds the entries of `entries`, in the same order: the same
/// points, each with a clone of its payload.
pub open spec fn cloned_entries<P: Clone>(entries: Seq<Node<P>>, copies: Seq<Node<P>>) -> bool {
    &&& copies.len() == entries.len()
    &&& forall|i: int|
        0 <= i < entries.len() ==> (#[trigger] copies[i]).0 == entries[i].0 && cloned(
            entries[i].1,
            copies[i].1,
        )
}

/// A group of later entries around `pivot` holds the point `p` exactly if the
/// later entries hold it and it falls in that group's quadrant.
proof fn lemma_group_has_point<P>(rest: Seq<Node<P>>, pivot: Vec2, p: Vec2, k: int)
    ensures
        has_point(rest.filter(falls_in(pivot, k)), p) <==> has_point(rest, p) && quadrant_of(
            pivot,
            p,
        ) == k,
{
    let group = rest.filter(falls_in(pivot, k));
    if has_point(group, p) {
        let i = choose|i: int| 0 <= i < group.len() && (#[trigger] group[i]).0 == p;
        rest.lemma_filter_pred(falls_in(pivot, k), i);
        assert(group.contains(group[i]));
        rest.lemma_filter_contains_rev(falls_in(pivot, k), group[i]);
        let j = choose|j: int| 0 <= j < rest.len() && rest[j] == group[i];
        assert(rest[j].0 == p);
    }
    if has_point(rest, p) && quadrant_of(pivot, p) == k {
        let j = choose|j: int| 0 <= j < rest.len() && (#[trigger] rest[j]).0 == p;
        rest.lemma_filter_contains(falls_in(pivot, k), j);
        let i = choose|i: int| 0 <= i < group.len() && group[i] == rest[j];
        assert(group[i].0 == p);
    }
}

/// The arrangement of entries with distinct points has distinct points.
pub proof fn lemma_arrange_distinct<P>(h: Seq<Node<P>>)
    requires
        distinct_points(h),
    ensures
        distinct_points(arrange(h)),
{
    broadcast use vstd::seq_lib::group_to_multiset_ensures;

    let a = arrange(h);
    lemma_arrange_permutes(h);
    assert(h.no_duplicates());
    h.lemma_multiset_has_no_duplicates();
    a.lemma_multiset_has_no_duplicates_conv();
    assert forall|i: int, j: int|
        #![trigger a[i], a[j]]
        0 <= i < j < a.len() implies a[i].0 != a[j].0 by {
        if a[i].0 == a[j].0 {
            assert(a.contains(a[i]));
            assert(a.contains(a[j]));
            assert(h.contains(a[i]));
            assert(h.contains(a[j]));
            let x = choose|x: int| 0 <= x < h.len() && h[x] == a[i];
            let y = choose|y: int| 0 <= y < h.len() && h[y] == a[j];
            if x == y {
                assert(a[i] != a[j]);
            } else if x < y {
                assert(h[x].0 != h[y].0);
            } else {
                assert(h[y].0 != h[x].0);
            }
        }
    }
}

/// Keeping only the entries of a region keeps their points distinct.
proof fn lemma_filter_distinct<P>(s: Seq<Node<P>>, region: BBox2D)
    requires
        distinct_points(s),
    ensures
        distinct_points(s.filter(within(region))),
    decreases s.len(),
{
    let out = s.filter(within(region));
    if s.len() == 0 {
        s.lemma_filter_len(within(region));
    } else {
        let init = s.drop_last();
        lemma_filter_distinct(init, region);
        assert(s == init.push(s.last()));
        init.lemma_filter_push(s.last(), within(region));
        let kept = init.filter(within(region));
        assert forall|i: int, j: int|
            #![trigger out[i], out[j]]
            0 <= i < j < out.len() implies out[i].0 != out[j].0 by {
            if j == kept.len() {
                assert(kept.contains(kept[i]));
                init.lemma_filter_contains_rev(within(region), kept[i]);
                let x = choose|x: int| 0 <= x < init.len() && init[x] == kept[i];
                assert(s[x].0 != s[s.len() - 1].0);
            } else {
                assert(kept[i].0 != kept[j].0);
            }
        }
    }
}

/// A region query reports exactly the entries of the tree whose point lies in
/// the region, and none of them twice.
pub proof fn lemma_found_within<P>(h: Seq<Node<P>>, region: BBox2D)
    requires
        distinct_points(h),
    ensures
        forall|e: Node<P>|
            arrange(h).filter(within(region)).contains(e) <==> h.contains(e) && region.contains(
                &e.0,
            ),
        distinct_points(arrange(h).filter(within(region))),
{
    let a = arrange(h);
    let out = a.filter(within(region));
    lemma_arrange_permutes(h);
    lemma_arrange_distinct(h);
    lemma_filter_distinct(a, region);
    assert forall|e: Node<P>| out.contains(e) <==> h.contains(e) && region.contains(&e.0) by {
        if out.contains(e) {
            a.lemma_filter_contains_rev(within(region), e);
            let i = choose|i: int| 0 <= i < out.len() && out[i] == e;
            a.lemma_filter_pred(within(region), i);
        }
        if h.contains(e) && region.contains(&e.0) {
            assert(a.contains(e));
            let i = choose|i: int| 0 <= i < a.len() && a[i] == e;
            a.lemma_filter_contains(within(region), i);
        }
    }
}

/// An entry that went into the tree is the one entry with its point: a lookup
/// of the point finds its payload, a second insertion of the point is turned
/// down, and the entries that were there before are all still there.
pub proof fn lemma_inserted_is_found<P>(h: Seq<Node<P>>, p: Vec2, payload: P)
    requires
        distinct_points(h),
        !has_point(h, p),
    ensures
        distinct_points(h.push((p, payload))),
        has_point(h.push((p, payload)), p),
        forall|i: int|
            0 <= i < h.len() + 1 && (#[trigger] h.push((p, payload))[i]).0 == p ==> h.push(
                (p, payload),
            )[i].1 == payload,
        forall|q: Vec2| has_point(h, q) ==> has_point(h.push((p, payload)), q),
{
    let h2 = h.push((p, payload));
    assert(h2[h.len() as int].0 == p);
    assert forall|i: int, j: int|
        #![trigger h2[i], h2[j]]
        0 <= i < j < h2.len() implies h2[i].0 != h2[j].0 by {
        if j == h.len() {
            assert(h[i].0 != p);
        } else {
            assert(h[i].0 != h[j].0);
        }
    }
    assert forall|i: int| 0 <= i < h.len() + 1 && (#[trigger] h2[i]).0 == p implies h2[i].1
        == payload by {
        if i < h.len() {
            assert(h[i].0 == p);
        }
    }
    assert forall|q: Vec2| has_point(h, q) implies has_point(h2, q) by {
        let i = choose|i: int| 0 <= i < h.len() && (#[trigger] h[i]).0 == q;
        assert(h2[i].0 == q);
    }
}

/// The table of nodes of a quadtree.
type Quads<P> = Map<Id, Quad<P>>;

/// The subtree at `id` is what arises in the box `bbox` from inserting the
/// entries `h` in their order.
spec fn repr<P: IsPayload>(nodes: Quads<P>, id: Id, bbox: BBox2D, h: Seq<Node<P>>) -> bool
    decreases h.len(), 0nat,
{
    &&& nodes.contains_key(id)
    &&& nodes[id].id == id
    &&& nodes[id].bbox == bbox
    &&& forall|i: int| 0 <= i < h.len() ==> bbox.contains(&(#[trigger] h[i]).0)
    &&& if h.len() == 0 {
        nodes[id].point is None && nodes[id].children is None
    } else {
        &&& nodes[id].point == Some(h[0])
        &&& if h.len() == 1 {
            nodes[id].children is None
        } else {
            &&& nodes[id].children is Some
            &&& kids_ok(nodes, id, nodes[id].children->0, bbox, h[0].0, h.drop_first())
        }
    }
}

/// The children `c` of the node `id` are younger than it, and each is what
/// arises in its quadrant from the entries of `rest` that fall there.
spec fn kids_ok<P: IsPayload>(
    nodes: Quads<P>,
    id: Id,
    c: [Id; 4],
    bbox: BBox2D,
    pivot: Vec2,
    rest: Seq<Node<P>>,
) -> bool
    decreases rest.len(), 2nat,
{
    &&& kid_ok(nodes, id, c, bbox, pivot, rest, 0)
    &&& kid_ok(nodes, id, c, bbox, pivot, rest, 1)
    &&& kid_ok(nodes, id, c, bbox, pivot, rest, 2)
    &&& kid_ok(nodes, id, c, bbox, pivot, rest, 3)
}

/// Child `k` of the node `id` is younger than it, and is what arises in
/// quadrant `k` from the entries of `rest` that fall there.
spec fn kid_ok<P: IsPayload>(
    nodes: Quads<P>,
    id: Id,
    c: [Id; 4],
    bbox: BBox2D,
    pivot: Vec2,
    rest: Seq<Node<P>>,
    k: int,
) -> bool
    decreases rest.len(), 1nat,
{
    &&& c@[k] > id
    &&& {
        proof {
            rest.lemma_filter_len(falls_in(pivot, k));
        }
        repr(nodes, c@[k], bbox.quadrant(pivot, k), rest.filter(falls_in(pivot, k)))
    }
}

/// Every node is older than the next identity to be issued.
spec fn ids_below<P: IsPayload>(nodes: Quads<P>, issued: nat) -> bool {
    forall|i: Id| #![trigger nodes.contains_key(i)] nodes.contains_key(i) ==> i < issued
}

/// The nodes that hold a point.
spec fn filled<P: IsPayload>(nodes: Quads<P>) -> Set<Id> {
    Set::new(|i: Id| nodes.contains_key(i) && nodes[i].point is Some)
}

/// An insertion of the point `p` at the node `id` leaves alone every node
/// that is older than `id` or whose box does not hold `p`.
spec fn unchanged_outside<P: IsPayload>(nodes: Quads<P>, nodes2: Quads<P>, id: Id, p: Vec2) -> bool {
    forall|i: Id|
        #![trigger nodes.contains_key(i)]
        nodes.contains_key(i) && (i < id || !nodes[i].bbox.contains(&p)) ==> nodes2.contains_key(i)
            && nodes2[i] == nodes[i]
}

/// A subtree whose box does not hold `p` is untouched by an insertion of `p`.
proof fn lemma_repr_frame<P: IsPayload>(
    nodes: Quads<P>,
    nodes2: Quads<P>,
    id: Id,
    bbox: BBox2D,
    h: Seq<Node<P>>,
    p: Vec2,
)
    requires
        repr(nodes, id, bbox, h),
        !bbox.contains(&p),
        forall|i: Id|
            #![trigger nodes.contains_key(i)]
            nodes.contains_key(i) && !nodes[i].bbox.contains(&p) ==> nodes2.contains_key(i)
                && nodes2[i] == nodes[i],
    ensures
        repr(nodes2, id, bbox, h),
    decreases h.len(),
{
    if h.len() >= 2 {
        let c = nodes[id].children->0;
        let pivot = h[0].0;
        let rest = h.drop_first();
        assert(bbox.contains(&h[0].0));
        assert forall|k: int| 0 <= k < 4 implies kid_ok(
            nodes2,
            id,
            c,
            bbox,
            pivot,
            rest,
            k,
        ) by {
            assert(kid_ok(nodes, id, c, bbox, pivot, rest, k));
            rest.lemma_filter_len(falls_in(pivot, k));
            lemma_quadrants_partition(bbox, pivot, p, k);
            lemma_repr_frame(
                nodes,
                nodes2,
                c@[k],
                bbox.quadrant(pivot, k),
                rest.filter(falls_in(pivot, k)),
                p,
            );
        }
        assert(kid_ok(nodes2, id, c, bbox, pivot, rest, 0));
        assert(kid_ok(nodes2, id, c, bbox, pivot, rest, 1));
        assert(kid_ok(nodes2, id, c, bbox, pivot, rest, 2));
        assert(kid_ok(nodes2, id, c, bbox, pivot, rest, 3));
    }
}

/// Once child `k` has taken the entry `e`, the children describe the later
/// entries with `e` added.
proof fn lemma_kids_after_accept<P: IsPayload>(
    nodes: Quads<P>,
    nodes2: Quads<P>,
    id: Id,
    c: [Id; 4],
    bbox: BBox2D,
    pivot: Vec2,
    rest: Seq<Node<P>>,
    e: Node<P>,
    k: int,
)
    requires
        kids_ok(nodes, id, c, bbox, pivot, rest),
        bbox.contains(&pivot),
        0 <= k < 4,
        bbox.quadrant(pivot, k).contains(&e.0),
        unchanged_outside(nodes, nodes2, c@[k], e.0),
        repr(nodes2, c@[k], bbox.quadrant(pivot, k), rest.filter(falls_in(pivot, k)).push(e)),
    ensures
        kids_ok(nodes2, id, c, bbox, pivot, rest.push(e)),
{
    assert forall|j: int| 0 <= j < 4 implies kid_ok(
        nodes2,
        id,
        c,
        bbox,
        pivot,
        rest.push(e),
        j,
    ) by {
        assert(kid_ok(nodes, id, c, bbox, pivot, rest, j));
        lemma_quadrants_partition(bbox, pivot, e.0, j);
        lemma_quadrants_partition(bbox, pivot, e.0, k);
        rest.lemma_filter_push(e, falls_in(pivot, j));
        if j != k {
            lemma_repr_frame(
                nodes,
                nodes2,
                c@[j],
                bbox.quadrant(pivot, j),
                rest.filter(falls_in(pivot, j)),
                e.0,
            );
        }
    }
    assert(kid_ok(nodes2, id, c, bbox, pivot, rest.push(e), 0));
    assert(kid_ok(nodes2, id, c, bbox, pivot, rest.push(e), 1));
    assert(kid_ok(nodes2, id, c, bbox, pivot, rest.push(e), 2));
    assert(kid_ok(nodes2, id, c, bbox, pivot, rest.push(e), 3));
}

/// The first entry followed by the arranged groups of the quadrants below
/// `k`.
spec fn arranged_upto<P>(h: Seq<Node<P>>, k: int) -> Seq<Node<P>>
    decreases k,
{
    if k <= 0 {
        seq![h[0]]
    } else {
        arranged_upto(h, k - 1) + arrange(part(h, k - 1))
    }
}

/// All four groups after the first entry make the whole arrangement.
proof fn lemma_arranged_upto_all<P>(h: Seq<Node<P>>)
    requires
        h.len() > 0,
    ensures
        arranged_upto(h, 4) == arrange(h),
{
    reveal_with_fuel(arranged_upto, 5);
}

/// Copies of two runs of entries, put end to end, are copies of the runs put
/// end to end.
proof fn lemma_cloned_concat<P: Clone>(
    a: Seq<Node<P>>,
    x: Seq<Node<P>>,
    b: Seq<Node<P>>,
    y: Seq<Node<P>>,
)
    requires
        cloned_entries(a, x),
        cloned_entries(b, y),
    ensures
        cloned_entries(a + b, x + y),
{
    assert forall|i: int| 0 <= i < (a + b).len() implies (#[trigger] (x + y)[i]).0 == (a + b)[i].0
        && cloned((a + b)[i].1, (x + y)[i].1) by {
        if i < a.len() {
            assert((x + y)[i] == x[i]);
        } else {
            assert((x + y)[i] == y[i - a.len()]);
        }
    }
}

/// No entry of a subtree lies in a region that its box does not meet.
proof fn lemma_nothing_within<P: IsPayload>(
    nodes: Quads<P>,
    id: Id,
    bbox: BBox2D,
    h: Seq<Node<P>>,
    region: BBox2D,
)
    requires
        repr(nodes, id, bbox, h),
        !bbox.intersects(&region),
    ensures
        arrange(h).filter(within(region)).len() == 0,
{
    let found = arrange(h).filter(within(region));
    if found.len() > 0 {
        arrange(h).lemma_filter_pred(within(region), 0);
        assert(found.contains(found[0]));
        arrange(h).lemma_filter_contains_rev(within(region), found[0]);
        lemma_arrange_permutes(h);
        assert(h.contains(found[0]));
        let i = choose|i: int| 0 <= i < h.len() && h[i] == found[0];
        assert(bbox.contains(&h[i].0));
        lemma_common_point_intersects(bbox, region, h[i].0);
    }
}

/// A 2D point quadtree: a map from grid points to payloads that answers
/// region queries.
pub struct PointQuadtree<P: IsPayload> {
    arena: Arena<Quad<P>>,
    root_id: Id,
    size: usize,
    history: Ghost<Seq<Node<P>>>,
}

impl<P: IsPayload> View for PointQuadtree<P> {
    type V = Seq<Node<P>>;

    /// The entries that the tree holds, in the order in which they were
    /// inserted.
    closed spec fn view(&self) -> Seq<Node<P>> {
        self.history@
    }
}

impl<P: IsPayload> PointQuadtree<P> {
    /// The arena is sound and holds the tree that the entries make.
    spec fn inv(&self) -> bool {
        &&& self.arena.wf()
        &&& ids_below(self.arena.nodes(), self.arena.issued())
        &&& self.arena.nodes().contains_key(self.root_id)
        &&& repr(
            self.arena.nodes(),
            self.root_id,
            self.arena.nodes()[self.root_id].bbox,
            self.history@,
        )
    }

    /// The tree is well formed: its nodes are what the inserted entries make
    /// of the root box, no point occurs twice, and the count is exact.
    pub closed spec fn wf(&self) -> bool {
        &&& self.inv()
        &&& distinct_points(self.history@)
        &&& self.size == self.history@.len()
        &&& filled(self.arena.nodes()).finite()
        &&& self.size == filled(self.arena.nodes()).len()
    }

    /// The box that bounds the tree.
    pub closed spec fn bbox(&self) -> BBox2D {
        self.arena.nodes()[self.root_id].bbox
    }

    /// How many node identities the tree has used up.
    pub closed spec fn issued_ids(&self) -> nat {
        self.arena.issued()
    }

    /// The points of a well-formed tree are distinct and lie in its box.
    pub proof fn lemma_points(&self)
        requires
            self.wf(),
        ensures
            distinct_points(self@),
            forall|i: int| 0 <= i < self@.len() ==> self.bbox().contains(&(#[trigger] self@[i]).0),
    {
    }

    /// How many node identities the tree can still use. An insertion uses at
    /// most four.
    pub fn remaining_ids(&self) -> (n: usize)
        requires
            self.wf(),
        ensures
            n == usize::MAX - self.issued_ids(),
    {
        self.arena.remaining_ids()
    }

    /// Returns the number of points contained in this tree.
    pub fn len(&self) -> (n: usize)
        requires
            self.wf(),
        ensures
            n == self@.len(),
    {
        self.size
    }

    /// Returns a new quadtree bounded by the given box.
    pub fn new(bbox: &BBox2D) -> (tree: Self)
        ensures
            tree.wf(),
            tree.bbox() == *bbox,
            tree@ == Seq::<Node<P>>::empty(),
            tree.issued_ids() == 1,
    {
        let mut arena = Arena::new();
        let root_id = arena.get_new_id();
        let root = Quad::<P>::new(root_id, *bbox);
        arena.add_node(root).expect("could not add root node!");
        let tree = Self { arena, root_id, size: 0, history: Ghost(Seq::empty()) };
        proof {
            assert(filled(tree.arena.nodes()) =~= Set::<Id>::empty());
        }
        tree
    }

    /// Adds an empty quadrant with the given box to the arena.
    fn add_child(&mut self, bbox: BBox2D) -> (id: Id)
        requires
            old(self).arena.wf(),
            ids_below(old(self).arena.nodes(), old(self).arena.issued()),
            old(self).arena.issued() < usize::MAX,
        ensures
            final(self).arena.wf(),
            final(self).root_id == old(self).root_id,
            final(self).size == old(self).size,
            final(self).history == old(self).history,
            id == old(self).arena.issued(),
            final(self).arena.issued() == old(self).arena.issued() + 1,
            !old(self).arena.nodes().contains_key(id),
            final(self).arena.nodes() == old(self).arena.nodes().insert(
                id,
                final(self).arena.nodes()[id],
            ),
            final(self).arena.nodes()[id].id == id,
            final(self).arena.nodes()[id].bbox == bbox,
            final(self).arena.nodes()[id].point is None,
            final(self).arena.nodes()[id].children is None,
            ids_below(final(self).arena.nodes(), final(self).arena.issued()),
    {
        let new_id: Id = self.arena.get_new_id();
        let new_node = Quad::<P>::new(new_id, bbox);
        self.arena.add_node(new_node).expect("could not add node!");
        new_id
    }

    /// Attempts to insert `elem` into the subtree at `quad_id`. Hands the
    /// entry back where the subtree does not take it: where its box does not
    /// hold the point, or where it holds the point already.
    fn _insert(
        &mut self,
        elem: Node<P>,
        quad_id: &Id,
        Ghost(bbox): Ghost<BBox2D>,
        Ghost(h): Ghost<Seq<Node<P>>>,
    ) -> (back: Option<Node<P>>)
        requires
            old(self).arena.wf(),
            ids_below(old(self).arena.nodes(), old(self).arena.issued()),
            repr(old(self).arena.nodes(), *quad_id, bbox, h),
            filled(old(self).arena.nodes()).finite(),
            h.len() > 0 ==> old(self).arena.issued() + 4 <= usize::MAX,
        ensures
            final(self).arena.wf(),
            ids_below(final(self).arena.nodes(), final(self).arena.issued()),
            final(self).root_id == old(self).root_id,
            final(self).size == old(self).size,
            final(self).history == old(self).history,
            old(self).arena.issued() <= final(self).arena.issued() <= old(self).arena.issued() + 4,
            h.len() == 0 ==> final(self).arena.issued() == old(self).arena.issued(),
            unchanged_outside(old(self).arena.nodes(), final(self).arena.nodes(), *quad_id, elem.0),
            forall|i: Id|
                #![trigger old(self).arena.nodes().contains_key(i)]
                old(self).arena.nodes().contains_key(i) ==> final(self).arena.nodes().contains_key(
                    i,
                ) && final(self).arena.nodes()[i].bbox == old(self).arena.nodes()[i].bbox,
            filled(final(self).arena.nodes()).finite(),
            match back {
                None => {
                    &&& bbox.contains(&elem.0)
                    &&& !has_point(h, elem.0)
                    &&& repr(final(self).arena.nodes(), *quad_id, bbox, h.push(elem))
                    &&& filled(final(self).arena.nodes()).len() == filled(
                        old(self).arena.nodes(),
                    ).len() + 1
                },
                Some(e) => {
                    &&& e == elem
                    &&& !(bbox.contains(&elem.0) && !has_point(h, elem.0))
                    &&& final(self).arena.nodes() == old(self).arena.nodes()
                    &&& final(self).arena.issued() == old(self).arena.issued()
                },
            },
        decreases h.len(),
    {
        let ghost nodes0 = self.arena.nodes();
        let quad = self.arena.get_node(quad_id).expect("could not find node");
        if !quad.bbox.contains(&elem.0) {
            return Some(elem);
        }
        if quad.point.is_none() {
            let mut quad = self.arena.take_node(quad_id).expect("could not find node");
            quad.point = Some(elem);
            self.arena.add_node(quad).expect("could not add node!");
            proof {
                assert(self.arena.nodes().dom() =~= nodes0.dom());
                assert(h.push(elem).len() == 1);
                assert(filled(self.arena.nodes()) =~= filled(nodes0).insert(*quad_id));
            }
            return None;
        }
        let pivot = quad.point.as_ref().unwrap().0;
        if pivot == elem.0 {
            return Some(elem);
        }
        let quad_box = quad.bbox;
        let ghost rest = h.drop_first();
        let children: [Id; 4] = match quad.children {
            Some(children) => children,
            None => {
                // Subdivide around the point that lives here.
                let boxes = quad_box.subdivide(&pivot);
                let sw = self.add_child(boxes[0]);
                let se = self.add_child(boxes[1]);
                let ne = self.add_child(boxes[2]);
                let nw = self.add_child(boxes[3]);
                let children = [sw, se, ne, nw];
                let mut quad = self.arena.take_node(quad_id).expect("could not find node");
                quad.children = Some(children);
                self.arena.add_node(quad).expect("could not add node!");
                proof {
                    let nodes1 = self.arena.nodes();
                    assert(rest.len() == 0);
                    assert(nodes0.contains_key(*quad_id));
                    assert(sw != *quad_id && se != *quad_id && ne != *quad_id && nw != *quad_id);
                    assert(sw < se < ne < nw);
                    assert(nodes1.dom() =~= nodes0.dom().insert(sw).insert(se).insert(ne).insert(nw));
                    assert forall|i: Id|
                        #![trigger nodes0.contains_key(i)]
                        nodes0.contains_key(i) implies nodes1.contains_key(i) && nodes1[i].bbox
                        == nodes0[i].bbox && nodes1[i].point == nodes0[i].point && (i != *quad_id
                        ==> nodes1[i] == nodes0[i]) by {
                        assert(i != sw && i != se && i != ne && i != nw);
                    }
                    assert(children@[0] == sw && children@[1] == se && children@[2] == ne
                        && children@[3] == nw);
                    assert forall|k: int| 0 <= k < 4 implies kid_ok(
                        nodes1,
                        *quad_id,
                        children,
                        bbox,
                        pivot,
                        rest,
                        k,
                    ) by {
                        rest.lemma_filter_len(falls_in(pivot, k));
                        let id = children@[k];
                        assert(nodes1.contains_key(id));
                        assert(nodes1[id].id == id);
                        assert(nodes1[id].bbox == boxes@[k]);
                        assert(nodes1[id].point is None);
                        assert(nodes1[id].children is None);
                        assert(rest.filter(falls_in(pivot, k)).len() == 0);
                    }
                    assert(kid_ok(nodes1, *quad_id, children, bbox, pivot, rest, 0));
                    assert(kid_ok(nodes1, *quad_id, children, bbox, pivot, rest, 1));
                    assert(kid_ok(nodes1, *quad_id, children, bbox, pivot, rest, 2));
                    assert(kid_ok(nodes1, *quad_id, children, bbox, pivot, rest, 3));
                    assert(filled(nodes1) =~= filled(nodes0)) by {
                        assert forall|i: Id| filled(nodes1).contains(i) implies filled(
                            nodes0,
                        ).contains(i) by {
                            if !nodes0.contains_key(i) {
                                assert(i == sw || i == se || i == ne || i == nw);
                            }
                        }
                    }
                }
                children
            },
        };
        let ghost nodes1 = self.arena.nodes();
        let ghost issued1 = self.arena.issued();
        proof {
            assert(bbox.contains(&h[0].0));
            assert(kids_ok(nodes1, *quad_id, children, bbox, pivot, rest));
            assert(filled(nodes1) == filled(nodes0));
        }
        // Then try to insert the point into any of our children.
        let mut cur = elem;
        let mut k: usize = 0;
        while k < 4
            invariant
                k <= 4,
                cur == elem,
                self.arena.wf(),
                self.arena.nodes() == nodes1,
                self.arena.issued() == issued1,
                ids_below(nodes1, issued1),
                filled(nodes1).finite(),
                self.root_id == old(self).root_id,
                self.size == old(self).size,
                self.history == old(self).history,
                kids_ok(nodes1, *quad_id, children, bbox, pivot, rest),
                nodes0 == old(self).arena.nodes(),
                unchanged_outside(nodes0, nodes1, *quad_id, elem.0),
                forall|i: Id|
                    #![trigger nodes0.contains_key(i)]
                    nodes0.contains_key(i) ==> nodes1.contains_key(i) && nodes1[i].bbox
                        == nodes0[i].bbox,
                filled(nodes1) == filled(nodes0),
                nodes1.contains_key(*quad_id),
                nodes1[*quad_id].id == *quad_id,
                nodes1[*quad_id].bbox == bbox,
                nodes1[*quad_id].point == Some(h[0]),
                nodes1[*quad_id].children == Some(children),
                forall|i: int| 0 <= i < h.len() ==> bbox.contains(&(#[trigger] h[i]).0),
                h.len() >= 1,
                rest == h.drop_first(),
                pivot == h[0].0,
                pivot != elem.0,
                bbox.contains(&pivot),
                bbox.contains(&elem.0),
                rest.len() > 0 ==> issued1 + 4 <= usize::MAX,
                rest.len() > 0 ==> issued1 == old(self).arena.issued(),
                old(self).arena.issued() <= issued1 <= old(self).arena.issued() + 4,
                forall|j: int|
                    0 <= j < k ==> !(bbox.quadrant(pivot, j).contains(&elem.0) && !has_point(
                        #[trigger] rest.filter(falls_in(pivot, j)),
                        elem.0,
                    )),
            decreases 4 - k,
        {
            proof {
                assert(kid_ok(nodes1, *quad_id, children, bbox, pivot, rest, k as int));
                rest.lemma_filter_len(falls_in(pivot, k as int));
            }
            let child = children[k];
            match self._insert(
                cur,
                &child,
                Ghost(bbox.quadrant(pivot, k as int)),
                Ghost(rest.filter(falls_in(pivot, k as int))),
            ) {
                None => {
                    proof {
                        lemma_kids_after_accept(
                            nodes1,
                            self.arena.nodes(),
                            *quad_id,
                            children,
                            bbox,
                            pivot,
                            rest,
                            elem,
                            k as int,
                        );
                        lemma_group_has_point(rest, pivot, elem.0, k as int);
                        lemma_quadrants_partition(bbox, pivot, elem.0, k as int);
                        assert(h.push(elem).drop_first() == rest.push(elem));
                        assert(!has_point(h, elem.0)) by {
                            if has_point(h, elem.0) {
                                let i = choose|i: int|
                                    0 <= i < h.len() && (#[trigger] h[i]).0 == elem.0;
                                assert(rest[i - 1] == h[i]);
                            }
                        }
                    }
                    return None;
                },
                Some(returned) => {
                    cur = returned;
                },
            }
            k = k + 1;
        }
        proof {
            // Some quadrant holds the point, so the point is known below.
            let q = quadrant_of(pivot, elem.0);
            lemma_quadrants_partition(bbox, pivot, elem.0, q);
            lemma_group_has_point(rest, pivot, elem.0, q);
            assert(has_point(rest.filter(falls_in(pivot, q)), elem.0));
            let i = choose|i: int| 0 <= i < rest.len() && (#[trigger] rest[i]).0 == elem.0;
            assert(h[i + 1] == rest[i]);
            assert(has_point(h, elem.0));
        }
        Some(cur)
    }

    /// Attempts to insert the point with its payload. Returns false, and
    /// changes nothing, if the point lies outside the box of the tree or is
    /// already in the tree.
    pub fn insert(&mut self, point: &Vec2, payload: P) -> (inserted: bool)
        requires
            old(self).wf(),
            old(self).issued_ids() + 4 <= usize::MAX,
        ensures
            final(self).wf(),
            final(self).bbox() == old(self).bbox(),
            old(self).issued_ids() <= final(self).issued_ids() <= old(self).issued_ids() + 4,
            inserted == (old(self).bbox().contains(point) && !has_point(old(self)@, *point)),
            inserted ==> final(self)@ == old(self)@.push((*point, payload)),
            !inserted ==> final(self)@ == old(self)@ && final(self).issued_ids() == old(
                self,
            ).issued_ids(),
    {
        let root = self.root_id;
        let ghost h = self.history@;
        let ghost root_box = self.bbox();
        match self._insert((*point, payload), &root, Ghost(root_box), Ghost(h)) {
            None => {
                proof {
                    self.history@ = h.push((*point, payload));
                    lemma_filled_bounded(self.arena.nodes(), self.arena.issued());
                    self.arena.lemma_issued_in_range();
                    assert forall|i: int, j: int|
                        #![trigger self.history@[i], self.history@[j]]
                        0 <= i < j < self.history@.len() implies self.history@[i].0
                        != self.history@[j].0 by {
                        if j == h.len() {
                            assert(h[i].0 != *point);
                        }
                    }
                }
                self.size = self.size + 1;
                true
            },
            Some(_) => false,
        }
    }

    /// Looks the point up in the subtree at `quad_id`.
    fn _find(
        &self,
        p: &Vec2,
        quad_id: &Id,
        Ghost(bbox): Ghost<BBox2D>,
        Ghost(h): Ghost<Seq<Node<P>>>,
    ) -> (r: Option<Node<P>>)
        requires
            self.arena.wf(),
            repr(self.arena.nodes(), *quad_id, bbox, h),
        ensures
            match r {
                Some(e) => e.0 == *p && exists|i: int|
                    0 <= i < h.len() && (#[trigger] h[i]).0 == *p && cloned(h[i].1, e.1),
                None => !has_point(h, *p),
            },
        decreases h.len(),
    {
        let quad = self.arena.get_node(quad_id).expect("could not find node");
        // If the box itself doesn't contain the point, then the point cannot
        // be in this node or in any subtree of this node.
        if !quad.bbox.contains(p) {
            return None;
        }
        match &quad.point {
            None => None,
            Some(point) => {
                if point.0 == *p {
                    Some((point.0, point.1.clone()))
                } else {
                    match &quad.children {
                        None => {
                            assert(h.len() == 1);
                            None
                        },
                        Some(children) => {
                            let ghost pivot = h[0].0;
                            let ghost rest = h.drop_first();
                            let mut k: usize = 0;
                            while k < 4
                                invariant
                                    k <= 4,
                                    self.arena.wf(),
                                    h.len() >= 2,
                                    pivot == h[0].0,
                                    rest == h.drop_first(),
                                    kids_ok(
                                        self.arena.nodes(),
                                        *quad_id,
                                        *children,
                                        bbox,
                                        pivot,
                                        rest,
                                    ),
                                    forall|j: int|
                                        0 <= j < k ==> !has_point(
                                            #[trigger] rest.filter(falls_in(pivot, j)),
                                            *p,
                                        ),
                                decreases 4 - k,
                            {
                                proof {
                                    assert(kid_ok(
                                        self.arena.nodes(),
                                        *quad_id,
                                        *children,
                                        bbox,
                                        pivot,
                                        rest,
                                        k as int,
                                    ));
                                    rest.lemma_filter_len(falls_in(pivot, k as int));
                                }
                                if let Some(result) = self._find(
                                    p,
                                    &children[k],
                                    Ghost(bbox.quadrant(pivot, k as int)),
                                    Ghost(rest.filter(falls_in(pivot, k as int))),
                                ) {
                                    proof {
                                        let group = rest.filter(falls_in(pivot, k as int));
                                        let i = choose|i: int|
                                            0 <= i < group.len() && (#[trigger] group[i]).0 == *p
                                                && cloned(group[i].1, result.1);
                                        assert(group.contains(group[i]));
                                        rest.lemma_filter_contains_rev(
                                            falls_in(pivot, k as int),
                                            group[i],
                                        );
                                        let j = choose|j: int|
                                            0 <= j < rest.len() && rest[j] == group[i];
                                        assert(h[j + 1] == rest[j]);
                                    }
                                    return Some(result);
                                }
                                k = k + 1;
                            }
                            proof {
                                if has_point(h, *p) {
                                    let i = choose|i: int|
                                        0 <= i < h.len() && (#[trigger] h[i]).0 == *p;
                                    assert(rest[i - 1] == h[i]);
                                    assert(has_point(rest, *p));
                                    lemma_group_has_point(rest, pivot, *p, quadrant_of(pivot, *p));
                                }
                            }
                            None
                        },
                    }
                }
            },
        }
    }

    /// Searches the tree for the given point: returns it with a copy of its
    /// payload, or nothing where the point is not in the tree.
    pub fn find(&self, p: &Vec2) -> (r: Option<Node<P>>)
        requires
            self.wf(),
        ensures
            match r {
                Some(e) => e.0 == *p && exists|i: int|
                    0 <= i < self@.len() && (#[trigger] self@[i]).0 == *p && cloned(
                        self@[i].1,
                        e.1,
                    ),
                None => !has_point(self@, *p),
            },
    {
        let r = self._find(p, &self.root_id, Ghost(self.bbox()), Ghost(self.history@));
        proof {
            if r is Some {
                let e = r->0;
                let i = choose|i: int|
                    0 <= i < self.history@.len() && (#[trigger] self.history@[i]).0 == *p && cloned(
                        self.history@[i].1,
                        e.1,
                    );
                assert(self@[i].0 == *p && cloned(self@[i].1, e.1));
            }
        }
        r
    }

    /// Collects the entries of the subtree at `quad_id` that lie in `bbox`.
    fn _find_within(
        &self,
        bbox: &BBox2D,
        quad_id: &Id,
        Ghost(quad_box): Ghost<BBox2D>,
        Ghost(h): Ghost<Seq<Node<P>>>,
    ) -> (result: Vec<Node<P>>)
        requires
            self.arena.wf(),
            repr(self.arena.nodes(), *quad_id, quad_box, h),
        ensures
            cloned_entries(arrange(h).filter(within(*bbox)), result@),
        decreases h.len(),
    {
        broadcast use Seq::filter_distributes_over_add;

        let quad = self.arena.get_node(quad_id).expect("could not find node");
        if !quad.bbox.intersects(bbox) {
            proof {
                lemma_nothing_within(self.arena.nodes(), *quad_id, quad_box, h, *bbox);
            }
            return Vec::new();
        }
        let mut result: Vec<Node<P>> = Vec::new();
        match &quad.point {
            None => {
                proof {
                    arrange(h).lemma_filter_len(within(*bbox));
                }
                return result;
            },
            Some(node) => {
                proof {
                    Seq::<Node<P>>::empty().lemma_filter_push(h[0], within(*bbox));
                    Seq::<Node<P>>::empty().lemma_filter_len(within(*bbox));
                    assert(seq![h[0]] == Seq::<Node<P>>::empty().push(h[0]));
                }
                if bbox.contains(&node.0) {
                    result.push((node.0, node.1.clone()));
                }
            },
        }
        proof {
            lemma_arranged_upto_all(h);
        }
        match &quad.children {
            None => {
                proof {
                    reveal_with_fuel(arranged_upto, 5);
                    assert forall|k: int| 0 <= k < 4 implies (#[trigger] arrange(part(h, k))).len()
                        == 0 by {
                        h.drop_first().lemma_filter_len(falls_in(h[0].0, k));
                    }
                    assert(arrange(h) == seq![h[0]]);
                }
            },
            Some(children) => {
                let ghost pivot = h[0].0;
                let ghost rest = h.drop_first();
                let mut k: usize = 0;
                while k < 4
                    invariant
                        k <= 4,
                        self.arena.wf(),
                        h.len() >= 2,
                        pivot == h[0].0,
                        rest == h.drop_first(),
                        kids_ok(self.arena.nodes(), *quad_id, *children, quad_box, pivot, rest),
                        cloned_entries(
                            arranged_upto(h, k as int).filter(within(*bbox)),
                            result@,
                        ),
                    decreases 4 - k,
                {
                    proof {
                        assert(kid_ok(
                            self.arena.nodes(),
                            *quad_id,
                            *children,
                            quad_box,
                            pivot,
                            rest,
                            k as int,
                        ));
                        rest.lemma_filter_len(falls_in(pivot, k as int));
                    }
                    let ghost before = result@;
                    let mut found = self._find_within(
                        bbox,
                        &children[k],
                        Ghost(quad_box.quadrant(pivot, k as int)),
                        Ghost(rest.filter(falls_in(pivot, k as int))),
                    );
                    let ghost added = found@;
                    result.append(&mut found);
                    proof {
                        lemma_cloned_concat(
                            arranged_upto(h, k as int).filter(within(*bbox)),
                            before,
                            arrange(part(h, k as int)).filter(within(*bbox)),
                            added,
                        );
                    }
                    k = k + 1;
                }
            },
        }
        result
    }

    /// Returns copies of all entries whose point lies within the given box,
    /// in the order in which the tree arranges its entries.
    pub fn find_within(&self, bbox: &BBox2D) -> (result: Vec<Node<P>>)
        requires
            self.wf(),
        ensures
            cloned_entries(arrange(self@).filter(within(*bbox)), result@),
    {
        self._find_within(bbox, &self.root_id, Ghost(self.bbox()), Ghost(self.history@))
    }
}

/// The nodes that hold a point are finitely many, and no more than the
/// identities issued.
proof fn lemma_filled_bounded<P: IsPayload>(nodes: Quads<P>, issued: nat)
    requires
        ids_below(nodes, issued),
    ensures
        filled(nodes).finite(),
        filled(nodes).len() <= issued,
{
    let ids = Map::<Id, Id>::new(|i: Id| filled(nodes).contains(i), |i: Id| i);
    lemma_ids_bounded(ids, issued);
    assert(ids.dom() =~= filled(nodes));
}

/// A set of identities below `n`, given as a map of each to itself, has at
/// most `n` members.
proof fn lemma_ids_bounded(ids: Map<Id, Id>, n: nat)
    requires
        forall|i: Id| #![trigger ids.contains_key(i)] ids.contains_key(i) ==> ids[i] == i && i < n,
    ensures
        ids.dom().finite(),
        ids.dom().len() <= n,
    decreases n,
{
    if n == 0 {
        assert(ids.dom() =~= Set::<Id>::empty());
    } else {
        let top = (n - 1) as Id;
        let rest = ids.remove(top);
        assert forall|i: Id| #![trigger rest.contains_key(i)] rest.contains_key(i) implies rest[i]
            == i && i < n - 1 by {
            assert(ids.contains_key(i));
        }
        lemma_ids_bounded(rest, (n - 1) as nat);
        if ids.contains_key(top) {
            assert(ids.dom() =~= rest.dom().insert(top));
        } else {
            assert(ids.dom() =~= rest.dom());
        }
    }
}

} // verus!
