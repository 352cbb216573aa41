//! The spatial index over the bounding boxes of the source lines.

use vstd::prelude::*;
use vstd::seq_lib::{to_multiset_contains, to_multiset_len};
use crate::geometry::{buffer_aabb, lemma_envelope_of, Envelope, Line};

verus! {

/// One entry of the tree: a box and the position of the line it bounds.
#[derive(Clone, Copy, Debug)]
pub struct Entry {
    pub envelope: Envelope,
    pub position: usize,
}

/// An R-tree of boxes, each with a position: an `rstar::RTree` of
/// `GeomWithData<Rectangle<[i64; 2]>, usize>`. It is built once and then
/// only searched. Nothing is known of it but what `tree_entries` names.
#[verifier::external_body]
pub struct BoxTree {
    tree: rstar::RTree<
        rstar::primitives::GeomWithData<rstar::primitives::Rectangle<[i64; 2]>, usize>,
    >,
}

/// The entries of a tree, in the order in which a walk over the whole tree
/// (`RTree::iter`) meets them.
pub uninterp spec fn tree_entries(tree: BoxTree) -> Seq<Entry>;

/// `RTree::bulk_load` on one `GeomWithData` of a `Rectangle` per entry.
/// Believed, not proved: the tree holds the given entries, each as often as
/// it was given, and nothing else; their order in the tree is the tree's
/// own. The boxes must be well formed, since `Rectangle::from_corners` puts
/// the corners in order and would not keep another box as it was given.
#[verifier::external_body]
fn tree_bulk_load(entries: &Vec<Entry>) -> (tree: BoxTree)
    requires
        forall|i: int| 0 <= i < entries@.len() ==> (#[trigger] entries@[i]).envelope.wf(),
    ensures
        tree_entries(tree).to_multiset() == entries@.to_multiset(),
{
    let items = entries.iter().map(
        |e| rstar::primitives::GeomWithData::new(
            rstar::primitives::Rectangle::from_corners(
                [e.envelope.min_x, e.envelope.min_y],
                [e.envelope.max_x, e.envelope.max_y],
            ),
            e.position,
        ),
    ).collect();
    BoxTree { tree: rstar::RTree::bulk_load(items) }
}

/// `RTree::locate_in_envelope_intersecting` on an `AABB` of the query's
/// corners. Believed, not proved: it walks the tree as `RTree::iter` does,
/// but leaves out the subtrees and the entries whose box does not intersect
/// the query, so that it yields the entries whose box intersects the query
/// in the order of `tree_entries`; the result holds their positions in that
/// order. The query must be well formed, since `AABB::from_corners` puts the
/// corners in order.
#[verifier::external_body]
fn tree_locate(tree: &BoxTree, query: &Envelope) -> (r: Vec<usize>)
    requires
        query.wf(),
    ensures
        r@ == tree_entries(*tree).filter(|e: Entry| e.envelope.intersects(*query)).map_values(
            |e: Entry| e.position,
        ),
{
    let aabb = rstar::AABB::from_corners(
        [query.min_x, query.min_y],
        [query.max_x, query.max_y],
    );
    tree.tree.locate_in_envelope_intersecting(&aabb).map(|item| item.data).collect()
}

/// Filtering before a mapping is filtering after it, where the two tests
/// agree on every element.
proof fn lemma_filter_then_map<A, B>(
    s: Seq<A>,
    keep: spec_fn(A) -> bool,
    f: spec_fn(A) -> B,
    keep_mapped: spec_fn(B) -> bool,
)
    requires
        forall|i: int| 0 <= i < s.len() ==> keep(#[trigger] s[i]) == keep_mapped(f(s[i])),
    ensures
        s.filter(keep).map_values(f) == s.map_values(f).filter(keep_mapped),
    decreases s.len(),
{
    reveal(Seq::filter);
    if s.len() > 0 {
        let front = s.drop_last();
        assert forall|i: int| 0 <= i < front.len() implies keep(#[trigger] front[i])
            == keep_mapped(f(front[i])) by {
            assert(front[i] == s[i]);
        }
        lemma_filter_then_map(front, keep, f, keep_mapped);
        assert(s.map_values(f).drop_last() == front.map_values(f));
        assert(s.map_values(f).last() == f(s.last()));
        if keep(s.last()) {
            assert(front.filter(keep).push(s.last()).map_values(f) == front.filter(
                keep,
            ).map_values(f).push(f(s.last())));
        }
    } else {
        assert(s.filter(keep).map_values(f) == s.map_values(f).filter(keep_mapped));
    }
}

/// The source lines, each with its identifier, and the tree over their boxes.
pub struct SpatialIndex<T: Copy> {
    sources: Vec<(T, Line)>,
    tree: BoxTree,
}

impl<T: Copy> View for SpatialIndex<T> {
    type V = Seq<(T, Line)>;

    /// The sources, in the order in which they were given.
    closed spec fn view(&self) -> Seq<(T, Line)> {
        self.sources@
    }
}

impl<T: Copy> SpatialIndex<T> {
    /// The positions of the sources, in the order in which a search meets
    /// them.
    pub closed spec fn order(&self) -> Seq<usize> {
        tree_entries(self.tree).map_values(|e: Entry| e.position)
    }

    /// The tree holds one entry per source: the box around the source's line,
    /// with the source's position. Every index is made so and stays so.
    #[verifier::type_invariant]
    pub closed spec fn wf(&self) -> bool {
        let entries = tree_entries(self.tree);
        &&& entries.len() == self@.len()
        &&& forall|k: int|
            0 <= k < entries.len() ==> {
                &&& (#[trigger] entries[k]).position < self@.len()
                &&& self@[entries[k].position as int].1@.len() >= 2
                &&& entries[k].envelope == self@[entries[k].position as int].1.bounds()
            }
        &&& forall|k: int, l: int|
            0 <= k < l < entries.len() ==> (#[trigger] entries[k]).position
                != (#[trigger] entries[l]).position
        &&& forall|p: usize| p < self@.len() ==> #[trigger] self.order().contains(p)
    }

    /// Whether the box around the line at a position intersects the query.
    pub open spec fn hits(&self, query: Envelope) -> spec_fn(usize) -> bool {
        |p: usize| self@[p as int].1.bounds().intersects(query)
    }

    /// The positions of the sources whose box intersects the query, in the
    /// order in which a search meets them.
    pub open spec fn candidates(&self, query: Envelope) -> Seq<usize> {
        self.order().filter(self.hits(query))
    }

    /// Every position below the number of sources is met once by a search
    /// of everything, and nothing else is met.
    pub proof fn lemma_order(&self)
        requires
            self.wf(),
        ensures
            self.order().len() == self@.len(),
            self.order().no_duplicates(),
            forall|k: int| 0 <= k < self.order().len() ==> (#[trigger] self.order()[k]) < self@.len(),
            forall|p: usize| p < self@.len() ==> #[trigger] self.order().contains(p),
    {
        let entries = tree_entries(self.tree);
        assert forall|k: int, l: int| 0 <= k < l < self.order().len() implies self.order()[k]
            != self.order()[l] by {
            assert(entries[k].position != entries[l].position);
        }
    }

    /// A search yields exactly the positions of the sources whose box
    /// intersects the query, each once.
    pub proof fn lemma_candidates(&self, query: Envelope)
        requires
            self.wf(),
        ensures
            self.candidates(query).no_duplicates(),
            forall|p: usize|
                #![trigger self.candidates(query).contains(p)]
                self.candidates(query).contains(p) <==> p < self@.len() && self@[p as int].1.bounds().intersects(
                    query,
                ),
    {
        self.lemma_order();
        let keep = self.hits(query);
        let order = self.order();
        lemma_filter_no_duplicates(order, keep);
        assert forall|p: usize| #![trigger self.candidates(query).contains(p)]
            self.candidates(query).contains(p) <==> p < self@.len() && self@[p as int].1.bounds().intersects(
                query,
            ) by {
            if order.filter(keep).contains(p) {
                order.lemma_filter_contains_rev(keep, p);
                let j = choose|j: int| 0 <= j < order.filter(keep).len() && order.filter(keep)[j] == p;
                order.lemma_filter_pred(keep, j);
            }
            if p < self@.len() && keep(p) {
                assert(order.contains(p));
                let k = choose|k: int| 0 <= k < order.len() && order[k] == p;
                order.lemma_filter_contains(keep, k);
            }
        }
    }

    /// A larger buffer loses no candidate: every source that is considered
    /// for a target under a buffer is considered under any larger one.
    pub proof fn lemma_buffer_monotonic(&self, target: Line, smaller: u32, larger: u32, p: usize)
        requires
            self.wf(),
            target@.len() >= 2,
            smaller <= larger,
            self.candidates(target.bounds().buffered(smaller as nat)).contains(p),
        ensures
            self.candidates(target.bounds().buffered(larger as nat)).contains(p),
    {
        lemma_envelope_of(target@);
        self.lemma_candidates(target.bounds().buffered(smaller as nat));
        self.lemma_candidates(target.bounds().buffered(larger as nat));
    }

    /// A line is a candidate for itself: a source is among those considered
    /// for a target with the same points, whatever the buffer.
    pub proof fn lemma_own_candidate(&self, target: Line, buffer: u32, p: usize)
        requires
            self.wf(),
            p < self@.len(),
            target@ == self@[p as int].1@,
        ensures
            self.candidates(target.bounds().buffered(buffer as nat)).contains(p),
    {
        self.lemma_order();
        let k = choose|k: int| 0 <= k < self.order().len() && self.order()[k] == p;
        assert(self.order().contains(p));
        assert(tree_entries(self.tree)[k].position == p);
        lemma_envelope_of(target@);
        self.lemma_candidates(target.bounds().buffered(buffer as nat));
    }

    /// Builds the index over the given sources.
    pub fn bulk_load(sources: Vec<(T, Line)>) -> (r: SpatialIndex<T>)
        ensures
            r.wf(),
            r@ == sources@,
    {
        let mut entries: Vec<Entry> = Vec::new();
        let mut i: usize = 0;
        while i < sources.len()
            invariant
                i <= sources@.len(),
                entries@.len() == i,
                forall|j: int|
                    0 <= j < i ==> {
                        &&& (#[trigger] entries@[j]).position == j
                        &&& entries@[j].envelope == sources@[j].1.bounds()
                        &&& entries@[j].envelope.wf()
                        &&& sources@[j].1@.len() >= 2
                    },
            decreases sources@.len() - i,
        {
            let envelope = sources[i].1.envelope();
            entries.push(Entry { envelope, position: i });
            i = i + 1;
        }
        let tree = tree_bulk_load(&entries);
        proof {
            let held = tree_entries(tree);
            let given = entries@;
            let order = held.map_values(|e: Entry| e.position);
            to_multiset_len(held);
            to_multiset_len(given);
            assert forall|k: int| 0 <= k < held.len() implies {
                &&& (#[trigger] held[k]).position < sources@.len()
                &&& sources@[held[k].position as int].1@.len() >= 2
                &&& held[k].envelope == sources@[held[k].position as int].1.bounds()
            } by {
                assert(held.contains(held[k]));
                to_multiset_contains(held, held[k]);
                to_multiset_contains(given, held[k]);
                let j = choose|j: int| 0 <= j < given.len() && given[j] == held[k];
                assert(given[j].position == j);
            }
            assert(given.no_duplicates());
            given.lemma_multiset_has_no_duplicates();
            held.lemma_multiset_has_no_duplicates_conv();
            assert forall|p: usize| p < sources@.len() implies #[trigger] order.contains(p) by {
                assert(given.contains(given[p as int]));
                to_multiset_contains(given, given[p as int]);
                to_multiset_contains(held, given[p as int]);
                let k = choose|k: int| 0 <= k < held.len() && held[k] == given[p as int];
                assert(order[k] == p);
            }
            assert forall|k: int, l: int| 0 <= k < l < held.len() implies (#[trigger] held[k]).position
                != (#[trigger] held[l]).position by {
                if held[k].position == held[l].position {
                    assert(held[k] == held[l]);
                }
            }
        }
        SpatialIndex { sources, tree }
    }

    /// The number of sources.
    pub fn size(&self) -> (r: usize)
        ensures
            self.wf(),
            r == self@.len(),
    {
        proof {
            use_type_invariant(self);
        }
        self.sources.len()
    }

    /// The identifier of the source at a position.
    pub fn id(&self, position: usize) -> (r: T)
        requires
            position < self@.len(),
        ensures
            r == self@[position as int].0,
    {
        self.sources[position].0
    }

    /// The line of the source at a position.
    pub fn line(&self, position: usize) -> (r: &Line)
        requires
            position < self@.len(),
        ensures
            *r == self@[position as int].1,
    {
        &self.sources[position].1
    }

    /// The positions of the sources whose box intersects the query.
    pub fn locate(&self, query: &Envelope) -> (r: Vec<usize>)
        requires
            query.wf(),
        ensures
            self.wf(),
            r@ == self.candidates(*query),
            forall|j: int| 0 <= j < r@.len() ==> (#[trigger] r@[j]) < self@.len(),
    {
        let r = tree_locate(&self.tree, query);
        proof {
            use_type_invariant(self);
            let entries = tree_entries(self.tree);
            let keep = |e: Entry| e.envelope.intersects(*query);
            let position = |e: Entry| e.position;
            lemma_filter_then_map(entries, keep, position, self.hits(*query));
            self.lemma_candidates(*query);
            assert forall|j: int| 0 <= j < r@.len() implies (#[trigger] r@[j]) < self@.len() by {
                assert(self.candidates(*query).contains(r@[j]));
            }
        }
        r
    }

    /// The positions of the sources to consider for a target: those whose
    /// box intersects the box around the target, grown by `buffer` on all
    /// four sides.
    pub fn candidates_for(&self, target: &Line, buffer: u32) -> (r: Vec<usize>)
        ensures
            self.wf(),
            r@ == self.candidates(target.bounds().buffered(buffer as nat)),
            forall|j: int| 0 <= j < r@.len() ==> (#[trigger] r@[j]) < self@.len(),
    {
        let query = buffer_aabb(target.envelope(), buffer);
        self.locate(&query)
    }
}

/// What is left of a sequence without duplicates has none.
proof fn lemma_filter_no_duplicates<A>(s: Seq<A>, keep: spec_fn(A) -> bool)
    requires
        s.no_duplicates(),
    ensures
        s.filter(keep).no_duplicates(),
    decreases s.len(),
{
    reveal(Seq::filter);
    if s.len() > 0 {
        let front = s.drop_last();
        lemma_filter_no_duplicates(front, keep);
        if keep(s.last()) {
            let kept = front.filter(keep);
            if kept.contains(s.last()) {
                front.lemma_filter_contains_rev(keep, s.last());
                let j = choose|j: int| 0 <= j < front.len() && front[j] == s.last();
                assert(s[j] == s[s.len() - 1]);
            }
        }
    }
}

} // verus!
