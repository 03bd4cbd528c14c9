//! Live collections: views over the descendants of a root that match a
//! filter, recomputed from the tree on every read.
use vstd::prelude::*;
use crate::document::{
    DocModel, Document, NodeId, Window, lemma_appended, lemma_appended_fresh, lemma_detached,
    lemma_detached_descendants, lemma_position_of,
};
use crate::eventtarget::EventTarget;
use crate::forest::lemma_subtree_end;
use crate::typeid::{EventTargetTypeId, HTMLElementTypeId, html_path, is_element_path};

verus! {

broadcast use vstd::seq_lib::group_filter_ensures;

/// The predicates a collection can select its members with.
#[derive(Clone, Copy, Debug, PartialEq, Eq, Structural)]
pub enum CollectionFilter {
    /// HTML elements of one kind.
    HTMLKind(HTMLElementTypeId),
    /// Every element.
    Elements,
}

impl CollectionFilter {
    /// Whether a candidate with path `tag` belongs to a collection rooted at
    /// `root`. No filter of this catalog looks at the root yet.
    pub open spec fn spec_filter(self, tag: EventTargetTypeId, root: NodeId) -> bool {
        match self {
            CollectionFilter::HTMLKind(k) => tag == html_path(k),
            CollectionFilter::Elements => is_element_path(tag),
        }
    }

    /// Whether `elem` belongs to a collection rooted at `root`.
    pub fn filter(&self, elem: &EventTarget, root: NodeId) -> (r: bool)
        ensures
            r == self.spec_filter(elem@, root),
    {
        match self {
            CollectionFilter::HTMLKind(k) => elem.type_id().is_html_kind(*k),
            CollectionFilter::Elements => elem.type_id().is_element(),
        }
    }
}

/// The members of a collection over `root` with filter `f` in document `d`:
/// the descendants of `root` that `f` selects, in document order.
pub open spec fn collected(d: DocModel, root: NodeId, f: CollectionFilter) -> Seq<NodeId> {
    d.descendants(root).filter(selects(d, root, f))
}

/// The predicate `f` applies to the nodes of `d` for a collection over
/// `root`.
pub open spec fn selects(d: DocModel, root: NodeId, f: CollectionFilter) -> spec_fn(NodeId) -> bool {
    |id: NodeId| f.spec_filter(d.tags[id as int], root)
}

/// A live view of the descendants of `root` that `filter` selects. It holds
/// no members: every read walks the tree as it is at that moment.
#[derive(Clone, Copy, Debug)]
pub struct HTMLCollection {
    pub window: Window,
    pub root: NodeId,
    pub filter: CollectionFilter,
}

impl HTMLCollection {
    /// A collection over `root`; nothing is walked yet.
    pub fn create(window: Window, root: NodeId, filter: CollectionFilter) -> (r: HTMLCollection)
        ensures
            r.window == window,
            r.root == root,
            r.filter == filter,
    {
        HTMLCollection { window, root, filter }
    }

    /// The members of this collection in document `d`.
    pub open spec fn items(&self, d: DocModel) -> Seq<NodeId> {
        collected(d, self.root, self.filter)
    }

    /// The members, in document order, as the tree of `document` stands now.
    pub fn elements(&self, document: &Document) -> (r: Vec<NodeId>)
        requires
            document.wf(),
        ensures
            r@ == self.items(document@),
    {
        let ghost d = document@;
        let ghost pred = |id: NodeId| self.filter.spec_filter(d.tags[id as int], self.root);
        let all = document.traverse_preorder(self.root);
        proof {
            lemma_descendants_in_document(d, self.root);
        }
        let mut out: Vec<NodeId> = Vec::new();
        let mut i: usize = 0;
        while i < all.len()
            invariant
                document.wf(),
                d == document@,
                pred == (|id: NodeId| self.filter.spec_filter(d.tags[id as int], self.root)),
                all@ == d.descendants(self.root),
                forall|k: int| 0 <= k < all@.len() ==> d.has(#[trigger] all@[k]),
                i <= all@.len(),
                out@ == all@.subrange(0, i as int).filter(pred),
            decreases all.len() - i,
        {
            let id: NodeId = all[i];
            assert(all@.subrange(0, i + 1) =~= all@.subrange(0, i as int).push(id));
            proof {
                all@.subrange(0, i as int).lemma_filter_push(id, pred);
            }
            match document.event_target(id) {
                Some(t) => {
                    assert(pred(id) == self.filter.spec_filter(t@, self.root));
                    if self.filter.filter(t, self.root) {
                        out.push(id);
                    }
                },
                None => {},
            }
            i = i + 1;
        }
        assert(all@.subrange(0, all@.len() as int) =~= all@);
        out
    }

    /// The number of members, as the tree stands now.
    pub fn length(&self, document: &Document) -> (r: usize)
        requires
            document.wf(),
        ensures
            r == self.items(document@).len(),
    {
        self.elements(document).len()
    }

    /// The member at `index` in document order, if there are that many, as
    /// the tree stands now.
    pub fn item(&self, document: &Document, index: usize) -> (r: Option<NodeId>)
        requires
            document.wf(),
        ensures
            index < self.items(document@).len() ==> r == Some(self.items(document@)[index as int]),
            index >= self.items(document@).len() ==> r.is_none(),
    {
        let all = self.elements(document);
        if index < all.len() {
            Some(all[index])
        } else {
            None
        }
    }
}

/// Every descendant of a node is a node of the document.
pub proof fn lemma_descendants_in_document(d: DocModel, root: NodeId)
    requires
        d.wf(),
    ensures
        forall|k: int| 0 <= k < d.descendants(root).len() ==> d.has(#[trigger] d.descendants(root)[k]),
{
    if d.has(root) {
        let p = d.position(root);
        lemma_position_of(d, root);
        lemma_subtree_end(d.depth, p);
        assert forall|k: int| 0 <= k < d.descendants(root).len() implies d.has(
            #[trigger] d.descendants(root)[k],
        ) by {
            assert(d.descendants(root)[k] == d.order[p + 1 + k]);
        }
    }
}

/// What a collection holds depends on the tree alone: two reads of one tree,
/// with nothing changed between them, give the same members in the same
/// order.
pub proof fn lemma_reads_agree(d1: DocModel, d2: DocModel, root: NodeId, f: CollectionFilter)
    requires
        d1.order == d2.order,
        d1.depth == d2.depth,
        d1.tags == d2.tags,
    ensures
        collected(d1, root, f) == collected(d2, root, f),
{
    assert(d1.descendants(root) == d2.descendants(root));
    assert(collected(d1, root, f) =~= collected(d2, root, f));
}

/// A descendant of the root that the filter selects is a member.
pub proof fn lemma_selected_descendant_is_listed(d: DocModel, root: NodeId, f: CollectionFilter, x: NodeId)
    requires
        d.wf(),
        d.descendants(root).contains(x),
        f.spec_filter(d.tags[x as int], root),
    ensures
        collected(d, root, f).contains(x),
{
    let k = choose|k: int| 0 <= k < d.descendants(root).len() && d.descendants(root)[k] == x;
    d.descendants(root).lemma_filter_contains(
        |id: NodeId| f.spec_filter(d.tags[id as int], root),
        k,
    );
}

/// A node that is not a descendant of the root is no member.
pub proof fn lemma_non_descendant_is_not_listed(d: DocModel, root: NodeId, f: CollectionFilter, x: NodeId)
    requires
        !d.descendants(root).contains(x),
    ensures
        !collected(d, root, f).contains(x),
{
    let pred = |id: NodeId| f.spec_filter(d.tags[id as int], root);
    if collected(d, root, f).contains(x) {
        d.descendants(root).lemma_filter_contains_rev(pred, x);
    }
}

/// A collection created before a matching node is attached under its root
/// lists that node on the next read: nothing is kept from earlier reads.
pub proof fn lemma_attached_is_listed(d: DocModel, root: NodeId, f: CollectionFilter, child: NodeId)
    requires
        d.wf(),
        d.has(root),
        d.has(child),
        !d.is_inclusive_ancestor(child, root),
        f.spec_filter(d.tags[child as int], root),
    ensures
        collected(d.appended(root, child), root, f).contains(child),
{
    lemma_appended(d, root, child);
    lemma_selected_descendant_is_listed(d.appended(root, child), root, f, child);
}

/// A collection read after a just-registered node is appended under its
/// root holds the members of the read before, followed by that node when
/// the filter selects it, and nothing else changed.
pub proof fn lemma_attached_fresh_is_last(
    d: DocModel,
    root: NodeId,
    f: CollectionFilter,
    child: NodeId,
)
    requires
        d.wf(),
        d.has(root),
        root != child,
        d.order.len() > 0,
        d.order.last() == child,
        d.depth.last() == 0,
    ensures
        f.spec_filter(d.tags[child as int], root) ==> collected(d.appended(root, child), root, f)
            == collected(d, root, f).push(child),
        !f.spec_filter(d.tags[child as int], root) ==> collected(d.appended(root, child), root, f)
            == collected(d, root, f),
{
    lemma_appended_fresh(d, root, child);
    let pred = |id: NodeId| f.spec_filter(d.tags[id as int], root);
    let a = d.appended(root, child);
    let pred_a = |id: NodeId| f.spec_filter(a.tags[id as int], root);
    assert(pred_a == pred);
    d.descendants(root).lemma_filter_push(child, pred);
}

/// Once a node has been detached, no collection lists it, whatever its
/// root.
pub proof fn lemma_detached_is_not_listed(d: DocModel, root: NodeId, f: CollectionFilter, x: NodeId)
    requires
        d.wf(),
        d.has(x),
    ensures
        !collected(d.detached(x), root, f).contains(x),
{
    lemma_detached(d, x);
    lemma_non_descendant_is_not_listed(d.detached(x), root, f, x);
}

/// A collection read after a descendant `x` of its root is detached holds
/// the members of the read before except those of `x` and its subtree, in
/// the same order.
pub proof fn lemma_detached_members(d: DocModel, root: NodeId, f: CollectionFilter, x: NodeId)
    requires
        d.wf(),
        d.has(root),
        d.descendants(root).contains(x),
    ensures
        exists|a: Seq<NodeId>, b: Seq<NodeId>|
            #![trigger a.filter(selects(d, root, f)) + b.filter(selects(d, root, f))]
            {
                &&& collected(d, root, f) == a.filter(selects(d, root, f)) + (seq![x]
                    + d.descendants(x)).filter(selects(d, root, f)) + b.filter(selects(d, root, f))
                &&& collected(d.detached(x), root, f) == a.filter(selects(d, root, f)) + b.filter(
                    selects(d, root, f),
                )
            },
{
    lemma_detached_descendants(d, root, x);
    lemma_descendants_in_document(d, root);
    let k = choose|k: int| 0 <= k < d.descendants(root).len() && d.descendants(root)[k] == x;
    assert(d.has(d.descendants(root)[k]));
    lemma_detached(d, x);
    let pred = selects(d, root, f);
    let (a, b) = choose|a: Seq<NodeId>, b: Seq<NodeId>|
        d.descendants(root) == a + seq![x] + d.descendants(x) + b && d.detached(x).descendants(root)
            == a + b;
    let s = seq![x] + d.descendants(x);
    assert(a + seq![x] + d.descendants(x) + b =~= a + s + b);
    Seq::filter_distributes_over_add(a + s, b, pred);
    Seq::filter_distributes_over_add(a, s, pred);
    Seq::filter_distributes_over_add(a, b, pred);
    assert(selects(d.detached(x), root, f) == pred);
    assert(collected(d, root, f) == a.filter(pred) + s.filter(pred) + b.filter(pred));
}

/// Over a root whose descendants the filter all rejects (no descendants at
/// all, or a root that names no node) a collection is empty.
pub proof fn lemma_empty_without_match(d: DocModel, root: NodeId, f: CollectionFilter)
    requires
        forall|k: int|
            0 <= k < d.descendants(root).len() ==> !f.spec_filter(
                d.tags[#[trigger] d.descendants(root)[k] as int],
                root,
            ),
    ensures
        collected(d, root, f).len() == 0,
{
    let pred = |id: NodeId| f.spec_filter(d.tags[id as int], root);
    let c = collected(d, root, f);
    if c.len() > 0 {
        d.descendants(root).lemma_filter_pred(pred, 0);
        d.descendants(root).lemma_filter_contains_rev(pred, c[0]);
    }
}

} // verus!
