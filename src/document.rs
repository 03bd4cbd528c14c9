//! The document: it owns every node, and keeps the forest they form in
//! document order, as node identifiers with their depths.
use vstd::prelude::*;
use crate::eventtarget::EventTarget;
use crate::forest::{
    lemma_depth_growth, lemma_moved_depths_valid, lemma_moved_same_entries, lemma_subtree_end,
    moved, moved_depths, rebased, rest_of, scan_end, subtree_end, valid_depths, depth_step_ok,
};
use crate::typeid::EventTargetTypeId;

verus! {

/// A node of the document, by its index in the document's arena.
pub type NodeId = usize;

/// The global scope that a document belongs to.
#[derive(Clone, Copy, Debug, PartialEq, Eq, Structural)]
pub struct Window {
    pub id: u64,
}

/// A tree participant before it is handed to a document: its tag and the
/// name and namespace prefix it was created with.
pub struct Node {
    pub target: EventTarget,
    pub name: String,
    pub prefix: Option<String>,
}

/// Why a change to the tree was refused.
#[derive(Clone, Copy, Debug, PartialEq, Eq, Structural)]
pub enum TreeError {
    /// An identifier names no node of this document.
    NotFound,
    /// The change would make a node a descendant of itself.
    HierarchyRequest,
}

/// The characters of an optional string.
pub open spec fn opt_view(s: Option<String>) -> Option<Seq<char>> {
    match s {
        Some(t) => Some(t@),
        None => None,
    }
}

/// What a document is, mathematically: its nodes in document order, the
/// depth of each entry of that order, the tag, name and prefix of each node
/// by identifier, and its window.
pub struct DocModel {
    pub order: Seq<NodeId>,
    pub depth: Seq<usize>,
    pub tags: Seq<EventTargetTypeId>,
    pub names: Seq<Seq<char>>,
    pub prefixes: Seq<Option<Seq<char>>>,
    pub window: Window,
}

impl DocModel {
    /// Every node stands exactly once in the order, and the depths describe
    /// a forest.
    pub open spec fn wf(self) -> bool {
        &&& self.tags.len() <= usize::MAX
        &&& self.order.len() == self.tags.len()
        &&& self.depth.len() == self.tags.len()
        &&& self.names.len() == self.tags.len()
        &&& self.prefixes.len() == self.tags.len()
        &&& self.order.no_duplicates()
        &&& forall|i: int| 0 <= i < self.order.len() ==> #[trigger] self.order[i] < self.tags.len()
        &&& forall|id: NodeId| id < self.tags.len() ==> #[trigger] self.order.contains(id)
        &&& valid_depths(self.depth)
    }

    pub open spec fn has(self, id: NodeId) -> bool {
        id < self.tags.len()
    }

    /// Where node `id` stands in document order.
    pub open spec fn position(self, id: NodeId) -> int {
        choose|i: int| 0 <= i < self.order.len() && self.order[i] == id
    }

    /// The strict descendants of `id`, in document order; none for an
    /// identifier that names no node.
    pub open spec fn descendants(self, id: NodeId) -> Seq<NodeId> {
        if self.has(id) {
            let p = self.position(id);
            self.order.subrange(p + 1, subtree_end(self.depth, p))
        } else {
            Seq::empty()
        }
    }

    /// Whether `a` is `b` or one of its ancestors.
    pub open spec fn is_inclusive_ancestor(self, a: NodeId, b: NodeId) -> bool {
        a == b || self.descendants(a).contains(b)
    }

    /// The document after moving the subtree at index `c` (ending at `e`) to
    /// index `q` of what is left, its root at depth `base`.
    pub open spec fn moved_model(self, c: int, e: int, q: int, base: int) -> DocModel {
        DocModel {
            order: moved(self.order, c, e, q),
            depth: moved_depths(self.depth, c, e, q, base),
            tags: self.tags,
            names: self.names,
            prefixes: self.prefixes,
            window: self.window,
        }
    }

    /// The document after taking the subtree of `id` out of its parent: the
    /// subtree becomes the last tree of the forest.
    pub open spec fn detached(self, id: NodeId) -> DocModel {
        let c = self.position(id);
        let e = subtree_end(self.depth, c);
        self.moved_model(c, e, self.order.len() - (e - c), 0)
    }

    /// The document after making `child` the last child of `parent`.
    pub open spec fn appended(self, parent: NodeId, child: NodeId) -> DocModel {
        let m = self.detached(child);
        let c = self.position(child);
        let n = self.order.len() as int;
        let l = subtree_end(self.depth, c) - c;
        let p = m.position(parent);
        m.moved_model(n - l, n, subtree_end(m.depth, p), m.depth[p] + 1)
    }
}

/// In a well-formed document a node stands at one place only.
pub proof fn lemma_position(m: DocModel, p: int)
    requires
        m.wf(),
        0 <= p < m.order.len(),
    ensures
        m.position(m.order[p]) == p,
{
    let id = m.order[p];
    assert(exists|i: int| 0 <= i < m.order.len() && m.order[i] == id);
}

/// Every node of a well-formed document has a position.
pub proof fn lemma_position_of(m: DocModel, id: NodeId)
    requires
        m.wf(),
        m.has(id),
    ensures
        0 <= m.position(id) < m.order.len(),
        m.order[m.position(id)] == id,
{
    assert(m.order.contains(id));
}

/// A document: the arena of its nodes, by identifier, and the forest they
/// form, in document order with the depth of each entry.
pub struct Document {
    nodes: Vec<Node>,
    order: Vec<NodeId>,
    depth: Vec<usize>,
    window: Window,
}

impl View for Document {
    type V = DocModel;

    closed spec fn view(&self) -> DocModel {
        DocModel {
            order: self.order@,
            depth: self.depth@,
            tags: self.nodes@.map_values(|n: Node| n.target@),
            names: self.nodes@.map_values(|n: Node| n.name@),
            prefixes: self.nodes@.map_values(|n: Node| opt_view(n.prefix)),
            window: self.window,
        }
    }
}

impl Document {
    pub open spec fn wf(&self) -> bool {
        self@.wf()
    }

    /// An empty document of `window`.
    pub fn new(window: Window) -> (r: Document)
        ensures
            r.wf(),
            r@.tags.len() == 0,
            r@.names.len() == 0,
            r@.prefixes.len() == 0,
            r@.window == window,
    {
        let r = Document { nodes: Vec::new(), order: Vec::new(), depth: Vec::new(), window };
        assert(r@.order =~= Seq::<NodeId>::empty());
        r
    }

    /// The window this document belongs to.
    pub fn window(&self) -> (r: Window)
        ensures
            r == self@.window,
    {
        self.window
    }

    /// Registers `node` with the document, as a tree of its own, and returns
    /// its identifier.
    pub fn reflect_node(&mut self, node: Node) -> (r: NodeId)
        requires
            old(self).wf(),
            old(self)@.tags.len() < usize::MAX,
        ensures
            final(self).wf(),
            r == old(self)@.tags.len(),
            final(self)@ == (DocModel {
                order: old(self)@.order.push(r),
                depth: old(self)@.depth.push(0),
                tags: old(self)@.tags.push(node.target@),
                names: old(self)@.names.push(node.name@),
                prefixes: old(self)@.prefixes.push(opt_view(node.prefix)),
                window: old(self)@.window,
            }),
    {
        let ghost m = self@;
        let ghost t = node.target@;
        let ghost nm = node.name@;
        let ghost pf = opt_view(node.prefix);
        let id: usize = self.nodes.len();
        self.nodes.push(node);
        self.order.push(id);
        self.depth.push(0);
        assert(self@.tags =~= m.tags.push(t));
        assert(self@.names =~= m.names.push(nm));
        assert(self@.prefixes =~= m.prefixes.push(pf));
        assert forall|i: int| 0 < i < self@.depth.len() implies #[trigger] depth_step_ok(self@.depth, i) by {
            if i < id {
                assert(depth_step_ok(m.depth, i));
            }
        }
        assert forall|x: NodeId| x < self@.tags.len() implies #[trigger] self@.order.contains(x) by {
            if x < id {
                assert(m.order.contains(x));
                let i = choose|i: int| 0 <= i < m.order.len() && m.order[i] == x;
                assert(self@.order[i] == x);
            } else {
                assert(self@.order[id as int] == x);
            }
        }
        id
    }

    /// The tag of node `id`, if there is such a node.
    pub fn type_id(&self, id: NodeId) -> (r: Option<EventTargetTypeId>)
        ensures
            r == (if self@.has(id) { Some(self@.tags[id as int]) } else { None::<EventTargetTypeId> }),
    {
        if id < self.nodes.len() {
            Some(self.nodes[id].target.type_id())
        } else {
            None
        }
    }

    /// The tag-bearing part of node `id`, if there is such a node.
    pub fn event_target(&self, id: NodeId) -> (r: Option<&EventTarget>)
        ensures
            self@.has(id) ==> r.is_some() && r.unwrap()@ == self@.tags[id as int],
            !self@.has(id) ==> r.is_none(),
    {
        if id < self.nodes.len() {
            Some(&self.nodes[id].target)
        } else {
            None
        }
    }

    /// The name node `id` was created with, if there is such a node.
    pub fn local_name(&self, id: NodeId) -> (r: Option<&String>)
        ensures
            self@.has(id) ==> r.is_some() && r.unwrap()@ == self@.names[id as int],
            !self@.has(id) ==> r.is_none(),
    {
        if id < self.nodes.len() {
            Some(&self.nodes[id].name)
        } else {
            None
        }
    }

    /// The namespace prefix node `id` was created with, if there is such a
    /// node.
    pub fn prefix(&self, id: NodeId) -> (r: Option<&Option<String>>)
        ensures
            self@.has(id) ==> r.is_some() && opt_view(*r.unwrap()) == self@.prefixes[id as int],
            !self@.has(id) ==> r.is_none(),
    {
        if id < self.nodes.len() {
            Some(&self.nodes[id].prefix)
        } else {
            None
        }
    }

    /// The number of nodes the document owns.
    pub fn len(&self) -> (r: usize)
        ensures
            r == self@.tags.len(),
    {
        self.nodes.len()
    }

    fn find_position(&self, id: NodeId) -> (r: usize)
        requires
            self.wf(),
            self@.has(id),
        ensures
            r == self@.position(id),
            r < self@.order.len(),
            self@.order[r as int] == id,
    {
        proof {
            lemma_position_of(self@, id);
        }
        let mut i: usize = 0;
        while i < self.order.len()
            invariant
                self.wf(),
                self@.has(id),
                0 <= self@.position(id) < self@.order.len(),
                self@.order[self@.position(id)] == id,
                i <= self@.order.len(),
                forall|k: int| 0 <= k < i ==> self@.order[k] != id,
            decreases self.order.len() - i,
        {
            if self.order[i] == id {
                proof {
                    lemma_position(self@, i as int);
                }
                return i;
            }
            i = i + 1;
        }
        proof {
            assert(self@.order[self@.position(id)] == id);
        }
        0
    }

    fn subtree_end_of(&self, p: usize) -> (r: usize)
        requires
            self.wf(),
            p < self@.order.len(),
        ensures
            r == subtree_end(self@.depth, p as int),
    {
        let n: usize = self.depth.len();
        let dp: usize = self.depth[p];
        let mut j: usize = p + 1;
        while j < n && self.depth[j] > dp
            invariant
                self.wf(),
                n == self@.depth.len(),
                dp == self@.depth[p as int],
                p < j <= n,
                scan_end(self@.depth, p as int, j as int) == subtree_end(self@.depth, p as int),
            decreases n - j,
        {
            j = j + 1;
        }
        j
    }


    /// Moves the subtree at index `c` (ending at `e`) to index `q` of what is
    /// left, its root at depth `base`.
    #[verifier::rlimit(30)]
    fn move_block(&mut self, c: usize, e: usize, q: usize, base: usize)
        requires
            old(self).wf(),
            c < e <= old(self)@.order.len(),
            e == subtree_end(old(self)@.depth, c as int),
            q <= old(self)@.order.len() - (e - c),
            base <= q,
            q == 0 ==> base == 0,
            q > 0 ==> base <= rest_of(old(self)@.depth, c as int, e as int)[q - 1] + 1,
            q < old(self)@.order.len() - (e - c) ==> rest_of(old(self)@.depth, c as int, e as int)[q as int]
                <= base + 1,
        ensures
            final(self).wf(),
            final(self)@ == old(self)@.moved_model(c as int, e as int, q as int, base as int),
    {
        let ghost m = self@;
        let n: usize = self.order.len();
        proof {
            lemma_move_wf(m, c as int, e as int, q as int, base as int);
            lemma_subtree_end(m.depth, c as int);
            assert forall|k: int| c <= k < e implies m.depth[k] >= m.depth[c as int] && m.depth[k]
                - m.depth[c as int] + base <= usize::MAX by {
                lemma_depth_growth(m.depth, c as int, k);
            }
        }
        let mut rest_order: Vec<NodeId> = Vec::new();
        extend_from(&mut rest_order, &self.order, 0, c);
        extend_from(&mut rest_order, &self.order, e, n);
        let mut rest_depth: Vec<usize> = Vec::new();
        extend_from(&mut rest_depth, &self.depth, 0, c);
        extend_from(&mut rest_depth, &self.depth, e, n);
        assert(rest_order@ =~= rest_of(m.order, c as int, e as int));
        assert(rest_depth@ =~= rest_of(m.depth, c as int, e as int));
        let rl: usize = rest_order.len();
        let mut order: Vec<NodeId> = Vec::new();
        extend_from(&mut order, &rest_order, 0, q);
        extend_from(&mut order, &self.order, c, e);
        extend_from(&mut order, &rest_order, q, rl);
        let mut depth: Vec<usize> = Vec::new();
        extend_from(&mut depth, &rest_depth, 0, q);
        extend_rebased(&mut depth, &self.depth, c, e, base);
        extend_from(&mut depth, &rest_depth, q, rl);
        assert(order@ =~= moved(m.order, c as int, e as int, q as int));
        assert(depth@ =~= moved_depths(m.depth, c as int, e as int, q as int, base as int));
        self.order = order;
        self.depth = depth;
        assert(self@.tags =~= m.tags);
        assert(self@.names =~= m.names);
        assert(self@.prefixes =~= m.prefixes);
    }

    /// Takes node `id`, with its subtree, out of its parent; it becomes a
    /// tree of its own, the last of the document's forest.
    pub fn detach(&mut self, id: NodeId) -> (r: Result<(), TreeError>)
        requires
            old(self).wf(),
        ensures
            final(self).wf(),
            final(self)@.tags == old(self)@.tags,
            final(self)@.names == old(self)@.names,
            final(self)@.prefixes == old(self)@.prefixes,
            !old(self)@.has(id) ==> r == Err::<(), TreeError>(TreeError::NotFound) && final(self)@
                == old(self)@,
            old(self)@.has(id) ==> r is Ok && final(self)@ == old(self)@.detached(id),
            forall|root: NodeId| !(#[trigger] final(self)@.descendants(root)).contains(id),
    {
        if id >= self.nodes.len() {
            proof {
                lemma_not_descendant_unknown(self@, id);
            }
            return Err(TreeError::NotFound);
        }
        let ghost m = self@;
        let c: usize = self.find_position(id);
        let e: usize = self.subtree_end_of(c);
        proof {
            lemma_subtree_end(m.depth, c as int);
        }
        let q: usize = self.order.len() - (e - c);
        self.move_block(c, e, q, 0);
        proof {
            lemma_detached(m, id);
        }
        Ok(())
    }

    /// Makes `child`, with its subtree, the last child of `parent`, taking
    /// it out of its former parent first.
    #[verifier::rlimit(40)]
    pub fn append_child(&mut self, parent: NodeId, child: NodeId) -> (r: Result<(), TreeError>)
        requires
            old(self).wf(),
        ensures
            final(self).wf(),
            final(self)@.tags == old(self)@.tags,
            final(self)@.names == old(self)@.names,
            final(self)@.prefixes == old(self)@.prefixes,
            !old(self)@.has(parent) || !old(self)@.has(child) ==> r == Err::<(), TreeError>(
                TreeError::NotFound,
            ) && final(self)@ == old(self)@,
            old(self)@.has(parent) && old(self)@.has(child) && old(self)@.is_inclusive_ancestor(
                child,
                parent,
            ) ==> r == Err::<(), TreeError>(TreeError::HierarchyRequest) && final(self)@ == old(
                self,
            )@,
            old(self)@.has(parent) && old(self)@.has(child) && !old(self)@.is_inclusive_ancestor(
                child,
                parent,
            ) ==> r is Ok && final(self)@ == old(self)@.appended(parent, child),
            r is Ok ==> final(self)@.descendants(parent).contains(child),
    {
        let n: usize = self.nodes.len();
        if parent >= n || child >= n {
            return Err(TreeError::NotFound);
        }
        let ghost m = self@;
        let pc: usize = self.find_position(child);
        let ec: usize = self.subtree_end_of(pc);
        let pp: usize = self.find_position(parent);
        proof {
            lemma_subtree_end(m.depth, pc as int);
            lemma_inclusive_ancestor(m, child, parent);
        }
        if pc <= pp && pp < ec {
            return Err(TreeError::HierarchyRequest);
        }
        let l: usize = ec - pc;
        self.move_block(pc, ec, n - l, 0);
        let ghost mid = self@;
        assert(mid == m.detached(child));
        let c_mid: usize = n - l;
        proof {
            assert forall|k: int| c_mid < k < n implies mid.depth[k] > mid.depth[c_mid as int] by {
                assert(mid.depth[c_mid + (k - c_mid)] > 0);
            }
            lemma_subtree_end(mid.depth, c_mid as int);
            assert forall|k: int| 0 <= k < l implies mid.order[c_mid + k] == m.order[pc + k] && #[trigger]
                mid.order[c_mid + k] != parent by {
                assert(mid.order[c_mid + k] == m.order.subrange(pc as int, ec as int)[k]);
            }
        }
        let pp_mid: usize = self.find_position(parent);
        proof {
            if pp_mid >= c_mid {
                assert(mid.order[c_mid + (pp_mid - c_mid)] != parent);
            }
        }
        let q: usize = self.subtree_end_of(pp_mid);
        proof {
            lemma_subtree_end(mid.depth, pp_mid as int);
            assert(mid.depth[c_mid as int] == 0);
            lemma_depth_growth(mid.depth, 0, pp_mid as int);
            assert(rest_of(mid.depth, c_mid as int, n as int) =~= mid.depth.subrange(0, c_mid as int));
        }
        let base: usize = self.depth[pp_mid] + 1;
        self.move_block(c_mid, n, q, base);
        proof {
            lemma_appended(m, parent, child);
        }
        Ok(())
    }

    /// The strict descendants of `root` in document order, read from the
    /// tree as it is now; none for an identifier that names no node.
    pub fn traverse_preorder(&self, root: NodeId) -> (r: Vec<NodeId>)
        requires
            self.wf(),
        ensures
            r@ == self@.descendants(root),
    {
        let mut out: Vec<NodeId> = Vec::new();
        if root >= self.nodes.len() {
            assert(out@ =~= self@.descendants(root));
            return out;
        }
        let p: usize = self.find_position(root);
        let e: usize = self.subtree_end_of(p);
        proof {
            lemma_subtree_end(self@.depth, p as int);
        }
        extend_from(&mut out, &self.order, p + 1, e);
        assert(out@ =~= self@.descendants(root));
        out
    }
}

/// Moving a whole subtree to a place where its root fits keeps a document
/// well formed.
proof fn lemma_move_wf(m: DocModel, c: int, e: int, q: int, base: int)
    requires
        m.wf(),
        0 <= c < e <= m.order.len(),
        e == subtree_end(m.depth, c),
        0 <= q <= m.order.len() - (e - c),
        0 <= base <= q,
        q == 0 ==> base == 0,
        q > 0 ==> base <= rest_of(m.depth, c, e)[q - 1] + 1,
        q < m.order.len() - (e - c) ==> rest_of(m.depth, c, e)[q] <= base + 1,
    ensures
        m.moved_model(c, e, q, base).wf(),
        m.moved_model(c, e, q, base).depth[q] == base,
        forall|k: int| 0 < k < e - c ==> #[trigger] m.moved_model(c, e, q, base).depth[q + k] > base,
        forall|k: int| 0 <= k < e - c ==> #[trigger] m.moved_model(c, e, q, base).depth[q + k] >= base,
        forall|k: int| 0 <= k < e - c ==> #[trigger] m.moved_model(c, e, q, base).order[q + k] == m.order[c + k],
{
    let f = m.moved_model(c, e, q, base);
    lemma_subtree_end(m.depth, c);
    lemma_moved_same_entries(m.order, c, e, q);
    lemma_moved_depths_valid(m.depth, c, e, q, base);
    let o = f.order;
    assert forall|id: NodeId| id < f.tags.len() implies #[trigger] o.contains(id) by {
        assert(m.order.contains(id));
    }
    assert forall|i: int| 0 <= i < o.len() implies #[trigger] o[i] < f.tags.len() by {
        assert(o.contains(o[i]));
        let j = choose|j: int| 0 <= j < m.order.len() && m.order[j] == o[i];
        assert(m.order[j] < m.tags.len());
    }
    assert forall|k: int| 0 <= k < e - c implies #[trigger] o[q + k] == m.order[c + k] by {
        assert(o[q + k] == m.order.subrange(c, e)[k]);
    }
}

/// Detaching a node keeps the document well formed and every tag, and
/// leaves the node a descendant of no node.
pub proof fn lemma_detached(m: DocModel, id: NodeId)
    requires
        m.wf(),
        m.has(id),
    ensures
        m.detached(id).wf(),
        m.detached(id).tags == m.tags,
        forall|root: NodeId| !(#[trigger] m.detached(id).descendants(root)).contains(id),
{
    let c = m.position(id);
    lemma_position_of(m, id);
    let e = subtree_end(m.depth, c);
    lemma_subtree_end(m.depth, c);
    let q = m.order.len() - (e - c);
    lemma_move_wf(m, c, e, q, 0);
    let f = m.detached(id);
    assert(f.order[q + 0] == m.order[c + 0]);
    lemma_root_not_descendant(f, q);
}

/// Appending `child` under `parent` keeps the document well formed and every
/// tag, and makes `child` a descendant of `parent`.
#[verifier::rlimit(60)]
pub proof fn lemma_appended(m: DocModel, parent: NodeId, child: NodeId)
    requires
        m.wf(),
        m.has(parent),
        m.has(child),
        !m.is_inclusive_ancestor(child, parent),
    ensures
        m.appended(parent, child).wf(),
        m.appended(parent, child).tags == m.tags,
        m.appended(parent, child).descendants(parent).contains(child),
{
    let n = m.order.len() as int;
    let pc = m.position(child);
    lemma_position_of(m, child);
    lemma_position_of(m, parent);
    let ec = subtree_end(m.depth, pc);
    lemma_subtree_end(m.depth, pc);
    lemma_inclusive_ancestor(m, child, parent);
    let l = ec - pc;
    lemma_move_wf(m, pc, ec, n - l, 0);
    let mid = m.detached(child);
    let c_mid = n - l;
    assert forall|k: int| c_mid < k < n implies mid.depth[k] > mid.depth[c_mid] by {
        assert(mid.depth[c_mid + (k - c_mid)] > 0);
    }
    assert(mid.depth[c_mid + 0] >= 0);
    lemma_subtree_end(mid.depth, c_mid);
    assert forall|k: int| 0 <= k < l implies #[trigger] mid.order[c_mid + k] != parent by {
        assert(mid.order[c_mid + k] == m.order[pc + k]);
    }
    let pp = mid.position(parent);
    lemma_position_of(mid, parent);
    if pp >= c_mid {
        assert(mid.order[c_mid + (pp - c_mid)] != parent);
    }
    let q = subtree_end(mid.depth, pp);
    lemma_subtree_end(mid.depth, pp);
    assert(mid.depth[c_mid] == 0);
    lemma_depth_growth(mid.depth, 0, pp);
    assert(rest_of(mid.depth, c_mid, n) =~= mid.depth.subrange(0, c_mid));
    let base = mid.depth[pp] + 1;
    lemma_move_wf(mid, c_mid, n, q, base);
    let f = m.appended(parent, child);
    assert(f == mid.moved_model(c_mid, n, q, base));
    assert(f.order[pp] == parent);
    lemma_position(f, pp);
    assert(f.depth[pp] == mid.depth[pp]);
    assert forall|k: int| pp < k < q + 1 implies f.depth[k] > f.depth[pp] by {
        if k < q {
            assert(f.depth[k] == mid.depth[k]);
        } else {
            assert(f.depth[q + 0] >= base);
        }
    }
    lemma_subtree_end(f.depth, pp);
    let e_new = subtree_end(f.depth, pp);
    assert(e_new > q) by {
        if e_new <= q {
            assert(f.depth[e_new] > f.depth[pp]);
        }
    }
    assert(f.order[q + 0] == mid.order[c_mid + 0]);
    assert(f.descendants(parent)[q - pp - 1] == child);
}

/// The subtree of index `i` ends at `j` when every entry between them is
/// deeper than `i` and `j` ends the sequence or is no deeper.
pub proof fn lemma_subtree_end_at(d: Seq<usize>, i: int, j: int)
    requires
        0 <= i < j <= d.len(),
        forall|k: int| i < k < j ==> d[k] > d[i],
        j < d.len() ==> d[j] <= d[i],
    ensures
        subtree_end(d, i) == j,
{
    lemma_subtree_end(d, i);
    let e = subtree_end(d, i);
    if e < j {
        assert(d[e] > d[i]);
    }
    if e > j {
        assert(d[j] > d[i]);
    }
}

/// Appending a node that was just registered (the last entry of the order,
/// a tree of its own with nothing below it) under `parent` makes it the last
/// descendant of `parent`: the descendants are the former ones followed by
/// the node.
#[verifier::rlimit(40)]
pub proof fn lemma_appended_fresh(m: DocModel, parent: NodeId, child: NodeId)
    requires
        m.wf(),
        m.has(parent),
        parent != child,
        m.order.len() > 0,
        m.order.last() == child,
        m.depth.last() == 0,
    ensures
        !m.is_inclusive_ancestor(child, parent),
        m.appended(parent, child).descendants(parent) == m.descendants(parent).push(child),
        m.appended(parent, child).tags == m.tags,
{
    let n = m.order.len() as int;
    lemma_position(m, n - 1);
    lemma_subtree_end_at(m.depth, n - 1, n);
    lemma_position_of(m, parent);
    let pp = m.position(parent);
    assert(m.has(child)) by {
        assert(m.order[n - 1] < m.tags.len());
    }
    lemma_inclusive_ancestor(m, child, parent);
    let mid = m.detached(child);
    assert(mid.order =~= m.order);
    assert(mid.depth =~= m.depth);
    assert(mid == m);
    lemma_subtree_end(m.depth, pp);
    let q = subtree_end(m.depth, pp);
    assert(q <= n - 1) by {
        if q > n - 1 {
            assert(m.depth[n - 1] > m.depth[pp]);
        }
    }
    let base = m.depth[pp] + 1;
    let f = m.appended(parent, child);
    assert(f == m.moved_model(n - 1, n, q, base));
    let r = rest_of(m.order, n - 1, n);
    assert(r =~= m.order.subrange(0, n - 1));
    assert(f.order =~= m.order.subrange(0, q) + seq![child] + m.order.subrange(q, n - 1));
    assert(f.depth =~= m.depth.subrange(0, q) + seq![base as usize] + m.depth.subrange(q, n - 1));
    assert(f.order[pp] == parent);
    lemma_appended(m, parent, child);
    lemma_position(f, pp);
    lemma_subtree_end_at(f.depth, pp, q + 1);
    assert(f.descendants(parent) =~= m.descendants(parent).push(child));
}

/// Detaching a strict descendant `x` of `root` cuts `x` and its subtree out
/// of the descendants of `root` and keeps the rest in their order.
#[verifier::rlimit(40)]
pub proof fn lemma_detached_descendants(m: DocModel, root: NodeId, x: NodeId)
    requires
        m.wf(),
        m.has(root),
        m.descendants(root).contains(x),
    ensures
        exists|a: Seq<NodeId>, b: Seq<NodeId>|
            m.descendants(root) == a + seq![x] + m.descendants(x) + b && m.detached(x).descendants(
                root,
            ) == a + b,
{
    let n = m.order.len() as int;
    lemma_position_of(m, root);
    let pr = m.position(root);
    lemma_subtree_end(m.depth, pr);
    let er = subtree_end(m.depth, pr);
    let k0 = choose|k: int| 0 <= k < m.descendants(root).len() && m.descendants(root)[k] == x;
    assert(m.order[pr + 1 + k0] == x);
    assert(m.has(x)) by {
        assert(m.order[pr + 1 + k0] < m.tags.len());
    }
    lemma_position(m, pr + 1 + k0);
    let c = m.position(x);
    lemma_subtree_end(m.depth, c);
    let e = subtree_end(m.depth, c);
    assert(e <= er) by {
        if e > er {
            assert(m.depth[er] > m.depth[c]);
            assert(m.depth[c] > m.depth[pr]);
        }
    }
    let l = e - c;
    lemma_detached(m, x);
    let f = m.detached(x);
    let q = n - l;
    lemma_move_wf(m, c, e, q, 0);
    assert(f.order[pr] == root);
    lemma_position(f, pr);
    assert forall|k: int| pr < k < er - l implies f.depth[k] > f.depth[pr] by {
        if k < c {
            assert(f.depth[k] == m.depth[k]);
        } else {
            assert(f.depth[k] == m.depth[k + l]);
        }
    }
    if er - l < n {
        if er < n {
            assert(f.depth[er - l] == m.depth[er]);
        } else {
            assert(f.depth[q + 0] == 0);
        }
    }
    lemma_subtree_end_at(f.depth, pr, er - l);
    let a = m.order.subrange(pr + 1, c);
    let b = m.order.subrange(e, er);
    assert(m.order[c] == x);
    assert(m.descendants(x) =~= m.order.subrange(c + 1, e));
    assert(m.descendants(root) =~= a + seq![x] + m.descendants(x) + b);
    assert(f.descendants(root) =~= a + b);
}

/// Detaching and appending never change a node's tag, name or prefix: what
/// a node was created as, it stays.
pub proof fn lemma_tree_changes_keep_nodes(m: DocModel, x: NodeId, parent: NodeId, child: NodeId)
    ensures
        m.detached(x).tags == m.tags,
        m.detached(x).names == m.names,
        m.detached(x).prefixes == m.prefixes,
        m.appended(parent, child).tags == m.tags,
        m.appended(parent, child).names == m.names,
        m.appended(parent, child).prefixes == m.prefixes,
{
}

/// An identifier that names no node has no descendants and is no one's.
pub proof fn lemma_not_descendant_unknown(m: DocModel, id: NodeId)
    requires
        m.wf(),
        !m.has(id),
    ensures
        forall|root: NodeId| !(#[trigger] m.descendants(root)).contains(id),
{
    assert forall|root: NodeId| !(#[trigger] m.descendants(root)).contains(id) by {
        if m.has(root) {
            let p = m.position(root);
            lemma_position_of(m, root);
            lemma_subtree_end(m.depth, p);
            if m.descendants(root).contains(id) {
                let k = choose|k: int| 0 <= k < m.descendants(root).len() && m.descendants(root)[k] == id;
                assert(m.order[p + 1 + k] == id);
            }
        }
    }
}

/// A node that stands at depth zero is a root: it is no node's descendant.
pub proof fn lemma_root_not_descendant(m: DocModel, i: int)
    requires
        m.wf(),
        0 <= i < m.order.len(),
        m.depth[i] == 0,
    ensures
        forall|root: NodeId| !(#[trigger] m.descendants(root)).contains(m.order[i]),
{
    let id = m.order[i];
    assert forall|root: NodeId| !(#[trigger] m.descendants(root)).contains(id) by {
        if m.has(root) {
            let p = m.position(root);
            lemma_position_of(m, root);
            lemma_subtree_end(m.depth, p);
            if m.descendants(root).contains(id) {
                let k = choose|k: int| 0 <= k < m.descendants(root).len() && m.descendants(root)[k] == id;
                assert(m.order[p + 1 + k] == id);
                assert(m.depth[p + 1 + k] > m.depth[p]);
            }
        }
    }
}

/// `a` is an inclusive ancestor of `b` exactly when `b` stands in the block
/// that starts at `a`.
pub proof fn lemma_inclusive_ancestor(m: DocModel, a: NodeId, b: NodeId)
    requires
        m.wf(),
        m.has(a),
        m.has(b),
    ensures
        m.is_inclusive_ancestor(a, b) <==> (m.position(a) <= m.position(b) < subtree_end(
            m.depth,
            m.position(a),
        )),
{
    let pa = m.position(a);
    let pb = m.position(b);
    lemma_position_of(m, a);
    lemma_position_of(m, b);
    lemma_subtree_end(m.depth, pa);
    let e = subtree_end(m.depth, pa);
    if pa < pb < e {
        assert(m.descendants(a)[pb - pa - 1] == b);
    }
    if m.descendants(a).contains(b) {
        let k = choose|k: int| 0 <= k < m.descendants(a).len() && m.descendants(a)[k] == b;
        assert(m.order[pa + 1 + k] == b);
    }
}

/// Appends the depths of the block `[lo, hi)` of `d` to `v`, shifted so
/// that the first is `base`.
fn extend_rebased(v: &mut Vec<usize>, d: &Vec<usize>, lo: usize, hi: usize, base: usize)
    requires
        lo < hi <= d@.len(),
        forall|k: int| lo <= k < hi ==> d@[k] >= d@[lo as int] && d@[k] - d@[lo as int] + base
            <= usize::MAX,
    ensures
        final(v)@ == old(v)@ + rebased(d@, lo as int, hi as int, base as int),
{
    let ghost v0 = v@;
    let first: usize = d[lo];
    let mut i: usize = lo;
    while i < hi
        invariant
            lo <= i <= hi <= d@.len(),
            first == d@[lo as int],
            forall|k: int| lo <= k < hi ==> d@[k] >= d@[lo as int] && d@[k] - d@[lo as int] + base
                <= usize::MAX,
            v@ == v0 + rebased(d@, lo as int, i as int, base as int),
        decreases hi - i,
    {
        v.push(d[i] - first + base);
        assert(rebased(d@, lo as int, i + 1, base as int) =~= rebased(
            d@,
            lo as int,
            i as int,
            base as int,
        ).push((d@[i as int] - first + base) as usize));
        i = i + 1;
    }
}

/// Appends the entries `[lo, hi)` of `s` to `v`.
fn extend_from(v: &mut Vec<usize>, s: &Vec<usize>, lo: usize, hi: usize)
    requires
        lo <= hi <= s@.len(),
    ensures
        final(v)@ == old(v)@ + s@.subrange(lo as int, hi as int),
{
    let ghost v0 = v@;
    let mut i: usize = lo;
    while i < hi
        invariant
            lo <= i <= hi <= s@.len(),
            v@ == v0 + s@.subrange(lo as int, i as int),
        decreases hi - i,
    {
        v.push(s[i]);
        assert(s@.subrange(lo as int, i + 1) =~= s@.subrange(lo as int, i as int).push(s@[i as int]));
        i = i + 1;
    }
}

} // verus!
