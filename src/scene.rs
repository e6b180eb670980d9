//! The scene hierarchy: nodes in an arena keyed by id, parent and child links,
//! cycle-free parenting, removal of whole subtrees, and the pre-order walk
//! that decides what is drawn.

use vstd::prelude::*;
use vstd::set_lib::{lemma_int_range, lemma_len_subset, set_int_range};

verus! {

/// Unique identifier of a scene node.
#[derive(Debug, Clone, Copy, PartialEq, Eq, Hash, Structural)]
pub struct NodeId(pub u32);

impl NodeId {
    pub fn new(id: u32) -> (r: Self)
        ensures
            r.0 == id,
    {
        NodeId(id)
    }
}

/// Why a parenting request was refused.
#[derive(Debug, Clone, Copy, PartialEq, Eq, Structural)]
pub enum SceneError {
    /// The child or the parent is not in the graph.
    NodeNotFound,
    /// The parent is the child itself or one of its descendants.
    CycleDetected,
}

/// A node of the hierarchy.
#[derive(Debug)]
pub struct SceneNode {
    pub id: NodeId,
    pub name: String,
    /// Parent node, if any
    pub parent: Option<NodeId>,
    /// Child nodes, in the order they were attached
    pub children: Vec<NodeId>,
    /// Whether this node and its subtree are drawn
    pub visible: bool,
}

/// `s` with every occurrence of `x` removed, order kept.
pub open spec fn without(s: Seq<NodeId>, x: NodeId) -> Seq<NodeId>
    decreases s.len(),
{
    if s.len() == 0 {
        s
    } else {
        let r = without(s.drop_last(), x);
        if s.last() == x {
            r
        } else {
            r.push(s.last())
        }
    }
}

/// What `without` keeps: every other element, in order, and no duplicates where there were none.
pub proof fn lemma_without(s: Seq<NodeId>, x: NodeId)
    ensures
        forall|y: NodeId| #[trigger] without(s, x).contains(y) <==> (s.contains(y) && y != x),
        s.no_duplicates() ==> without(s, x).no_duplicates(),
        !s.contains(x) ==> without(s, x) == s,
    decreases s.len(),
{
    if s.len() > 0 {
        let t = s.drop_last();
        lemma_without(t, x);
        assert(s =~= t.push(s.last()));
        assert forall|y: NodeId| #[trigger] without(s, x).contains(y) <==> (s.contains(y) && y != x) by {
            if s.contains(y) && y != x {
                let k = choose|k: int| 0 <= k < s.len() && s[k] == y;
                if k < s.len() - 1 {
                    assert(t[k] == y);
                    assert(without(t, x).contains(y));
                    let j = choose|j: int| 0 <= j < without(t, x).len() && without(t, x)[j] == y;
                    if s.last() != x {
                        assert(without(s, x)[j] == y);
                    }
                } else if s.last() != x {
                    assert(without(s, x)[without(s, x).len() - 1] == y);
                }
            }
            if without(s, x).contains(y) {
                let j = choose|j: int| 0 <= j < without(s, x).len() && without(s, x)[j] == y;
                if j < without(t, x).len() {
                    assert(without(t, x)[j] == y);
                    assert(without(t, x).contains(y));
                    let k = choose|k: int| 0 <= k < t.len() && t[k] == y;
                    assert(s[k] == y);
                } else {
                    assert(s[s.len() - 1] == y);
                }
            }
        }
        if s.no_duplicates() {
            assert(t.no_duplicates());
            if s.last() != x {
                assert(!t.contains(s.last()));
                assert(!without(t, x).contains(s.last()));
            }
        }
        if !s.contains(x) {
            assert(!t.contains(x));
        }
    }
}

/// The ids of `v` without `x`.
fn remove_id(v: &Vec<NodeId>, x: NodeId) -> (r: Vec<NodeId>)
    ensures
        r@ == without(v@, x),
{
    let mut r: Vec<NodeId> = Vec::new();
    let mut i: usize = 0;
    while i < v.len()
        invariant
            i <= v@.len(),
            r@ == without(v@.subrange(0, i as int), x),
        decreases v@.len() - i,
    {
        assert(v@.subrange(0, i as int + 1).drop_last() =~= v@.subrange(0, i as int));
        if v[i] != x {
            r.push(v[i]);
        }
        i += 1;
    }
    assert(v@.subrange(0, i as int) =~= v@);
    r
}

/// Whether `v` holds `x`.
fn has_id(v: &Vec<NodeId>, x: NodeId) -> (r: bool)
    ensures
        r == v@.contains(x),
{
    let mut i: usize = 0;
    while i < v.len()
        invariant
            i <= v@.len(),
            forall|k: int| 0 <= k < i ==> v@[k] != x,
        decreases v@.len() - i,
    {
        if v[i] == x {
            return true;
        }
        i += 1;
    }
    false
}

/// How the graph `b` relates to `a` after `child` was put under `parent`.
pub open spec fn parented(a: SceneGraph, b: SceneGraph, child: NodeId, parent: NodeId) -> bool {
    &&& b.next_id() == a.next_id()
    &&& b.roots() == without(a.roots(), child)
    &&& forall|id: NodeId| #[trigger] b.contains(id) <==> a.contains(id)
    &&& forall|id: NodeId| #[trigger]
        a.contains(id) ==> b.node(id).id == a.node(id).id && b.node(id).name == a.node(id).name
            && b.node(id).visible == a.node(id).visible
    &&& b.parent_of(child) == Some(parent)
    &&& forall|id: NodeId| a.contains(id) && id != child ==> #[trigger] b.parent_of(id) == a.parent_of(id)
    &&& b.children_of(parent) == if a.children_of(parent).contains(child) {
        a.children_of(parent)
    } else {
        a.children_of(parent).push(child)
    }
    &&& forall|id: NodeId|
        a.contains(id) && id != parent ==> #[trigger] b.children_of(id) == if a.parent_of(child) == Some(id) {
            without(a.children_of(id), child)
        } else {
            a.children_of(id)
        }
}

/// How the graph `b` relates to `a` after the subtree under `id` was removed.
pub open spec fn removed(a: SceneGraph, b: SceneGraph, id: NodeId) -> bool {
    &&& b.next_id() == a.next_id()
    &&& b.roots() == without(a.roots(), id)
    &&& forall|x: NodeId| #[trigger] b.contains(x) <==> (a.contains(x) && !a.descends(x, id))
    &&& forall|x: NodeId| #[trigger]
        b.contains(x) ==> b.node(x).id == a.node(x).id && b.node(x).name == a.node(x).name
            && b.node(x).visible == a.node(x).visible && b.parent_of(x) == a.parent_of(x)
            && b.children_of(x) == if a.parent_of(id) == Some(x) {
            without(a.children_of(x), id)
        } else {
            a.children_of(x)
        }
}

/// The scene hierarchy. Ids are handed out in increasing order from 1 and never reused.
pub struct SceneGraph {
    /// Slot `i` holds the node with id `i`, if it exists; slot 0 stays empty.
    nodes: Vec<Option<SceneNode>>,
    root_nodes: Vec<NodeId>,
    /// Number of links from each slot's node up to its root.
    depth: Ghost<Seq<nat>>,
}

impl SceneGraph {
    /// Whether `id` names a node of the graph.
    pub closed spec fn contains(&self, id: NodeId) -> bool {
        (id.0 as int) < self.nodes@.len() && self.nodes@[id.0 as int] is Some
    }

    /// The node named `id` (meaningful where `contains(id)`).
    pub closed spec fn node(&self, id: NodeId) -> SceneNode {
        self.nodes@[id.0 as int]->Some_0
    }

    /// The parent link of the node named `id`.
    pub open spec fn parent_of(&self, id: NodeId) -> Option<NodeId> {
        self.node(id).parent
    }

    /// The children of the node named `id`, in order of attachment.
    pub open spec fn children_of(&self, id: NodeId) -> Seq<NodeId> {
        self.node(id).children@
    }

    /// The nodes without a parent, in order of creation.
    pub closed spec fn roots(&self) -> Seq<NodeId> {
        self.root_nodes@
    }

    /// The id that the next created node receives.
    pub closed spec fn next_id(&self) -> nat {
        self.nodes@.len()
    }

    /// Number of links from `id` up to its root.
    pub closed spec fn depth_of(&self, id: NodeId) -> nat {
        self.depth@[id.0 as int]
    }

    /// Whether `x` is `a` or lies below `a`.
    pub closed spec fn descends(&self, x: NodeId, a: NodeId) -> bool
        decreases self.depth_of(x),
    {
        if x == a {
            true
        } else if !self.contains(x) {
            false
        } else {
            match self.parent_of(x) {
                Some(p) => self.depth_of(p) < self.depth_of(x) && self.descends(p, a),
                None => false,
            }
        }
    }

    closed spec fn wf_slots(&self) -> bool {
        &&& 1 <= self.nodes@.len() <= u32::MAX as nat + 1
        &&& self.nodes@[0] is None
        &&& self.depth@.len() == self.nodes@.len()
        &&& forall|i: int|
            0 <= i < self.nodes@.len() && #[trigger] self.nodes@[i] is Some ==> self.nodes@[i]->Some_0.id
                == NodeId(i as u32)
    }

    closed spec fn wf_links(&self) -> bool {
        &&& forall|id: NodeId| #[trigger]
            self.contains(id) ==> match self.parent_of(id) {
                Some(p) => self.contains(p) && self.children_of(p).contains(id) && self.depth_of(id)
                    == self.depth_of(p) + 1,
                None => self.depth_of(id) == 0 && self.roots().contains(id),
            }
        &&& forall|id: NodeId, j: int|
            self.contains(id) && 0 <= j < self.children_of(id).len() ==> self.contains(
                #[trigger] self.children_of(id)[j],
            ) && self.parent_of(self.children_of(id)[j]) == Some(id)
        &&& forall|id: NodeId| #[trigger] self.contains(id) ==> self.children_of(id).no_duplicates()
    }

    closed spec fn wf_roots(&self) -> bool {
        &&& self.roots().no_duplicates()
        &&& forall|j: int|
            0 <= j < self.roots().len() ==> self.contains(#[trigger] self.roots()[j]) && self.parent_of(
                self.roots()[j],
            ) is None
    }

    /// The graph's invariant: links agree in both directions, every parentless
    /// node is a root, and following parents always ends at a root.
    pub closed spec fn wf(&self) -> bool {
        &&& self.wf_slots()
        &&& self.wf_links()
        &&& self.wf_roots()
    }

    /// An empty graph.
    pub fn new() -> (r: Self)
        ensures
            r.wf(),
            r.next_id() == 1,
            r.roots() == Seq::<NodeId>::empty(),
            forall|id: NodeId| !r.contains(id),
    {
        let mut nodes: Vec<Option<SceneNode>> = Vec::new();
        nodes.push(None);
        SceneGraph { nodes, root_nodes: Vec::new(), depth: Ghost(Seq::empty().push(0nat)) }
    }

    /// One step of `descends`: below a node with a parent, descent goes through that parent.
    pub proof fn lemma_descends_step(&self, x: NodeId, a: NodeId)
        requires
            self.wf(),
            self.contains(x),
            x != a,
        ensures
            self.descends(x, a) == match self.parent_of(x) {
                Some(p) => self.descends(p, a),
                None => false,
            },
    {
        if let Some(p) = self.parent_of(x) {
            assert(self.depth_of(x) == self.depth_of(p) + 1);
        }
    }

    /// Every node counts as descending from itself.
    pub proof fn lemma_descends_self(&self, x: NodeId)
        ensures
            self.descends(x, x),
    {
    }

    /// A node without parent descends only from itself.
    pub proof fn lemma_root_descends(&self, x: NodeId, a: NodeId)
        requires
            self.wf(),
            self.contains(x),
            self.parent_of(x) is None,
        ensures
            self.descends(x, a) <==> x == a,
    {
    }

    /// A node lies no higher than the nodes it descends from, and those exist.
    pub proof fn lemma_descends_depth(&self, x: NodeId, a: NodeId)
        requires
            self.wf(),
            self.contains(x),
            self.descends(x, a),
        ensures
            self.contains(a),
            self.depth_of(x) >= self.depth_of(a),
        decreases self.depth_of(x),
    {
        if x != a {
            let p = self.parent_of(x)->Some_0;
            assert(self.contains(p));
            self.lemma_descends_depth(p, a);
        }
    }

    /// Creates a node without parent, appended to the roots, and returns its id.
    pub fn create_node(&mut self, name: String) -> (r: NodeId)
        requires
            old(self).wf(),
            old(self).next_id() <= u32::MAX,
        ensures
            final(self).wf(),
            r == NodeId(old(self).next_id() as u32),
            final(self).next_id() == old(self).next_id() + 1,
            final(self).contains(r),
            final(self).node(r).id == r,
            final(self).node(r).name@ == name@,
            final(self).node(r).parent is None,
            final(self).node(r).children@ == Seq::<NodeId>::empty(),
            final(self).node(r).visible,
            final(self).roots() == old(self).roots().push(r),
            forall|id: NodeId| id != r ==> (final(self).contains(id) <==> old(self).contains(id)),
            forall|id: NodeId| #[trigger] old(self).contains(id) ==> final(self).node(id) == old(self).node(id),
            forall|x: NodeId, a: NodeId|
                old(self).contains(x) ==> (#[trigger] final(self).descends(x, a) <==> old(self).descends(x, a)),
    {
        let id = NodeId(self.nodes.len() as u32);
        let node = SceneNode { id, name, parent: None, children: Vec::new(), visible: true };
        self.nodes.push(Some(node));
        self.root_nodes.push(id);
        self.depth = Ghost(self.depth@.push(0));
        proof {
            let g = *old(self);
            assert(!g.contains(id));
            assert forall|x: NodeId| #[trigger] g.contains(x) implies self.contains(x) && self.node(x) == g.node(x)
                && self.depth_of(x) == g.depth_of(x) by {
                assert(self.nodes@[x.0 as int] == g.nodes@[x.0 as int]);
            }
            assert forall|x: NodeId, a: NodeId| g.contains(x) implies (#[trigger] self.descends(x, a) <==> g.descends(x, a)) by {
                self.lemma_descends_keep(g, x, a);
            }
            assert(self.roots().no_duplicates()) by {
                assert forall|j: int| 0 <= j < g.roots().len() implies g.roots()[j] != id by {
                    assert(g.contains(g.roots()[j]));
                }
            }
            assert forall|x: NodeId, j: int| self.contains(x) && 0 <= j < self.children_of(x).len()
                implies self.contains(#[trigger] self.children_of(x)[j]) && self.parent_of(self.children_of(x)[j]) == Some(x) by {
                if x != id {
                    assert(g.contains(g.children_of(x)[j]));
                }
            }
            assert forall|x: NodeId| #[trigger] self.contains(x) implies match self.parent_of(x) {
                Some(p) => self.contains(p) && self.children_of(p).contains(x) && self.depth_of(x) == self.depth_of(p) + 1,
                None => self.depth_of(x) == 0 && self.roots().contains(x),
            } by {
                if x == id {
                    assert(self.roots()[self.roots().len() - 1] == id);
                } else {
                    assert(g.contains(x));
                    if g.parent_of(x) is None {
                        let k = choose|k: int| 0 <= k < g.roots().len() && g.roots()[k] == x;
                        assert(self.roots()[k] == x);
                    }
                }
            }
        }
        id
    }

    /// `descends` from `x` is the same in `self` and in `g` where the two agree on
    /// every node that `g` holds.
    proof fn lemma_descends_keep(&self, g: SceneGraph, x: NodeId, a: NodeId)
        requires
            g.wf(),
            g.contains(x),
            forall|y: NodeId| #[trigger] g.contains(y) ==> self.contains(y) && self.node(y) == g.node(y)
                && self.depth_of(y) == g.depth_of(y),
        ensures
            self.descends(x, a) == g.descends(x, a),
        decreases g.depth_of(x),
    {
        if x != a {
            if let Some(p) = g.parent_of(x) {
                assert(g.contains(p));
                self.lemma_descends_keep(g, p, a);
            }
        }
    }

    /// The node named `id`, if it exists.
    pub fn get_node(&self, id: NodeId) -> (r: Option<&SceneNode>)
        requires
            self.wf(),
        ensures
            r is Some <==> self.contains(id),
            r is Some ==> *r->Some_0 == self.node(id),
    {
        if (id.0 as usize) < self.nodes.len() {
            match &self.nodes[id.0 as usize] {
                Some(n) => Some(n),
                None => None,
            }
        } else {
            None
        }
    }

    /// Whether another node can still get an id.
    pub fn can_create(&self) -> (r: bool)
        ensures
            r == (self.next_id() <= u32::MAX),
    {
        self.nodes.len() <= u32::MAX as usize
    }

    /// Whether `id` names a node of the graph.
    pub fn has_node(&self, id: NodeId) -> (r: bool)
        ensures
            r == self.contains(id),
    {
        (id.0 as usize) < self.nodes.len() && self.nodes[id.0 as usize].is_some()
    }

    /// The parent link of an existing node.
    fn parent_link(&self, id: NodeId) -> (r: Option<NodeId>)
        requires
            self.contains(id),
        ensures
            r == self.parent_of(id),
    {
        match &self.nodes[id.0 as usize] {
            Some(n) => n.parent,
            None => None,
        }
    }

    /// Whether `x` is `a` or lies below it, found by walking up from `x`.
    pub fn is_descendant(&self, x: NodeId, a: NodeId) -> (r: bool)
        requires
            self.wf(),
            self.contains(x),
        ensures
            r == self.descends(x, a),
    {
        let mut current = x;
        loop
            invariant
                self.wf(),
                self.contains(current),
                self.descends(x, a) == self.descends(current, a),
            decreases self.depth_of(current),
        {
            if current == a {
                return true;
            }
            proof {
                self.lemma_descends_step(current, a);
            }
            match self.parent_link(current) {
                Some(p) => {
                    proof {
                        assert(self.contains(p));
                    }
                    current = p;
                },
                None => {
                    return false;
                },
            }
        }
    }

    /// Whether putting `child` under `parent` would close a cycle.
    fn would_create_cycle(&self, child: NodeId, parent: NodeId) -> (r: bool)
        requires
            self.wf(),
            self.contains(parent),
        ensures
            r == self.descends(parent, child),
    {
        self.is_descendant(parent, child)
    }

    /// Takes the node out of its slot.
    fn take_node(&mut self, id: NodeId) -> (n: SceneNode)
        requires
            old(self).contains(id),
        ensures
            n == old(self).node(id),
            final(self).nodes@ == old(self).nodes@.update(id.0 as int, None),
            final(self).root_nodes == old(self).root_nodes,
            final(self).depth == old(self).depth,
    {
        let i = id.0 as usize;
        let n = self.nodes[i].take();
        n.unwrap()
    }

    /// Puts a node into the slot of `id`.
    fn put_node(&mut self, id: NodeId, n: SceneNode)
        requires
            (id.0 as int) < old(self).nodes@.len(),
        ensures
            final(self).nodes@ == old(self).nodes@.update(id.0 as int, Some(n)),
            final(self).root_nodes == old(self).root_nodes,
            final(self).depth == old(self).depth,
    {
        let i = id.0 as usize;
        self.nodes.set(i, Some(n));
    }

    /// Depths after `child`'s subtree moves under `parent`.
    closed spec fn relinked_depth(&self, child: NodeId, parent: NodeId) -> Seq<nat> {
        Seq::new(
            self.nodes@.len(),
            |k: int|
                if self.nodes@[k] is Some && self.descends(NodeId(k as u32), child) {
                    (self.depth@[k] + self.depth_of(parent) + 1 - self.depth_of(child)) as nat
                } else {
                    self.depth@[k]
                },
        )
    }

    /// Re-linking a child under a parent that does not lie below it keeps the graph well formed.
    proof fn lemma_parent_wf(a: SceneGraph, b: SceneGraph, child: NodeId, parent: NodeId)
        requires
            a.wf(),
            a.contains(child),
            a.contains(parent),
            !a.descends(parent, child),
            parented(a, b, child, parent),
            b.nodes@.len() == a.nodes@.len(),
            b.depth@ == a.relinked_depth(child, parent),
        ensures
            b.wf(),
    {
        let len = a.nodes@.len();
        assert forall|k: int| 0 <= k < len implies (a.nodes@[k] is Some <==> a.contains(NodeId(k as u32)))
            && (b.nodes@[k] is Some <==> b.contains(NodeId(k as u32))) by {}
        assert(!a.contains(NodeId(0)));
        assert forall|i: int| 0 <= i < b.nodes@.len() && #[trigger] b.nodes@[i] is Some implies b.nodes@[i]->Some_0.id
            == NodeId(i as u32) by {
            assert(b.contains(NodeId(i as u32)));
            assert(a.nodes@[i] is Some);
        }
        assert forall|x: NodeId| #[trigger] a.contains(x) implies b.depth_of(x) == if a.descends(x, child) {
            (a.depth_of(x) + a.depth_of(parent) + 1 - a.depth_of(child)) as nat
        } else {
            a.depth_of(x)
        } by {
            assert(a.nodes@[x.0 as int] is Some);
            assert(NodeId(x.0 as int as u32) == x);
        }
        assert(a.descends(child, child));
        assert forall|x: NodeId| #[trigger] b.contains(x) implies match b.parent_of(x) {
            Some(p) => b.contains(p) && b.children_of(p).contains(x) && b.depth_of(x) == b.depth_of(p) + 1,
            None => b.depth_of(x) == 0 && b.roots().contains(x),
        } by {
            assert(a.contains(x));
            lemma_without(a.roots(), child);
            if x == child {
                assert(b.children_of(parent).contains(child)) by {
                    if !a.children_of(parent).contains(child) {
                        assert(b.children_of(parent)[b.children_of(parent).len() - 1] == child);
                    }
                }
            } else {
                a.lemma_descends_step(x, child);
                match a.parent_of(x) {
                    Some(q) => {
                        assert(a.contains(q));
                        assert(a.children_of(q).contains(x));
                        if q == parent {
                            if !a.children_of(parent).contains(child) {
                                let k = choose|k: int| 0 <= k < a.children_of(q).len() && a.children_of(q)[k] == x;
                                assert(b.children_of(q)[k] == x);
                            }
                        } else if a.parent_of(child) == Some(q) {
                            lemma_without(a.children_of(q), child);
                        }
                        if a.descends(x, child) {
                            a.lemma_descends_depth(x, child);
                            a.lemma_descends_depth(q, child);
                        }
                    },
                    None => {},
                }
            }
        }
        assert forall|x: NodeId, j: int| b.contains(x) && 0 <= j < b.children_of(x).len() implies b.contains(
            #[trigger] b.children_of(x)[j],
        ) && b.parent_of(b.children_of(x)[j]) == Some(x) by {
            let c = b.children_of(x)[j];
            assert(a.contains(x));
            if x == parent {
                if j < a.children_of(x).len() {
                    assert(a.contains(a.children_of(x)[j]));
                }
            } else if a.parent_of(child) == Some(x) {
                lemma_without(a.children_of(x), child);
                assert(b.children_of(x).contains(c));
                let k = choose|k: int| 0 <= k < a.children_of(x).len() && a.children_of(x)[k] == c;
                assert(a.contains(a.children_of(x)[k]));
            } else {
                assert(a.contains(a.children_of(x)[j]));
            }
        }
        assert forall|x: NodeId| #[trigger] b.contains(x) implies b.children_of(x).no_duplicates() by {
            assert(a.contains(x));
            if x == parent {
            } else if a.parent_of(child) == Some(x) {
                lemma_without(a.children_of(x), child);
            }
        }
        lemma_without(a.roots(), child);
        assert forall|j: int| 0 <= j < b.roots().len() implies b.contains(#[trigger] b.roots()[j]) && b.parent_of(
            b.roots()[j],
        ) is None by {
            let r = b.roots()[j];
            assert(b.roots().contains(r));
            let k = choose|k: int| 0 <= k < a.roots().len() && a.roots()[k] == r;
            assert(a.contains(a.roots()[k]));
        }
    }

    /// Puts `child` under `parent`.
    ///
    /// Refused with `NodeNotFound` where either node is missing, and with
    /// `CycleDetected` where `parent` is `child` or lies below it; a refused
    /// call changes nothing. Otherwise `child` leaves the roots and its former
    /// parent's children, and is appended to `parent`'s children unless already there.
    pub fn parent(&mut self, child_id: NodeId, parent_id: NodeId) -> (r: Result<(), SceneError>)
        requires
            old(self).wf(),
        ensures
            final(self).wf(),
            r is Ok <==> (old(self).contains(child_id) && old(self).contains(parent_id) && !old(self).descends(
                parent_id,
                child_id,
            )),
            (r == Err::<(), SceneError>(SceneError::NodeNotFound)) <==> !(old(self).contains(child_id)
                && old(self).contains(parent_id)),
            (r == Err::<(), SceneError>(SceneError::CycleDetected)) <==> (old(self).contains(child_id)
                && old(self).contains(parent_id) && old(self).descends(parent_id, child_id)),
            r is Err ==> *final(self) == *old(self),
            r is Ok ==> parented(*old(self), *final(self), child_id, parent_id),
    {
        if !self.has_node(child_id) {
            return Err(SceneError::NodeNotFound);
        }
        if !self.has_node(parent_id) {
            return Err(SceneError::NodeNotFound);
        }
        if self.would_create_cycle(child_id, parent_id) {
            return Err(SceneError::CycleDetected);
        }
        let ghost a = *self;
        self.root_nodes = remove_id(&self.root_nodes, child_id);
        let old_parent = self.parent_link(child_id);
        match old_parent {
            Some(old_id) => {
                if old_id != parent_id {
                    proof {
                        assert(a.contains(old_id));
                    }
                    let mut q = self.take_node(old_id);
                    q.children = remove_id(&q.children, child_id);
                    self.put_node(old_id, q);
                }
            },
            None => {},
        }
        let mut c = self.take_node(child_id);
        c.parent = Some(parent_id);
        self.put_node(child_id, c);
        let mut p = self.take_node(parent_id);
        if !has_id(&p.children, child_id) {
            p.children.push(child_id);
        }
        self.put_node(parent_id, p);
        self.depth = Ghost(a.relinked_depth(child_id, parent_id));
        proof {
            let b = *self;
            assert forall|id: NodeId| b.contains(id) <==> a.contains(id) by {
                if (id.0 as int) < a.nodes@.len() {
                    assert(b.nodes@[id.0 as int] is Some <==> a.nodes@[id.0 as int] is Some);
                }
            }
            assert(parented(a, b, child_id, parent_id));
            Self::lemma_parent_wf(a, b, child_id, parent_id);
        }
        Ok(())
    }

    /// Dropping a whole subtree keeps the graph well formed.
    proof fn lemma_remove_wf(a: SceneGraph, b: SceneGraph, id: NodeId)
        requires
            a.wf(),
            a.contains(id),
            removed(a, b, id),
            b.nodes@.len() == a.nodes@.len(),
            b.depth == a.depth,
        ensures
            b.wf(),
    {
        let len = a.nodes@.len();
        assert forall|k: int| 0 <= k < len implies (a.nodes@[k] is Some <==> a.contains(NodeId(k as u32)))
            && (b.nodes@[k] is Some <==> b.contains(NodeId(k as u32))) by {}
        assert(!a.contains(NodeId(0)));
        assert forall|i: int| 0 <= i < b.nodes@.len() && #[trigger] b.nodes@[i] is Some implies b.nodes@[i]->Some_0.id
            == NodeId(i as u32) by {
            assert(b.contains(NodeId(i as u32)));
            assert(a.nodes@[i] is Some);
        }
        assert forall|x: NodeId| #[trigger] a.contains(x) implies b.depth_of(x) == a.depth_of(x) by {}
        // a child of a removed node is removed
        assert forall|x: NodeId, c: NodeId|
            a.contains(x) && a.contains(c) && a.parent_of(c) == Some(x) && #[trigger] a.descends(x, id)
                implies #[trigger] a.descends(c, id) by {
            if c != id {
                a.lemma_descends_step(c, id);
            }
        }
        lemma_without(a.roots(), id);
        if let Some(p) = a.parent_of(id) {
            lemma_without(a.children_of(p), id);
        }
        assert forall|x: NodeId| #[trigger] b.contains(x) implies match b.parent_of(x) {
            Some(p) => b.contains(p) && b.children_of(p).contains(x) && b.depth_of(x) == b.depth_of(p) + 1,
            None => b.depth_of(x) == 0 && b.roots().contains(x),
        } by {
            assert(a.contains(x));
            assert(!a.descends(x, id));
            match a.parent_of(x) {
                Some(p) => {
                    assert(a.contains(p));
                    a.lemma_descends_step(x, id);
                    assert(!a.descends(p, id));
                    if a.parent_of(id) == Some(p) {
                        lemma_without(a.children_of(p), id);
                    }
                },
                None => {},
            }
        }
        assert forall|x: NodeId, j: int| b.contains(x) && 0 <= j < b.children_of(x).len() implies b.contains(
            #[trigger] b.children_of(x)[j],
        ) && b.parent_of(b.children_of(x)[j]) == Some(x) by {
            let c = b.children_of(x)[j];
            assert(a.contains(x));
            assert(!a.descends(x, id));
            assert(a.children_of(x).contains(c)) by {
                if a.parent_of(id) == Some(x) {
                    lemma_without(a.children_of(x), id);
                    assert(b.children_of(x).contains(c));
                }
            }
            let k = choose|k: int| 0 <= k < a.children_of(x).len() && a.children_of(x)[k] == c;
            assert(a.contains(a.children_of(x)[k]));
            if c == id {
                lemma_without(a.children_of(x), id);
                assert(b.children_of(x).contains(c));
            } else {
                a.lemma_descends_step(c, id);
            }
        }
        assert forall|x: NodeId| #[trigger] b.contains(x) implies b.children_of(x).no_duplicates() by {
            assert(a.contains(x));
            if a.parent_of(id) == Some(x) {
                lemma_without(a.children_of(x), id);
            }
        }
        assert forall|j: int| 0 <= j < b.roots().len() implies b.contains(#[trigger] b.roots()[j]) && b.parent_of(
            b.roots()[j],
        ) is None by {
            let r = b.roots()[j];
            assert(b.roots().contains(r));
            let k = choose|k: int| 0 <= k < a.roots().len() && a.roots()[k] == r;
            assert(a.contains(a.roots()[k]));
        }
    }

    /// Removes a node together with everything below it, detaching it from its
    /// parent or from the roots. Returns the removed node itself, or `None`
    /// (changing nothing) where `node_id` is not in the graph.
    pub fn remove_node(&mut self, node_id: NodeId) -> (r: Option<SceneNode>)
        requires
            old(self).wf(),
        ensures
            final(self).wf(),
            r is Some <==> old(self).contains(node_id),
            r is Some ==> r->Some_0 == old(self).node(node_id),
            r is None ==> *final(self) == *old(self),
            r is Some ==> removed(*old(self), *final(self), node_id),
    {
        if !self.has_node(node_id) {
            return None;
        }
        let ghost a = *self;
        let n = self.nodes.len();
        let mut doomed: Vec<bool> = Vec::new();
        let mut k: usize = 0;
        while k < n
            invariant
                *self == a,
                a.wf(),
                n == a.nodes@.len(),
                k <= n,
                doomed@.len() == k,
                forall|j: int| 0 <= j < k ==> doomed@[j] == (a.nodes@[j] is Some && a.descends(NodeId(j as u32), node_id)),
            decreases n - k,
        {
            let d = self.nodes[k].is_some() && self.is_descendant(NodeId(k as u32), node_id);
            doomed.push(d);
            k += 1;
        }
        let parent = self.parent_link(node_id);
        match parent {
            Some(p) => {
                proof {
                    assert(a.contains(p));
                }
                let mut pn = self.take_node(p);
                pn.children = remove_id(&pn.children, node_id);
                self.put_node(p, pn);
            },
            None => {},
        }
        self.root_nodes = remove_id(&self.root_nodes, node_id);
        let removed_node = self.take_node(node_id);
        let ghost m = *self;
        k = 0;
        while k < n
            invariant
                n == a.nodes@.len(),
                k <= n,
                doomed@.len() == n,
                self.nodes@.len() == n,
                self.root_nodes == m.root_nodes,
                self.depth == m.depth,
                m.nodes@.len() == n,
                forall|j: int| 0 <= j < n ==> #[trigger] self.nodes@[j] == if j < k && doomed@[j] {
                    None
                } else {
                    m.nodes@[j]
                },
            decreases n - k,
        {
            if doomed[k] {
                self.nodes.set(k, None);
            }
            k += 1;
        }
        proof {
            let b = *self;
            assert(a.descends(node_id, node_id));
            if let Some(p) = a.parent_of(node_id) {
                assert(a.contains(p));
                if a.descends(p, node_id) {
                    a.lemma_descends_depth(p, node_id);
                }
            }
            assert forall|x: NodeId| #[trigger] b.contains(x) <==> (a.contains(x) && !a.descends(x, node_id)) by {
                if (x.0 as int) < n {
                    assert(a.nodes@[x.0 as int] is Some <==> a.contains(x));
                    assert(NodeId(x.0 as int as u32) == x);
                }
            }
            assert forall|x: NodeId| #[trigger] b.contains(x) implies b.node(x) == if a.parent_of(node_id) == Some(x) {
                SceneNode {
                    id: a.node(x).id,
                    name: a.node(x).name,
                    parent: a.node(x).parent,
                    children: b.node(x).children,
                    visible: a.node(x).visible,
                }
            } else {
                a.node(x)
            } by {
                assert(b.nodes@[x.0 as int] == m.nodes@[x.0 as int]);
            }
            assert(removed(a, b, node_id));
            Self::lemma_remove_wf(a, b, node_id);
        }
        Some(removed_node)
    }

    /// The node `k` links above `x` (or the topmost one, where the chain is shorter).
    closed spec fn ancestor(&self, x: NodeId, k: nat) -> NodeId
        decreases k,
    {
        if k == 0 {
            x
        } else {
            match self.parent_of(x) {
                Some(p) => self.ancestor(p, (k - 1) as nat),
                None => x,
            }
        }
    }

    /// The ancestors up to a node's depth exist, one level higher each.
    proof fn lemma_ancestor(&self, x: NodeId, k: nat)
        requires
            self.wf(),
            self.contains(x),
            k <= self.depth_of(x),
        ensures
            self.contains(self.ancestor(x, k)),
            self.depth_of(self.ancestor(x, k)) == self.depth_of(x) - k,
        decreases k,
    {
        if k > 0 {
            let p = self.parent_of(x)->Some_0;
            assert(self.contains(p));
            self.lemma_ancestor(p, (k - 1) as nat);
        }
    }

    /// Depths are bounded by the number of slots: the ancestors of a node are
    /// distinct nodes, one for each depth.
    proof fn lemma_depth_bound(&self, x: NodeId)
        requires
            self.wf(),
            self.contains(x),
        ensures
            self.depth_of(x) < self.nodes@.len(),
    {
        let d = self.depth_of(x);
        let len = self.nodes@.len() as int;
        let anc = Seq::new(d + 1, |k: int| self.ancestor(x, k as nat).0 as int);
        assert forall|k: int| 0 <= k <= d implies self.contains(#[trigger] self.ancestor(x, k as nat))
            && self.depth_of(self.ancestor(x, k as nat)) == d - k by {
            self.lemma_ancestor(x, k as nat);
        }
        assert(anc.no_duplicates()) by {
            assert forall|i: int, j: int| 0 <= i < anc.len() && 0 <= j < anc.len() && i != j implies anc[i]
                != anc[j] by {
                let ai = self.ancestor(x, i as nat);
                let aj = self.ancestor(x, j as nat);
                if ai.0 == aj.0 {
                    assert(ai == aj);
                }
            }
        }
        anc.unique_seq_to_set();
        assert(anc.to_set().subset_of(set_int_range(1, len))) by {
            assert forall|v: int| anc.to_set().contains(v) implies set_int_range(1, len).contains(v) by {
                let k = choose|k: int| 0 <= k < anc.len() && anc[k] == v;
                let a = self.ancestor(x, k as nat);
                assert(self.contains(a));
                if a.0 == 0 {
                    assert(a == NodeId(0));
                }
            }
        }
        lemma_int_range(1, len);
        lemma_len_subset(anc.to_set(), set_int_range(1, len));
    }

    /// Whether the walk takes `x` (and may go below it): always where `all`;
    /// otherwise only a visible node that is not in `hidden`.
    pub open spec fn takes(&self, x: NodeId, hidden: Seq<NodeId>, all: bool) -> bool {
        all || (self.node(x).visible && !hidden.contains(x))
    }

    /// Pre-order walk of the subtree under `x`, skipping every node that is not
    /// taken together with everything below it.
    pub closed spec fn walk_from(&self, x: NodeId, hidden: Seq<NodeId>, all: bool) -> Seq<NodeId>
        decreases self.next_id() - self.depth_of(x), 1int, 0int,
        via Self::walk_from_decreases
    {
        if !self.wf() || !self.contains(x) || !self.takes(x, hidden, all) {
            Seq::empty()
        } else {
            seq![x] + self.walk_children(x, self.children_of(x).len() as int, hidden, all)
        }
    }

    /// The walks under the first `k` children of `x`, one after another.
    pub closed spec fn walk_children(&self, x: NodeId, k: int, hidden: Seq<NodeId>, all: bool) -> Seq<NodeId>
        decreases self.next_id() - self.depth_of(x), 0int, k,
        via Self::walk_children_decreases
    {
        if !self.wf() || !self.contains(x) || k <= 0 || k > self.children_of(x).len() {
            Seq::empty()
        } else {
            self.walk_children(x, k - 1, hidden, all) + self.walk_from(self.children_of(x)[k - 1], hidden, all)
        }
    }

    #[via_fn]
    proof fn walk_from_decreases(&self, x: NodeId, hidden: Seq<NodeId>, all: bool) {
        if self.wf() && self.contains(x) {
            self.lemma_depth_bound(x);
        }
    }

    #[via_fn]
    proof fn walk_children_decreases(&self, x: NodeId, k: int, hidden: Seq<NodeId>, all: bool) {
        if self.wf() && self.contains(x) && 0 < k <= self.children_of(x).len() {
            let c = self.children_of(x)[k - 1];
            assert(self.contains(c));
            self.lemma_depth_bound(x);
            self.lemma_depth_bound(c);
        }
    }

    /// The walks from the first `k` roots, one after another.
    pub closed spec fn walk_roots(&self, k: int, hidden: Seq<NodeId>, all: bool) -> Seq<NodeId>
        decreases k,
    {
        if k <= 0 || k > self.roots().len() {
            Seq::empty()
        } else {
            self.walk_roots(k - 1, hidden, all) + self.walk_from(self.roots()[k - 1], hidden, all)
        }
    }

    /// The whole walk, root after root in order of creation.
    pub open spec fn walk(&self, hidden: Seq<NodeId>, all: bool) -> Seq<NodeId> {
        self.walk_roots(self.roots().len() as int, hidden, all)
    }

    /// The node links of an existing node.
    fn node_ref(&self, id: NodeId) -> (r: &SceneNode)
        requires
            self.contains(id),
        ensures
            *r == self.node(id),
    {
        self.nodes[id.0 as usize].as_ref().unwrap()
    }

    /// Appends the walk of the subtree under `x` to `out`.
    fn walk_into(&self, x: NodeId, hidden: &Vec<NodeId>, all: bool, out: &mut Vec<NodeId>)
        requires
            self.wf(),
            self.contains(x),
        ensures
            final(out)@ == old(out)@ + self.walk_from(x, hidden@, all),
        decreases self.next_id() - self.depth_of(x), 1int, 0int,
    {
        let node = self.node_ref(x);
        if all || (node.visible && !has_id(hidden, x)) {
            out.push(x);
            proof {
                self.lemma_depth_bound(x);
            }
            let ghost start = out@;
            let mut i: usize = 0;
            while i < node.children.len()
                invariant
                    self.wf(),
                    self.contains(x),
                    *node == self.node(x),
                    self.depth_of(x) < self.nodes@.len(),
                    i <= node.children@.len(),
                    out@ == start + self.walk_children(x, i as int, hidden@, all),
                decreases node.children@.len() - i,
            {
                let c = node.children[i];
                proof {
                    assert(self.contains(c));
                    self.lemma_depth_bound(c);
                }
                self.walk_into(c, hidden, all, out);
                i += 1;
                proof {
                    assert(out@ =~= start + self.walk_children(x, i as int, hidden@, all));
                }
            }
            proof {
                assert(out@ =~= old(out)@ + self.walk_from(x, hidden@, all));
            }
        } else {
            assert(out@ =~= old(out)@ + self.walk_from(x, hidden@, all));
        }
    }

    /// The walk from every root, in order.
    fn walk_all(&self, hidden: &Vec<NodeId>, all: bool) -> (r: Vec<NodeId>)
        requires
            self.wf(),
        ensures
            r@ == self.walk(hidden@, all),
    {
        let mut out: Vec<NodeId> = Vec::new();
        let mut i: usize = 0;
        while i < self.root_nodes.len()
            invariant
                self.wf(),
                i <= self.roots().len(),
                out@ == self.walk_roots(i as int, hidden@, all),
            decreases self.roots().len() - i,
        {
            let r = self.root_nodes[i];
            proof {
                assert(self.contains(self.roots()[i as int]));
            }
            self.walk_into(r, hidden, all, &mut out);
            i += 1;
        }
        out
    }

    /// Every node, each after its parent: the roots in order of creation, each
    /// followed by its subtree in pre-order. World transforms are computed in this order.
    pub fn topdown_order(&self) -> (r: Vec<NodeId>)
        requires
            self.wf(),
        ensures
            r@ == self.walk(Seq::empty(), true),
    {
        let none: Vec<NodeId> = Vec::new();
        self.walk_all(&none, true)
    }

    /// The nodes to draw, in drawing order: the pre-order walk from the roots
    /// that skips every node that is not visible or is listed in `hidden`,
    /// together with its whole subtree.
    pub fn visible_nodes(&self, hidden: &Vec<NodeId>) -> (r: Vec<NodeId>)
        requires
            self.wf(),
        ensures
            r@ == self.walk(hidden@, false),
    {
        self.walk_all(hidden, false)
    }

    /// Shows or hides a node and its subtree. Returns whether the node exists;
    /// nothing changes where it does not.
    pub fn set_visible(&mut self, id: NodeId, visible: bool) -> (r: bool)
        requires
            old(self).wf(),
        ensures
            final(self).wf(),
            r == old(self).contains(id),
            !r ==> *final(self) == *old(self),
            r ==> final(self).node(id).visible == visible,
            r ==> final(self).roots() == old(self).roots() && final(self).next_id() == old(self).next_id(),
            r ==> forall|x: NodeId| #[trigger] final(self).contains(x) <==> old(self).contains(x),
            r ==> final(self).node(id).id == old(self).node(id).id && final(self).node(id).name == old(self).node(
                id,
            ).name && final(self).parent_of(id) == old(self).parent_of(id) && final(self).children_of(id)
                == old(self).children_of(id),
            r ==> forall|x: NodeId| #[trigger] old(self).contains(x) && x != id ==> final(self).node(x) == old(self).node(x),
    {
        if !self.has_node(id) {
            return false;
        }
        let ghost a = *self;
        let mut n = self.take_node(id);
        n.visible = visible;
        self.put_node(id, n);
        proof {
            let b = *self;
            assert forall|x: NodeId| #[trigger] b.contains(x) <==> a.contains(x) by {}
            assert forall|x: NodeId| #[trigger] a.contains(x) implies b.parent_of(x) == a.parent_of(x)
                && b.children_of(x) == a.children_of(x) && b.depth_of(x) == a.depth_of(x) by {}
            assert forall|i: int| 0 <= i < b.nodes@.len() && #[trigger] b.nodes@[i] is Some implies b.nodes@[i]->Some_0.id
                == NodeId(i as u32) by {
                assert(a.nodes@[i] is Some);
            }
            assert forall|x: NodeId, j: int| b.contains(x) && 0 <= j < b.children_of(x).len() implies b.contains(
                #[trigger] b.children_of(x)[j],
            ) && b.parent_of(b.children_of(x)[j]) == Some(x) by {
                assert(a.contains(a.children_of(x)[j]));
            }
            assert forall|j: int| 0 <= j < b.roots().len() implies b.contains(#[trigger] b.roots()[j]) && b.parent_of(
                b.roots()[j],
            ) is None by {
                assert(a.contains(a.roots()[j]));
            }
            assert forall|x: NodeId| #[trigger] b.contains(x) implies match b.parent_of(x) {
                Some(p) => b.contains(p) && b.children_of(p).contains(x) && b.depth_of(x) == b.depth_of(p) + 1,
                None => b.depth_of(x) == 0 && b.roots().contains(x),
            } by {
                assert(a.contains(x));
                if let Some(p) = a.parent_of(x) {
                    assert(a.contains(p));
                }
            }
        }
        true
    }

    /// Every node on the way up from `y` to `r` is taken by the walk that skips
    /// invisible and hidden nodes.
    closed spec fn kept_path(&self, y: NodeId, r: NodeId, hidden: Seq<NodeId>) -> bool
        decreases self.depth_of(y),
    {
        self.takes(y, hidden, false) && (y == r || match self.parent_of(y) {
            Some(p) => self.depth_of(p) < self.depth_of(y) && self.kept_path(p, r, hidden),
            None => false,
        })
    }

    /// A taken path up to a child extends to its taken parent.
    proof fn lemma_kept_path_extend(&self, y: NodeId, c: NodeId, x: NodeId, hidden: Seq<NodeId>)
        requires
            self.wf(),
            self.contains(y),
            self.contains(c),
            self.parent_of(c) == Some(x),
            self.takes(x, hidden, false),
            self.kept_path(y, c, hidden),
        ensures
            self.kept_path(y, x, hidden),
        decreases self.depth_of(y),
    {
        if y != x && y != c {
            let p = self.parent_of(y)->Some_0;
            assert(self.contains(p));
            self.lemma_kept_path_extend(p, c, x, hidden);
        }
        if y == c && y != x {
            assert(self.contains(x));
            assert(self.depth_of(c) == self.depth_of(x) + 1);
        }
    }

    /// Every node in the walk under `x` is reached through taken nodes only.
    proof fn lemma_walk_from_kept(&self, x: NodeId, hidden: Seq<NodeId>, y: NodeId)
        requires
            self.wf(),
            self.contains(x),
            self.walk_from(x, hidden, false).contains(y),
        ensures
            self.contains(y),
            self.kept_path(y, x, hidden),
        decreases self.next_id() - self.depth_of(x), 1int, 0int,
    {
        self.lemma_depth_bound(x);
        let n = self.children_of(x).len() as int;
        let w = self.walk_children(x, n, hidden, false);
        assert(self.walk_from(x, hidden, false) == seq![x] + w);
        if y != x {
            let k = choose|k: int| 0 <= k < (seq![x] + w).len() && (seq![x] + w)[k] == y;
            assert(w[k - 1] == y);
            self.lemma_walk_children_kept(x, n, hidden, y);
        }
    }

    /// Every node in the walks under the first `k` children of `x` is reached through taken nodes only.
    proof fn lemma_walk_children_kept(&self, x: NodeId, k: int, hidden: Seq<NodeId>, y: NodeId)
        requires
            self.wf(),
            self.contains(x),
            self.takes(x, hidden, false),
            self.walk_children(x, k, hidden, false).contains(y),
        ensures
            self.contains(y),
            self.kept_path(y, x, hidden),
        decreases self.next_id() - self.depth_of(x), 0int, k,
    {
        let w1 = self.walk_children(x, k - 1, hidden, false);
        let c = self.children_of(x)[k - 1];
        let w2 = self.walk_from(c, hidden, false);
        assert(self.walk_children(x, k, hidden, false) == w1 + w2);
        let i = choose|i: int| 0 <= i < (w1 + w2).len() && (w1 + w2)[i] == y;
        if i < w1.len() {
            assert(w1[i] == y);
            self.lemma_walk_children_kept(x, k - 1, hidden, y);
        } else {
            assert(w2[i - w1.len()] == y);
            assert(self.contains(c));
            self.lemma_depth_bound(x);
            self.lemma_depth_bound(c);
            self.lemma_walk_from_kept(c, hidden, y);
            self.lemma_kept_path_extend(y, c, x, hidden);
        }
    }

    /// On a taken path up to a root, every node that `y` descends from is taken.
    proof fn lemma_kept_path_takes(&self, y: NodeId, r: NodeId, a: NodeId, hidden: Seq<NodeId>)
        requires
            self.wf(),
            self.contains(y),
            self.parent_of(r) is None,
            self.kept_path(y, r, hidden),
            self.descends(y, a),
        ensures
            self.takes(a, hidden, false),
        decreases self.depth_of(y),
    {
        if y != a {
            self.lemma_descends_step(y, a);
            let p = self.parent_of(y)->Some_0;
            assert(self.contains(p));
            self.lemma_kept_path_takes(p, r, a, hidden);
        }
    }

    /// Every node in the walk from the roots is reached from a root through taken nodes only.
    proof fn lemma_walk_roots_kept(&self, k: int, hidden: Seq<NodeId>, y: NodeId)
        requires
            self.wf(),
            self.walk_roots(k, hidden, false).contains(y),
        ensures
            self.contains(y),
            exists|r: NodeId| #[trigger] self.kept_path(y, r, hidden) && self.contains(r) && self.parent_of(r) is None,
        decreases k,
    {
        let w1 = self.walk_roots(k - 1, hidden, false);
        let r = self.roots()[k - 1];
        let w2 = self.walk_from(r, hidden, false);
        let i = choose|i: int| 0 <= i < (w1 + w2).len() && (w1 + w2)[i] == y;
        if i < w1.len() {
            assert(w1[i] == y);
            self.lemma_walk_roots_kept(k - 1, hidden, y);
        } else {
            assert(w2[i - w1.len()] == y);
            assert(self.contains(r));
            self.lemma_walk_from_kept(r, hidden, y);
        }
    }

    /// Every node to draw is a node of the graph.
    pub proof fn lemma_drawn_exist(&self, hidden: Seq<NodeId>, y: NodeId)
        requires
            self.wf(),
            self.walk(hidden, false).contains(y),
        ensures
            self.contains(y),
    {
        self.lemma_walk_roots_kept(self.roots().len() as int, hidden, y);
    }

    /// A node that is not visible, or is listed in `hidden`, hides its whole
    /// subtree: nothing at or below it is among the nodes to draw.
    pub proof fn lemma_hidden_subtree(&self, hidden: Seq<NodeId>, a: NodeId, y: NodeId)
        requires
            self.wf(),
            self.contains(y),
            self.descends(y, a),
            !self.node(a).visible || hidden.contains(a),
        ensures
            !self.walk(hidden, false).contains(y),
    {
        if self.walk(hidden, false).contains(y) {
            self.lemma_walk_roots_kept(self.roots().len() as int, hidden, y);
            let r = choose|r: NodeId| #[trigger] self.kept_path(y, r, hidden) && self.contains(r) && self.parent_of(r) is None;
            self.lemma_kept_path_takes(y, r, a, hidden);
        }
    }

    /// A node put under a second node, after the second was put under a third,
    /// lies below the third; so the third cannot then be put under the first.
    pub proof fn lemma_chain_descends(
        g0: SceneGraph,
        g1: SceneGraph,
        g2: SceneGraph,
        a: NodeId,
        b: NodeId,
        c: NodeId,
    )
        requires
            g0.wf(),
            g1.wf(),
            g2.wf(),
            g0.contains(a),
            g0.contains(b),
            parented(g0, g1, b, a),
            g1.contains(c),
            parented(g1, g2, c, b),
        ensures
            g2.descends(c, a),
            g2.descends(b, a),
    {
        assert(g2.contains(b));
        assert(g2.contains(c));
        if b != c {
            assert(g2.parent_of(b) == g1.parent_of(b));
        } else {
            assert(g2.contains(g2.parent_of(c)->Some_0));
        }
        if b != a {
            g2.lemma_descends_step(b, a);
            assert(g2.contains(a));
        }
        if c != a {
            g2.lemma_descends_step(c, a);
        }
    }

    /// Removing a node removes it and each of its children.
    pub proof fn lemma_removal_cascades(a: SceneGraph, b: SceneGraph, id: NodeId)
        requires
            a.wf(),
            a.contains(id),
            removed(a, b, id),
        ensures
            !b.contains(id),
            forall|j: int| 0 <= j < a.children_of(id).len() ==> !b.contains(#[trigger] a.children_of(id)[j]),
            forall|x: NodeId| #[trigger] a.descends(x, id) ==> !b.contains(x),
    {
        assert(a.descends(id, id));
        assert forall|j: int| 0 <= j < a.children_of(id).len() implies !b.contains(#[trigger] a.children_of(id)[j]) by {
            let c = a.children_of(id)[j];
            assert(a.contains(c));
            if c != id {
                a.lemma_descends_step(c, id);
            }
        }
    }

    /// In the walk under `x`, every node other than `x` comes after its parent.
    proof fn lemma_walk_from_parent_first(&self, x: NodeId, hidden: Seq<NodeId>, all: bool, j: int)
        requires
            self.wf(),
            self.contains(x),
            0 <= j < self.walk_from(x, hidden, all).len(),
            self.walk_from(x, hidden, all)[j] != x,
        ensures
            ({
                let w = self.walk_from(x, hidden, all);
                self.contains(w[j]) && self.parent_of(w[j]) is Some && exists|i: int|
                    0 <= i < j && w[i] == self.parent_of(w[j])->Some_0
            }),
        decreases self.next_id() - self.depth_of(x), 1int, 0int,
    {
        self.lemma_depth_bound(x);
        let n = self.children_of(x).len() as int;
        let wc = self.walk_children(x, n, hidden, all);
        let w = self.walk_from(x, hidden, all);
        assert(w == seq![x] + wc);
        assert(w[j] == wc[j - 1]);
        self.lemma_walk_children_parent_first(x, n, hidden, all, j - 1);
        let y = w[j];
        let p = self.parent_of(y)->Some_0;
        if p == x {
            assert(w[0] == p);
        } else {
            let i = choose|i: int| 0 <= i < j - 1 && wc[i] == p;
            assert(w[i + 1] == p);
        }
    }

    /// In the walks under the first `k` children of `x`, every node comes after
    /// its parent, or its parent is `x`.
    proof fn lemma_walk_children_parent_first(&self, x: NodeId, k: int, hidden: Seq<NodeId>, all: bool, j: int)
        requires
            self.wf(),
            self.contains(x),
            0 <= j < self.walk_children(x, k, hidden, all).len(),
        ensures
            ({
                let w = self.walk_children(x, k, hidden, all);
                self.contains(w[j]) && self.parent_of(w[j]) is Some && (self.parent_of(w[j]) == Some(x)
                    || exists|i: int| 0 <= i < j && w[i] == self.parent_of(w[j])->Some_0)
            }),
        decreases self.next_id() - self.depth_of(x), 0int, k,
    {
        let w1 = self.walk_children(x, k - 1, hidden, all);
        let c = self.children_of(x)[k - 1];
        let w2 = self.walk_from(c, hidden, all);
        let w = self.walk_children(x, k, hidden, all);
        assert(w == w1 + w2);
        if j < w1.len() {
            assert(w[j] == w1[j]);
            self.lemma_walk_children_parent_first(x, k - 1, hidden, all, j);
            if self.parent_of(w1[j]) != Some(x) {
                let i = choose|i: int| 0 <= i < j && w1[i] == self.parent_of(w1[j])->Some_0;
                assert(w[i] == w1[i]);
            }
        } else {
            let j2 = j - w1.len();
            assert(w[j] == w2[j2]);
            assert(self.contains(c));
            self.lemma_depth_bound(x);
            self.lemma_depth_bound(c);
            if w2[j2] == c {
                assert(self.parent_of(c) == Some(x));
            } else {
                self.lemma_walk_from_parent_first(c, hidden, all, j2);
                let i2 = choose|i: int| 0 <= i < j2 && w2[i] == self.parent_of(w2[j2])->Some_0;
                assert(w[i2 + w1.len()] == w2[i2]);
            }
        }
    }

    proof fn lemma_walk_roots_parent_first(&self, k: int, hidden: Seq<NodeId>, all: bool, j: int)
        requires
            self.wf(),
            0 <= j < self.walk_roots(k, hidden, all).len(),
        ensures
            ({
                let w = self.walk_roots(k, hidden, all);
                self.parent_of(w[j]) matches Some(p) ==> exists|i: int| 0 <= i < j && w[i] == p
            }),
        decreases k,
    {
        let w1 = self.walk_roots(k - 1, hidden, all);
        let r = self.roots()[k - 1];
        let w2 = self.walk_from(r, hidden, all);
        let w = self.walk_roots(k, hidden, all);
        assert(w == w1 + w2);
        assert(self.contains(r));
        if j < w1.len() {
            assert(w[j] == w1[j]);
            self.lemma_walk_roots_parent_first(k - 1, hidden, all, j);
            if let Some(p) = self.parent_of(w1[j]) {
                let i = choose|i: int| 0 <= i < j && w1[i] == p;
                assert(w[i] == w1[i]);
            }
        } else {
            let j2 = j - w1.len();
            assert(w[j] == w2[j2]);
            if w2[j2] != r {
                self.lemma_walk_from_parent_first(r, hidden, all, j2);
                let i2 = choose|i: int| 0 <= i < j2 && w2[i] == self.parent_of(w2[j2])->Some_0;
                assert(w[i2 + w1.len()] == w2[i2]);
            }
        }
    }

    /// Parents come first: in any walk, and so in the order in which world
    /// transforms are computed, each node with a parent comes after that parent.
    pub proof fn lemma_parent_first(&self, hidden: Seq<NodeId>, all: bool, j: int)
        requires
            self.wf(),
            0 <= j < self.walk(hidden, all).len(),
        ensures
            self.parent_of(self.walk(hidden, all)[j]) matches Some(p) ==> exists|i: int|
                0 <= i < j && self.walk(hidden, all)[i] == p,
    {
        self.lemma_walk_roots_parent_first(self.roots().len() as int, hidden, all, j);
    }

    /// Below `x`, a node descends from some child of `x`.
    proof fn lemma_child_toward(&self, y: NodeId, x: NodeId) -> (c: NodeId)
        requires
            self.wf(),
            self.contains(y),
            self.descends(y, x),
            y != x,
        ensures
            self.contains(c),
            self.parent_of(c) == Some(x),
            self.descends(y, c),
        decreases self.depth_of(y),
    {
        self.lemma_descends_step(y, x);
        let p = self.parent_of(y)->Some_0;
        assert(self.contains(p));
        if p == x {
            y
        } else {
            let c = self.lemma_child_toward(p, x);
            if y != c {
                self.lemma_descends_step(y, c);
            }
            c
        }
    }

    /// The walks under the first `k` children of `x` hold the walk under each of them.
    proof fn lemma_walk_children_holds(&self, x: NodeId, k: int, hidden: Seq<NodeId>, all: bool, m: int, y: NodeId)
        requires
            self.wf(),
            self.contains(x),
            0 <= m < k <= self.children_of(x).len(),
            self.walk_from(self.children_of(x)[m], hidden, all).contains(y),
        ensures
            self.walk_children(x, k, hidden, all).contains(y),
        decreases k,
    {
        let w1 = self.walk_children(x, k - 1, hidden, all);
        let w2 = self.walk_from(self.children_of(x)[k - 1], hidden, all);
        assert(self.walk_children(x, k, hidden, all) == w1 + w2);
        if m < k - 1 {
            self.lemma_walk_children_holds(x, k - 1, hidden, all, m, y);
            let i = choose|i: int| 0 <= i < w1.len() && w1[i] == y;
            assert((w1 + w2)[i] == y);
        } else {
            let i = choose|i: int| 0 <= i < w2.len() && w2[i] == y;
            assert((w1 + w2)[i + w1.len()] == y);
        }
    }

    /// The complete walk under `x` holds every node below `x`.
    proof fn lemma_walk_from_complete(&self, x: NodeId, hidden: Seq<NodeId>, y: NodeId)
        requires
            self.wf(),
            self.contains(x),
            self.contains(y),
            self.descends(y, x),
        ensures
            self.walk_from(x, hidden, true).contains(y),
        decreases self.next_id() - self.depth_of(x),
    {
        self.lemma_depth_bound(x);
        let n = self.children_of(x).len() as int;
        let wc = self.walk_children(x, n, hidden, true);
        assert(self.walk_from(x, hidden, true) == seq![x] + wc);
        if y == x {
            assert((seq![x] + wc)[0] == x);
        } else {
            let c = self.lemma_child_toward(y, x);
            assert(self.children_of(x).contains(c));
            let m = choose|m: int| 0 <= m < n && self.children_of(x)[m] == c;
            self.lemma_depth_bound(c);
            self.lemma_walk_from_complete(c, hidden, y);
            self.lemma_walk_children_holds(x, n, hidden, true, m, y);
            let i = choose|i: int| 0 <= i < wc.len() && wc[i] == y;
            assert((seq![x] + wc)[i + 1] == y);
        }
    }

    /// The topmost node above `x` is a root that `x` descends from.
    proof fn lemma_root_above(&self, x: NodeId) -> (r: NodeId)
        requires
            self.wf(),
            self.contains(x),
        ensures
            self.contains(r),
            self.parent_of(r) is None,
            self.descends(x, r),
        decreases self.depth_of(x),
    {
        match self.parent_of(x) {
            None => x,
            Some(p) => {
                assert(self.contains(p));
                let r = self.lemma_root_above(p);
                if x != r {
                    self.lemma_descends_step(x, r);
                }
                r
            },
        }
    }

    proof fn lemma_walk_roots_holds(&self, k: int, hidden: Seq<NodeId>, all: bool, m: int, y: NodeId)
        requires
            self.wf(),
            0 <= m < k <= self.roots().len(),
            self.walk_from(self.roots()[m], hidden, all).contains(y),
        ensures
            self.walk_roots(k, hidden, all).contains(y),
        decreases k,
    {
        let w1 = self.walk_roots(k - 1, hidden, all);
        let w2 = self.walk_from(self.roots()[k - 1], hidden, all);
        if m < k - 1 {
            self.lemma_walk_roots_holds(k - 1, hidden, all, m, y);
            let i = choose|i: int| 0 <= i < w1.len() && w1[i] == y;
            assert((w1 + w2)[i] == y);
        } else {
            let i = choose|i: int| 0 <= i < w2.len() && w2[i] == y;
            assert((w1 + w2)[i + w1.len()] == y);
        }
    }

    /// The complete walk, the order of `topdown_order`, holds every node of the graph.
    pub proof fn lemma_topdown_complete(&self, y: NodeId)
        requires
            self.wf(),
            self.contains(y),
        ensures
            self.walk(Seq::empty(), true).contains(y),
    {
        let r = self.lemma_root_above(y);
        assert(self.roots().contains(r));
        let m = choose|m: int| 0 <= m < self.roots().len() && self.roots()[m] == r;
        self.lemma_walk_from_complete(r, Seq::empty(), y);
        self.lemma_walk_roots_holds(self.roots().len() as int, Seq::empty(), true, m, y);
    }
}

} // verus!
