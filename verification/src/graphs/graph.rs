use vstd::prelude::*;

use crate::errors::GraphError;

verus! {

/// A node value: a text label or an integer label. Two node values are the
/// same node exactly when their tags and payloads are equal.
#[derive(Debug)]
pub enum Node {
    Str(String),
    Int(i64),
}

/// The mathematical value of a [`Node`]: its label as a sequence of
/// characters or as an unbounded integer.
pub enum NodeView {
    Str(Seq<char>),
    Int(int),
}

impl View for Node {
    type V = NodeView;

    open spec fn view(&self) -> NodeView {
        match self {
            Node::Str(s) => NodeView::Str(s@),
            Node::Int(i) => NodeView::Int(*i as int),
        }
    }
}

impl PartialEq for Node {
    fn eq(&self, other: &Node) -> bool {
        match (self, other) {
            (Node::Str(a), Node::Str(b)) => *a == *b,
            (Node::Int(a), Node::Int(b)) => *a == *b,
            _ => false,
        }
    }
}

impl Eq for Node {}

impl vstd::std_specs::cmp::PartialEqSpecImpl for Node {
    open spec fn obeys_eq_spec() -> bool {
        true
    }

    open spec fn eq_spec(&self, other: &Node) -> bool {
        self@ == other@
    }
}

impl Clone for Node {
    fn clone(&self) -> (res: Node)
        ensures
            res@ == self@,
    {
        match self {
            Node::Str(s) => Node::Str(s.clone()),
            Node::Int(i) => Node::Int(*i),
        }
    }
}

/// True when every entry of `s` is a handle below `n`.
pub open spec fn in_range(s: Seq<usize>, n: int) -> bool {
    forall|k: int| 0 <= k < s.len() ==> (#[trigger] s[k]) < n
}

/// True when no handle occurs twice in `s`.
pub open spec fn no_dup(s: Seq<usize>) -> bool {
    forall|k: int, l: int| 0 <= k < l < s.len() ==> s[k] != s[l]
}

/// A sequence whose entries all lie below `n` cannot contain a handle at or
/// above `n`.
proof fn lemma_in_range_excludes(s: Seq<usize>, n: int, h: usize)
    requires
        in_range(s, n),
        h >= n,
    ensures
        !s.contains(h),
{
    if s.contains(h) {
        let k = choose|k: int| 0 <= k < s.len() && s[k] == h;
        assert(s[k] < n);
    }
}

/// Two well-formed stores with the same node table and the same adjacency
/// table hold exactly the same edges, whatever their attributes or names.
proof fn lemma_same_tables_same_edges(a: Graph, b: Graph)
    requires
        a.wf(),
        b.wf(),
        a.labels() == b.labels(),
        a.adj() == b.adj(),
    ensures
        forall|x: NodeView, y: NodeView| #[trigger] a.spec_has_edge(x, y) == b.spec_has_edge(x, y),
{
    assert forall|x: NodeView, y: NodeView|
        #[trigger] a.spec_has_edge(x, y) == b.spec_has_edge(x, y) by {
        assert forall|l: NodeView| a.spec_has_node(l) implies b.spec_has_node(l) && a.idx_of(l)
            == b.idx_of(l) by {
            a.lemma_idx_of(l);
            b.lemma_idx_of(l);
        }
        assert forall|l: NodeView| b.spec_has_node(l) implies a.spec_has_node(l) by {}
    }
}

/// Pushing a handle onto a list makes exactly that handle newly contained.
proof fn lemma_push_contains(s: Seq<usize>, v: usize, x: usize)
    ensures
        s.push(v).contains(x) == (s.contains(x) || x == v),
{
    if s.contains(x) {
        let k = choose|k: int| 0 <= k < s.len() && s[k] == x;
        assert(s.push(v)[k] == x);
    }
    if x == v {
        assert(s.push(v)[s.len() as int] == x);
    }
    if s.push(v).contains(x) {
        let k = choose|k: int| 0 <= k < s.push(v).len() && s.push(v)[k] == x;
        if k < s.len() {
            assert(s[k] == x);
        }
    }
}

/// `post` is `pre` with its single occurrence of `h` removed: one entry
/// shorter, holding the same handles otherwise, still duplicate-free.
pub open spec fn detached(pre: Seq<usize>, post: Seq<usize>, h: usize) -> bool {
    &&& post.len() == pre.len() - 1
    &&& !post.contains(h)
    &&& forall|x: usize| x != h ==> post.contains(x) == pre.contains(x)
    &&& no_dup(post)
    &&& forall|k: int| 0 <= k < post.len() ==> pre.contains(#[trigger] post[k])
}

/// `post` is `pre` with every occurrence of `from` replaced by `to`.
pub open spec fn rewritten(pre: Seq<usize>, post: Seq<usize>, from: usize, to: usize) -> bool {
    &&& post.len() == pre.len()
    &&& forall|k: int|
        0 <= k < pre.len() ==> (#[trigger] post[k]) == (if pre[k] == from {
            to
        } else {
            pre[k]
        })
}

/// Swap-removing the position that holds `h` from a duplicate-free list
/// detaches `h` from it.
proof fn lemma_swap_remove_detaches(pre: Seq<usize>, pos: int, h: usize)
    requires
        0 <= pos < pre.len(),
        pre[pos] == h,
        no_dup(pre),
    ensures
        detached(pre, pre.update(pos, pre.last()).drop_last(), h),
{
    let post = pre.update(pos, pre.last()).drop_last();
    assert forall|k: int| 0 <= k < post.len() implies pre.contains(#[trigger] post[k]) && post[k]
        != h by {
        if k == pos {
            assert(post[k] == pre[pre.len() - 1]);
            if post[k] == h && pos < pre.len() - 1 {
                assert(pre[pos] == pre[pre.len() - 1]);
                assert(false);
            }
        } else {
            assert(post[k] == pre[k]);
            if post[k] == h {
                assert(pre[k] == pre[pos]);
                assert(false);
            }
        }
    }
    assert(!post.contains(h)) by {
        if post.contains(h) {
            let k = choose|k: int| 0 <= k < post.len() && post[k] == h;
            assert(post[k] != h);
        }
    }
    assert forall|x: usize| x != h implies post.contains(x) == pre.contains(x) by {
        if pre.contains(x) {
            let k = choose|k: int| 0 <= k < pre.len() && pre[k] == x;
            assert(k != pos);
            if k == pre.len() - 1 {
                assert(post[pos] == x);
                assert(post.contains(x));
            } else {
                assert(post[k] == x);
                assert(post.contains(x));
            }
        }
        if post.contains(x) {
            let k = choose|k: int| 0 <= k < post.len() && post[k] == x;
            assert(pre.contains(post[k]));
        }
    }
    assert forall|k: int, l: int| 0 <= k < l < post.len() implies post[k] != post[l] by {
        let k2: int = if k == pos {
            pre.len() - 1
        } else {
            k
        };
        let l2: int = if l == pos {
            pre.len() - 1
        } else {
            l
        };
        assert(post[k] == pre[k2] && post[l] == pre[l2]);
        assert(k2 != l2);
    }
}

/// Replacing `from` by a handle not yet present keeps a list duplicate-free
/// and moves exactly that one membership.
proof fn lemma_rewritten_facts(pre: Seq<usize>, post: Seq<usize>, from: usize, to: usize)
    requires
        rewritten(pre, post, from, to),
        !pre.contains(to),
        from != to,
    ensures
        forall|x: usize|
            post.contains(x) == (if x == to {
                pre.contains(from)
            } else if x == from {
                false
            } else {
                pre.contains(x)
            }),
        no_dup(pre) ==> no_dup(post),
{
    assert forall|x: usize|
        post.contains(x) == (if x == to {
            pre.contains(from)
        } else if x == from {
            false
        } else {
            pre.contains(x)
        }) by {
        if post.contains(x) {
            let k = choose|k: int| 0 <= k < post.len() && post[k] == x;
            if pre[k] == from {
                assert(x == to);
                assert(pre.contains(from));
            } else {
                assert(pre.contains(x));
                if x == to {
                    assert(false);
                }
                assert(x != from || !pre.contains(from));
                if x == from {
                    assert(post[k] == to);
                    assert(false);
                }
            }
        }
        if x == to && pre.contains(from) {
            let k = choose|k: int| 0 <= k < pre.len() && pre[k] == from;
            assert(post[k] == to);
            assert(post.contains(x));
        }
        if x != to && x != from && pre.contains(x) {
            let k = choose|k: int| 0 <= k < pre.len() && pre[k] == x;
            assert(post[k] == x);
            assert(post.contains(x));
        }
    }
    if no_dup(pre) {
        assert forall|k: int, l: int| 0 <= k < l < post.len() implies post[k] != post[l] by {
            if post[k] == post[l] {
                if pre[k] == from && pre[l] == from {
                    assert(false);
                } else if pre[k] == from {
                    assert(pre[l] == to);
                    assert(pre.contains(to));
                    assert(false);
                } else if pre[l] == from {
                    assert(pre[k] == to);
                    assert(pre.contains(to));
                    assert(false);
                } else {
                    assert(pre[k] == pre[l]);
                    assert(false);
                }
            }
        }
    }
}

/// The position of `h` within `v`.
fn find_handle(v: &Vec<usize>, h: usize) -> (pos: usize)
    requires
        v@.contains(h),
    ensures
        pos < v@.len(),
        v@[pos as int] == h,
{
    let len = v.len();
    let mut i: usize = 0;
    while i < len
        invariant
            len == v@.len(),
            v@.contains(h),
            0 <= i <= len,
            forall|k: int| 0 <= k < i ==> v@[k] != h,
        decreases len - i,
    {
        if v[i] == h {
            return i;
        }
        i += 1;
    }
    proof {
        let k = choose|k: int| 0 <= k < v@.len() && v@[k] == h;
        assert(v@[k] != h);
    }
    0
}

/// No orphan references: every handle stored in any neighbor set of a
/// well-formed store is the handle of a live node.
pub proof fn lemma_no_orphan_references(g: Graph)
    requires
        g.wf(),
    ensures
        forall|i: int, k: int|
            0 <= i < g.adj().len() && 0 <= k < g.adj()[i].len() ==> (#[trigger] g.adj()[i][k])
                < g.n(),
{
    assert forall|i: int, k: int|
        0 <= i < g.adj().len() && 0 <= k < g.adj()[i].len() implies (#[trigger] g.adj()[i][k])
        < g.n() by {
        assert(in_range(g.adj()[i], g.n() as int));
    }
}

/// Whether one node is in another's neighbor set is symmetric: an edge has
/// no direction.
pub proof fn lemma_edge_symmetry(g: Graph, a: NodeView, b: NodeView)
    requires
        g.wf(),
    ensures
        g.spec_has_edge(a, b) == g.spec_has_edge(b, a),
{
    if g.spec_has_edge(a, b) {
        g.lemma_idx_of(a);
        g.lemma_idx_of(b);
        assert(g.spec_adjacent(g.idx_of(b), g.idx_of(a)));
    }
    if g.spec_has_edge(b, a) {
        g.lemma_idx_of(a);
        g.lemma_idx_of(b);
        assert(g.spec_adjacent(g.idx_of(a), g.idx_of(b)));
    }
}

/// Whether `v` holds the handle `h`.
fn contains_handle(v: &Vec<usize>, h: usize) -> (r: bool)
    ensures
        r == v@.contains(h),
{
    let len = v.len();
    let mut i: usize = 0;
    while i < len
        invariant
            len == v@.len(),
            0 <= i <= len,
            forall|k: int| 0 <= k < i ==> v@[k] != h,
        decreases len - i,
    {
        if v[i] == h {
            assert(v@.contains(h)) by {
                assert(v@[i as int] == h);
            }
            return true;
        }
        i += 1;
    }
    proof {
        if v@.contains(h) {
            let k = choose|k: int| 0 <= k < v@.len() && v@[k] == h;
            assert(v@[k] != h);
        }
    }
    false
}

/// An undirected graph: a table of node values addressed by dense handles,
/// a per-node attribute map, and a symmetric adjacency table.
///
/// Self-loop policy: an edge from a node to itself is permitted and records
/// the node's own handle exactly once in its neighbor set.
pub struct Graph {
    nodes: Vec<Node>,
    attr_list: Vec<Vec<(String, String)>>,
    adj_list: Vec<Vec<usize>>,
    name: String,
}

/// The labels of a sequence of node values, in order.
pub open spec fn views_of(ns: Seq<Node>) -> Seq<NodeView> {
    ns.map_values(|n: Node| n@)
}

/// The node table after one deduplicating insertion.
pub open spec fn insert_label(ls: Seq<NodeView>, v: NodeView) -> Seq<NodeView> {
    if ls.contains(v) {
        ls
    } else {
        ls.push(v)
    }
}

/// The node table after deduplicating insertion of `vs`, in order.
pub open spec fn insert_labels(ls: Seq<NodeView>, vs: Seq<NodeView>) -> Seq<NodeView>
    decreases vs.len(),
{
    if vs.len() == 0 {
        ls
    } else {
        insert_label(insert_labels(ls, vs.drop_last()), vs.last())
    }
}

/// Idempotent insertion at the level of the node table: inserting a label a
/// second time leaves the table exactly as the first insertion left it, so
/// no duplicate entry ever appears and the node count does not change.
pub proof fn lemma_insert_label_idempotent(ls: Seq<NodeView>, v: NodeView)
    ensures
        insert_label(insert_label(ls, v), v) == insert_label(ls, v),
{
    if !ls.contains(v) {
        assert(ls.push(v)[ls.len() as int] == v);
        assert(ls.push(v).contains(v));
    }
}

/// The mathematical value of one attribute map: its key/value pairs in order.
pub open spec fn attr_view(m: Seq<(String, String)>) -> Seq<(Seq<char>, Seq<char>)> {
    m.map_values(|p: (String, String)| (p.0@, p.1@))
}

impl Graph {
    /// The node labels, in handle order.
    pub closed spec fn labels(self) -> Seq<NodeView> {
        self.nodes@.map_values(|n: Node| n@)
    }

    /// The number of live nodes.
    pub closed spec fn n(self) -> nat {
        self.nodes@.len()
    }

    /// The adjacency table: for each handle, its neighbor handles.
    pub closed spec fn adj(self) -> Seq<Seq<usize>> {
        self.adj_list@.map_values(|v: Vec<usize>| v@)
    }

    /// The attribute table, in handle order.
    pub closed spec fn attrs(self) -> Seq<Seq<(Seq<char>, Seq<char>)>> {
        self.attr_list@.map_values(|m: Vec<(String, String)>| attr_view(m@))
    }

    /// The graph's name.
    pub closed spec fn spec_name(self) -> Seq<char> {
        self.name@
    }

    /// Well-formedness: the three tables are parallel, every stored handle is
    /// live, adjacency is symmetric and duplicate-free, and no two live nodes
    /// carry the same value.
    pub open spec fn wf(self) -> bool {
        &&& self.n() <= usize::MAX
        &&& self.adj().len() == self.n()
        &&& self.attrs().len() == self.n()
        &&& forall|i: int|
            0 <= i < self.n() ==> in_range(#[trigger] self.adj()[i], self.n() as int)
        &&& forall|i: int| 0 <= i < self.n() ==> no_dup(#[trigger] self.adj()[i])
        &&& forall|i: int, j: int|
            0 <= i < self.n() && 0 <= j < self.n() ==> ((#[trigger] self.adj()[i].contains(
                j as usize,
            )) <==> self.adj()[j].contains(i as usize))
        &&& forall|i: int, j: int|
            0 <= i < j < self.n() ==> self.labels()[i] != self.labels()[j]
    }

    /// Whether a node with label `l` is present.
    pub open spec fn spec_has_node(self, l: NodeView) -> bool {
        self.labels().contains(l)
    }

    /// The handle of the node labelled `l` (meaningful when present).
    pub open spec fn idx_of(self, l: NodeView) -> int {
        choose|i: int| 0 <= i < self.n() && self.labels()[i] == l
    }

    /// Whether the nodes at handles `i` and `j` are adjacent.
    pub open spec fn spec_adjacent(self, i: int, j: int) -> bool {
        &&& 0 <= i < self.n()
        &&& 0 <= j < self.n()
        &&& self.adj()[i].contains(j as usize)
    }

    /// Whether an edge joins the nodes labelled `a` and `b`.
    pub open spec fn spec_has_edge(self, a: NodeView, b: NodeView) -> bool {
        &&& self.spec_has_node(a)
        &&& self.spec_has_node(b)
        &&& self.spec_adjacent(self.idx_of(a), self.idx_of(b))
    }

    /// The label view lists one label per live node.
    pub proof fn lemma_view_lens(self)
        ensures
            self.labels().len() == self.n(),
    {
    }

    /// In a well-formed graph the handle of a present label is the unique
    /// position that carries it.
    pub proof fn lemma_idx_of(self, l: NodeView)
        requires
            self.wf(),
            self.spec_has_node(l),
        ensures
            0 <= self.idx_of(l) < self.n(),
            self.labels()[self.idx_of(l)] == l,
            forall|i: int| 0 <= i < self.n() && self.labels()[i] == l ==> i == self.idx_of(l),
    {
        assert(exists|i: int| 0 <= i < self.labels().len() && self.labels()[i] == l);
        assert forall|i: int|
            0 <= i < self.n() && self.labels()[i] == l implies i == self.idx_of(l) by {
            if i != self.idx_of(l) {
                assert(self.labels()[i] == self.labels()[self.idx_of(l)]);
            }
        }
    }

    /// The handle a node of the compacted store had before compaction:
    /// the node in the vacated slot is the one moved from the end.
    pub open spec fn pre_compaction_handle(k: int, rmi: int, lasti: int) -> int {
        if k == rmi {
            lasti
        } else {
            k
        }
    }

    /// After compaction that vacated slot `rmi` and moved the last node into
    /// it, the store holds exactly the old nodes but the removed one, and
    /// exactly the old edges not incident to it.
    proof fn lemma_compaction_semantics(self, g0: Graph, rmi: int)
        requires
            g0.wf(),
            0 <= rmi < g0.n(),
            self.n() == g0.n() - 1,
            self.labels() == g0.labels().update(rmi, g0.labels().last()).drop_last(),
            self.adj().len() == g0.n() - 1,
            self.attrs().len() == g0.n() - 1,
            forall|i: int|
                0 <= i < g0.n() - 1 ==> no_dup(#[trigger] self.adj()[i]) && in_range(
                    self.adj()[i],
                    g0.n() - 1,
                ),
            forall|i: int, j: int|
                0 <= i < g0.n() - 1 && 0 <= j < g0.n() - 1 ==> ((#[trigger] self.adj()[i].contains(
                    j as usize,
                )) <==> g0.adj()[Self::pre_compaction_handle(i, rmi, g0.n() - 1)].contains(
                    Self::pre_compaction_handle(j, rmi, g0.n() - 1) as usize,
                )),
        ensures
            self.wf(),
            !self.spec_has_node(g0.labels()[rmi]),
            forall|x: NodeView, y: NodeView|
                #[trigger] self.spec_has_edge(x, y) == (g0.spec_has_edge(x, y) && x
                    != g0.labels()[rmi] && y != g0.labels()[rmi]),
    {
        let n = g0.n() as int;
        let lasti = n - 1;
        let v = g0.labels()[rmi];
        assert forall|i: int| 0 <= i < n - 1 implies self.labels()[i] == g0.labels()[
            Self::pre_compaction_handle(i, rmi, lasti)
        ] by {}
        // the node table stays duplicate-free
        assert forall|i: int, j: int|
            0 <= i < j < self.n() implies self.labels()[i] != self.labels()[j] by {
            let i2 = Self::pre_compaction_handle(i, rmi, lasti);
            let j2 = Self::pre_compaction_handle(j, rmi, lasti);
            assert(i2 != j2);
            assert(g0.labels()[i2] != g0.labels()[j2]);
        }
        // adjacency stays symmetric
        assert forall|i: int, j: int|
            0 <= i < self.n() && 0 <= j < self.n() implies ((#[trigger] self.adj()[i].contains(
            j as usize,
        )) <==> self.adj()[j].contains(i as usize)) by {
            let i2 = Self::pre_compaction_handle(i, rmi, lasti);
            let j2 = Self::pre_compaction_handle(j, rmi, lasti);
            assert(g0.adj()[i2].contains(j2 as usize) <==> g0.adj()[j2].contains(i2 as usize));
        }
        assert(self.wf());
        // the removed value is gone
        assert(!self.spec_has_node(v)) by {
            if self.spec_has_node(v) {
                let i = choose|i: int| 0 <= i < self.n() && self.labels()[i] == v;
                let i2 = Self::pre_compaction_handle(i, rmi, lasti);
                assert(g0.labels()[i2] == g0.labels()[rmi]);
                assert(i2 != rmi ==> false);
            }
        }
        // every surviving label keeps its identity, with a relocated handle
        assert forall|l: NodeView| #[trigger]
            self.spec_has_node(l) implies g0.spec_has_node(l) && l != v
            && Self::pre_compaction_handle(self.idx_of(l), rmi, lasti) == g0.idx_of(l) by {
            self.lemma_idx_of(l);
            let i = self.idx_of(l);
            let i2 = Self::pre_compaction_handle(i, rmi, lasti);
            assert(g0.labels()[i2] == l);
            assert(g0.labels().contains(l));
            g0.lemma_idx_of(l);
        }
        assert forall|l: NodeView| g0.spec_has_node(l) && l != v implies #[trigger]
            self.spec_has_node(l) by {
            g0.lemma_idx_of(l);
            let k = g0.idx_of(l);
            assert(k != rmi);
            if k == lasti {
                assert(rmi != lasti);
                assert(self.labels()[rmi] == l);
            } else {
                assert(self.labels()[k] == l);
            }
        }
        // and exactly the edges away from the removed node survive
        assert forall|x: NodeView, y: NodeView|
            #[trigger] self.spec_has_edge(x, y) == (g0.spec_has_edge(x, y) && x != v && y
                != v) by {
            if self.spec_has_edge(x, y) {
                self.lemma_idx_of(x);
                self.lemma_idx_of(y);
                let ix = self.idx_of(x);
                let iy = self.idx_of(y);
                assert(g0.adj()[Self::pre_compaction_handle(ix, rmi, lasti)].contains(
                    Self::pre_compaction_handle(iy, rmi, lasti) as usize,
                ));
                assert(g0.spec_has_edge(x, y) && x != v && y != v);
            }
            if g0.spec_has_edge(x, y) && x != v && y != v {
                g0.lemma_idx_of(x);
                g0.lemma_idx_of(y);
                self.lemma_idx_of(x);
                self.lemma_idx_of(y);
                let ix = self.idx_of(x);
                let iy = self.idx_of(y);
                assert(Self::pre_compaction_handle(ix, rmi, lasti) == g0.idx_of(x));
                assert(Self::pre_compaction_handle(iy, rmi, lasti) == g0.idx_of(y));
                assert(self.adj()[ix].contains(iy as usize));
            }
        }
    }

    /// Create an empty graph.
    pub fn new() -> (g: Graph)
        ensures
            g.wf(),
            g.n() == 0,
            g.labels() == Seq::<NodeView>::empty(),
            g.adj() == Seq::<Seq<usize>>::empty(),
            g.attrs() == Seq::<Seq<(Seq<char>, Seq<char>)>>::empty(),
            g.spec_name() == Seq::<char>::empty(),
    {
        let g = Graph {
            nodes: Vec::new(),
            attr_list: Vec::new(),
            adj_list: Vec::new(),
            name: String::new(),
        };
        proof {
            assert(g.labels() =~= Seq::<NodeView>::empty());
            assert(g.adj() =~= Seq::<Seq<usize>>::empty());
            assert(g.attrs() =~= Seq::<Seq<(Seq<char>, Seq<char>)>>::empty());
        }
        g
    }

    /// The graph's name.
    pub fn name(&self) -> (r: &String)
        ensures
            r@ == self.spec_name(),
    {
        &self.name
    }

    /// Whether a node with this value is present.
    pub fn has_node(&self, node: &Node) -> (r: bool)
        ensures
            r == self.spec_has_node(node@),
    {
        let n = self.nodes.len();
        let mut i: usize = 0;
        while i < n
            invariant
                n == self.n(),
                0 <= i <= n,
                forall|k: int| 0 <= k < i ==> self.labels()[k] != node@,
            decreases n - i,
        {
            if self.nodes[i] == *node {
                assert(self.labels()[i as int] == node@);
                return true;
            }
            i += 1;
        }
        assert(!self.labels().contains(node@)) by {
            if self.labels().contains(node@) {
                let k = choose|k: int| 0 <= k < self.labels().len() && self.labels()[k] == node@;
                assert(self.labels()[k] != node@);
            }
        }
        false
    }

    /// The handle of a present node value.
    pub fn get_index(&self, node: &Node) -> (r: usize)
        requires
            self.wf(),
            self.spec_has_node(node@),
        ensures
            r < self.n(),
            self.labels()[r as int] == node@,
            r as int == self.idx_of(node@),
    {
        let n = self.nodes.len();
        let mut i: usize = 0;
        while i < n
            invariant
                n == self.n(),
                0 <= i <= n,
                self.wf(),
                self.spec_has_node(node@),
                forall|k: int| 0 <= k < i ==> self.labels()[k] != node@,
            decreases n - i,
        {
            if self.nodes[i] == *node {
                proof {
                    assert(self.labels()[i as int] == node@);
                    self.lemma_idx_of(node@);
                }
                return i;
            }
            i += 1;
        }
        proof {
            self.lemma_idx_of(node@);
            assert(self.labels()[self.idx_of(node@)] == node@);
            assert(false);
        }
        0
    }

    /// Insert a node value, deduplicating by value: the handle of the node
    /// already carrying this value is returned unchanged, otherwise a fresh
    /// handle is allocated with empty attribute and adjacency entries.
    /// Inserting never fails and never disturbs existing edges or attributes.
    pub fn add_node(&mut self, node: Node) -> (h: usize)
        requires
            old(self).wf(),
        ensures
            final(self).wf(),
            final(self).spec_name() == old(self).spec_name(),
            h < final(self).n(),
            final(self).labels()[h as int] == node@,
            final(self).spec_has_node(node@),
            h as int == final(self).idx_of(node@),
            old(self).n() <= final(self).n(),
            forall|i: int|
                0 <= i < old(self).n() ==> final(self).labels()[i] == old(self).labels()[i],
            forall|i: int| 0 <= i < old(self).n() ==> final(self).adj()[i] == old(self).adj()[i],
            forall|i: int|
                0 <= i < old(self).n() ==> final(self).attrs()[i] == old(self).attrs()[i],
            old(self).spec_has_node(node@) ==> {
                &&& h as int == old(self).idx_of(node@)
                &&& final(self).labels() == old(self).labels()
                &&& final(self).adj() == old(self).adj()
                &&& final(self).attrs() == old(self).attrs()
            },
            !old(self).spec_has_node(node@) ==> {
                &&& h as int == old(self).n()
                &&& final(self).labels() == old(self).labels().push(node@)
                &&& final(self).adj() == old(self).adj().push(Seq::<usize>::empty())
                &&& final(self).attrs() == old(self).attrs().push(
                    Seq::<(Seq<char>, Seq<char>)>::empty(),
                )
            },
            forall|x: NodeView, y: NodeView|
                #[trigger] final(self).spec_has_edge(x, y) == old(self).spec_has_edge(x, y),
    {
        if self.has_node(&node) {
            let h = self.get_index(&node);
            return h;
        }
        let h = self.nodes.len();
        self.nodes.push(node);
        self.adj_list.push(Vec::new());
        self.attr_list.push(Vec::new());
        let n_now = self.nodes.len();
        proof {
            let g0 = *old(self);
            let v = self.labels()[h as int];
            assert(self.n() == n_now);
            assert(self.labels() =~= g0.labels().push(v));
            assert(self.adj() =~~= g0.adj().push(Seq::<usize>::empty()));
            assert(self.attrs() =~~= g0.attrs().push(Seq::<(Seq<char>, Seq<char>)>::empty()));
            assert forall|i: int| 0 <= i < g0.n() implies g0.labels()[i] != v by {
                if g0.labels()[i] == v {
                    assert(g0.labels().contains(v));
                }
            }
            self.lemma_fresh_push_wf(g0, v);
            self.lemma_idx_of(v);
            assert forall|x: NodeView, y: NodeView|
                #[trigger] self.spec_has_edge(x, y) == g0.spec_has_edge(x, y) by {
                self.lemma_push_keeps_edges(g0, v, x, y);
            }
        }
        h
    }

    /// Proof that pushing a fresh label with empty adjacency and attribute
    /// entries keeps the store well-formed.
    proof fn lemma_fresh_push_wf(self, g0: Graph, v: NodeView)
        requires
            g0.wf(),
            !g0.spec_has_node(v),
            self.labels() == g0.labels().push(v),
            self.adj() == g0.adj().push(Seq::<usize>::empty()),
            self.attrs() == g0.attrs().push(Seq::<(Seq<char>, Seq<char>)>::empty()),
            self.n() == self.labels().len(),
            self.n() <= usize::MAX,
        ensures
            self.wf(),
    {
        let n0 = g0.n() as int;
        assert(self.adj().len() == n0 + 1);
        assert(self.adj()[n0] =~= Seq::<usize>::empty());
        assert forall|i: int| 0 <= i < self.n() implies in_range(
            #[trigger] self.adj()[i],
            self.n() as int,
        ) && no_dup(self.adj()[i]) by {
            if i < n0 {
                assert(self.adj()[i] == g0.adj()[i]);
                assert(in_range(g0.adj()[i], n0));
            }
        }
        assert forall|i: int, j: int|
            0 <= i < self.n() && 0 <= j < self.n() implies ((#[trigger] self.adj()[i].contains(
            j as usize,
        )) <==> self.adj()[j].contains(i as usize)) by {
            if i < n0 && j < n0 {
                assert(self.adj()[i] == g0.adj()[i]);
                assert(self.adj()[j] == g0.adj()[j]);
            } else {
                if i == n0 {
                    assert(!self.adj()[i].contains(j as usize));
                } else {
                    lemma_in_range_excludes(g0.adj()[i], n0, j as usize);
                }
                if j == n0 {
                    assert(!self.adj()[j].contains(i as usize));
                } else {
                    lemma_in_range_excludes(g0.adj()[j], n0, i as usize);
                }
            }
        }
        assert forall|i: int, j: int|
            0 <= i < j < self.n() implies self.labels()[i] != self.labels()[j] by {
            if j == n0 {
                if self.labels()[i] == v {
                    assert(g0.labels()[i] == v);
                    assert(g0.labels().contains(v));
                }
            }
        }
    }

    /// Proof that appending an isolated fresh node changes no edge.
    proof fn lemma_push_keeps_edges(self, g0: Graph, v: NodeView, x: NodeView, y: NodeView)
        requires
            g0.wf(),
            self.wf(),
            !g0.spec_has_node(v),
            self.labels() == g0.labels().push(v),
            self.adj() == g0.adj().push(Seq::<usize>::empty()),
        ensures
            self.spec_has_edge(x, y) == g0.spec_has_edge(x, y),
    {
        let n0 = g0.n() as int;
        assert forall|l: NodeView| g0.spec_has_node(l) implies self.spec_has_node(l)
            && self.idx_of(l) == g0.idx_of(l) by {
            g0.lemma_idx_of(l);
            assert(self.labels()[g0.idx_of(l)] == l);
            assert(self.labels().contains(l));
            self.lemma_idx_of(l);
        }
        if g0.spec_has_edge(x, y) {
            assert(self.adj()[self.idx_of(x)] == g0.adj()[g0.idx_of(x)]);
            assert(self.spec_has_edge(x, y));
        }
        if self.spec_has_edge(x, y) {
            assert(self.spec_has_node(x) && self.spec_has_node(y));
            self.lemma_idx_of(x);
            self.lemma_idx_of(y);
            if x == v || y == v {
                if self.idx_of(x) == n0 {
                    assert(!self.adj()[self.idx_of(x)].contains(self.idx_of(y) as usize));
                } else if self.idx_of(y) == n0 {
                    lemma_in_range_excludes(g0.adj()[self.idx_of(x)], n0, n0 as usize);
                }
                assert(false);
            } else {
                assert(self.labels()[self.idx_of(x)] == x && self.idx_of(x) != n0);
                assert(g0.labels()[self.idx_of(x)] == x);
                assert(g0.labels().contains(x));
                assert(g0.labels()[self.idx_of(y)] == y);
                assert(g0.labels().contains(y));
                g0.lemma_idx_of(x);
                g0.lemma_idx_of(y);
                assert(g0.spec_has_edge(x, y));
            }
        }
    }

    /// Insert several node values in order, as [`Graph::add_node`] would,
    /// and return their handles in the same order. Duplicates within the
    /// input collapse to the handle the first occurrence received.
    pub fn add_nodes_multiple(&mut self, nodes: Vec<Node>) -> (hs: Vec<usize>)
        requires
            old(self).wf(),
        ensures
            final(self).wf(),
            final(self).spec_name() == old(self).spec_name(),
            hs@.len() == nodes@.len(),
            final(self).labels() == insert_labels(old(self).labels(), views_of(nodes@)),
            forall|k: int|
                0 <= k < hs@.len() ==> (#[trigger] hs@[k]) < final(self).n() && final(self).labels()[hs@[k] as int] == nodes@[k]@,
            old(self).n() <= final(self).n(),
            forall|i: int|
                0 <= i < old(self).n() ==> final(self).labels()[i] == old(self).labels()[i]
                    && final(self).adj()[i] == old(self).adj()[i] && final(self).attrs()[i] == old(self).attrs()[i],
            forall|i: int|
                old(self).n() <= i < final(self).n() ==> final(self).adj()[i] == Seq::<
                    usize,
                >::empty() && final(self).attrs()[i] == Seq::<(Seq<char>, Seq<char>)>::empty(),
            forall|x: NodeView, y: NodeView|
                #[trigger] final(self).spec_has_edge(x, y) == old(self).spec_has_edge(x, y),
    {
        let len = nodes.len();
        let mut hs: Vec<usize> = Vec::new();
        let mut k: usize = 0;
        while k < len
            invariant
                self.wf(),
                len == nodes@.len(),
                0 <= k <= len,
                hs@.len() == k,
                self.spec_name() == old(self).spec_name(),
                self.labels() == insert_labels(
                    old(self).labels(),
                    views_of(nodes@).take(k as int),
                ),
                forall|idx: int|
                    0 <= idx < k ==> (#[trigger] hs@[idx]) < self.n() && self.labels()[hs@[idx] as int]
                        == nodes@[idx]@,
                old(self).n() <= self.n(),
                forall|i: int|
                    0 <= i < old(self).n() ==> self.labels()[i] == old(self).labels()[i]
                        && self.adj()[i] == old(self).adj()[i] && self.attrs()[i] == old(self).attrs()[i],
                forall|i: int|
                    old(self).n() <= i < self.n() ==> self.adj()[i] == Seq::<usize>::empty()
                        && self.attrs()[i] == Seq::<(Seq<char>, Seq<char>)>::empty(),
                forall|x: NodeView, y: NodeView|
                    #[trigger] self.spec_has_edge(x, y) == old(self).spec_has_edge(x, y),
            decreases len - k,
        {
            let ghost pre = *self;
            let node = nodes[k].clone();
            let h = self.add_node(node);
            hs.push(h);
            proof {
                let vs = views_of(nodes@);
                assert(vs.take(k + 1).drop_last() =~= vs.take(k as int));
                assert(vs.take(k + 1).last() == nodes@[k as int]@);
                assert(self.labels() == insert_label(pre.labels(), nodes@[k as int]@));
            }
            k += 1;
        }
        proof {
            assert(views_of(nodes@).take(len as int) =~= views_of(nodes@));
        }
        hs
    }

    /// Replace (not merge) the attribute map of an existing node; fails with
    /// [`GraphError::NodeNotFound`], leaving the store unchanged, exactly
    /// when no node carries this value.
    pub fn set_node_attr(&mut self, node: &Node, node_attr: Vec<(String, String)>) -> (r: Result<
        (),
        GraphError,
    >)
        requires
            old(self).wf(),
        ensures
            final(self).wf(),
            final(self).spec_name() == old(self).spec_name(),
            final(self).labels() == old(self).labels(),
            final(self).adj() == old(self).adj(),
            match r {
                Ok(_) => old(self).spec_has_node(node@) && final(self).attrs() == old(self).attrs().update(old(self).idx_of(node@), attr_view(node_attr@)),
                Err(e) => e == GraphError::NodeNotFound && !old(self).spec_has_node(node@)
                    && *final(self) == *old(self),
            },
            forall|x: NodeView, y: NodeView|
                #[trigger] final(self).spec_has_edge(x, y) == old(self).spec_has_edge(x, y),
    {
        if !self.has_node(node) {
            return Err(GraphError::NodeNotFound);
        }
        let idx = self.get_index(node);
        self.attr_list[idx] = node_attr;
        proof {
            assert(self.attrs() =~~= old(self).attrs().update(
                idx as int,
                attr_view(node_attr@),
            ));
            lemma_same_tables_same_edges(*old(self), *self);
        }
        Ok(())
    }

    /// Whether an edge joins these two node values. A pure query: absence of
    /// either node is answered with `false`, never an error.
    pub fn has_edge(&self, node1: &Node, node2: &Node) -> (r: bool)
        requires
            self.wf(),
        ensures
            r == self.spec_has_edge(node1@, node2@),
    {
        if !self.has_node(node1) {
            return false;
        }
        if !self.has_node(node2) {
            return false;
        }
        let i = self.get_index(node1);
        let j = self.get_index(node2);
        let r = contains_handle(&self.adj_list[i], j);
        proof {
            assert(self.adj()[i as int] == self.adj_list@[i as int]@);
        }
        r
    }

    /// Add an edge between two node values, inserting either endpoint that
    /// is absent. Adding an edge that is already present changes nothing.
    /// An edge from a node to itself records the node's own handle once in
    /// its neighbor set.
    pub fn add_edge(&mut self, node1: &Node, node2: &Node)
        requires
            old(self).wf(),
        ensures
            final(self).wf(),
            final(self).spec_name() == old(self).spec_name(),
            final(self).spec_has_edge(node1@, node2@),
            final(self).spec_has_edge(node2@, node1@),
            final(self).labels() == insert_label(insert_label(old(self).labels(), node1@), node2@),
            forall|i: int|
                0 <= i < old(self).n() ==> final(self).labels()[i] == old(self).labels()[i]
                    && final(self).attrs()[i] == old(self).attrs()[i],
            forall|i: int|
                old(self).n() <= i < final(self).n() ==> final(self).attrs()[i] == Seq::<
                    (Seq<char>, Seq<char>),
                >::empty(),
            forall|x: NodeView, y: NodeView|
                #[trigger] final(self).spec_has_edge(x, y) == (old(self).spec_has_edge(x, y) || (x
                    == node1@ && y == node2@) || (x == node2@ && y == node1@)),
            old(self).spec_has_edge(node1@, node2@) ==> final(self).labels() == old(self).labels()
                && final(self).adj() == old(self).adj() && final(self).attrs() == old(
                self,
            ).attrs(),
    {
        let ghost v1 = node1@;
        let ghost v2 = node2@;
        if self.has_edge(node1, node2) {
            proof {
                assert(self.labels() == insert_label(insert_label(old(self).labels(), v1), v2));
                assert forall|x: NodeView, y: NodeView|
                    #[trigger] self.spec_has_edge(x, y) == (old(self).spec_has_edge(x, y) || (x
                        == v1 && y == v2) || (x == v2 && y == v1)) by {
                    lemma_edge_symmetry(*self, v1, v2);
                }
                lemma_edge_symmetry(*self, v1, v2);
            }
            return ;
        }
        let h1 = self.add_node(node1.clone());
        let ghost g1 = *self;
        let h2 = self.add_node(node2.clone());
        let ghost g2 = *self;
        proof {
            assert(g2.labels()[h1 as int] == v1);
            g2.lemma_idx_of(v1);
            g2.lemma_idx_of(v2);
            assert(h1 as int == g2.idx_of(v1) && h2 as int == g2.idx_of(v2));
            assert(!g2.spec_has_edge(v1, v2));
            assert(!g2.adj()[h1 as int].contains(h2));
            assert(!g2.adj()[h2 as int].contains(h1));
            assert(h1 < self.adj_list@.len() && h2 < self.adj_list@.len());
        }
        self.adj_list[h1].push(h2);
        if h1 != h2 {
            self.adj_list[h2].push(h1);
        }
        proof {
            let n = g2.n() as int;
            let idx1 = h1 as int;
            let idx2 = h2 as int;
            let ga = g2.adj();
            let gb = self.adj();
            if h1 == h2 {
                assert(gb =~~= ga.update(idx1, ga[idx1].push(h1)));
            } else {
                assert(gb =~~= ga.update(idx1, ga[idx1].push(h2)).update(
                    idx2,
                    ga[idx2].push(h1),
                ));
            }
            assert(self.labels() == g2.labels() && self.attrs() == g2.attrs());
            assert(gb.len() == n);
            // how membership in each neighbor set changed
            assert forall|i: int, x: usize|
                0 <= i < n implies (#[trigger] gb[i].contains(x)) == (ga[i].contains(x) || (i
                == idx1 && x == h2) || (i == idx2 && x == h1)) by {
                if i == idx1 && i == idx2 {
                    lemma_push_contains(ga[i], h1, x);
                } else if i == idx1 {
                    lemma_push_contains(ga[i], h2, x);
                } else if i == idx2 {
                    lemma_push_contains(ga[i], h1, x);
                }
            }
            // the store stays well-formed
            assert forall|i: int| 0 <= i < n implies in_range(#[trigger] gb[i], n) by {
                assert(in_range(ga[i], n));
                assert forall|k: int| 0 <= k < gb[i].len() implies (#[trigger] gb[i][k]) < n by {
                    if i == idx1 || i == idx2 {
                        if k < ga[i].len() {
                            assert(gb[i][k] == ga[i][k]);
                        }
                    }
                }
            }
            assert forall|i: int| 0 <= i < n implies no_dup(#[trigger] gb[i]) by {
                assert(no_dup(ga[i]));
                assert forall|k: int, l: int|
                    0 <= k < l < gb[i].len() implies gb[i][k] != gb[i][l] by {
                    if i == idx1 || i == idx2 {
                        if l == ga[i].len() {
                            if gb[i][k] == gb[i][l] {
                                assert(ga[i][k] == gb[i][l]);
                                assert(ga[i].contains(gb[i][l]));
                            }
                        }
                    }
                }
            }
            assert forall|i: int, j: int|
                0 <= i < n && 0 <= j < n implies ((#[trigger] gb[i].contains(j as usize))
                <==> gb[j].contains(i as usize)) by {
                assert(ga[i].contains(j as usize) <==> ga[j].contains(i as usize));
            }
            assert(self.wf());
            // the new store has exactly the old edges plus this one
            assert forall|x: NodeView, y: NodeView|
                #[trigger] self.spec_has_edge(x, y) == (old(self).spec_has_edge(x, y) || (x == v1
                    && y == v2) || (x == v2 && y == v1)) by {
                let g0 = *old(self);
                assert(g2.spec_has_edge(x, y) == g0.spec_has_edge(x, y));
                if self.spec_has_node(x) && self.spec_has_node(y) {
                    self.lemma_idx_of(x);
                    self.lemma_idx_of(y);
                    g2.lemma_idx_of(x);
                    g2.lemma_idx_of(y);
                    let ix = self.idx_of(x);
                    let iy = self.idx_of(y);
                    assert(ix == g2.idx_of(x) && iy == g2.idx_of(y));
                    assert(gb[ix].contains(iy as usize) == (ga[ix].contains(iy as usize) || (ix
                        == idx1 && iy as usize == h2) || (ix == idx2 && iy as usize == h1)));
                    assert(ix == idx1 <==> x == v1);
                    assert(ix == idx2 <==> x == v2);
                    assert(iy == idx2 <==> y == v2);
                    assert(iy == idx1 <==> y == v1);
                } else {
                    assert(!self.spec_has_edge(x, y));
                    assert(!g2.spec_has_edge(x, y));
                    assert(!(x == v1 && y == v2) && !(x == v2 && y == v1));
                }
            }
            assert(self.spec_has_edge(v1, v2) && self.spec_has_edge(v2, v1));
        }
    }

    /// Remove the handle `h` from the neighbor set at `c`, leaving every
    /// other table entry untouched.
    fn remove_handle_at(&mut self, c: usize, h: usize)
        requires
            c < old(self).adj().len(),
            old(self).adj()[c as int].contains(h),
            no_dup(old(self).adj()[c as int]),
        ensures
            final(self).labels() == old(self).labels(),
            final(self).attrs() == old(self).attrs(),
            final(self).spec_name() == old(self).spec_name(),
            final(self).n() == old(self).n(),
            final(self).adj().len() == old(self).adj().len(),
            forall|i: int|
                0 <= i < old(self).adj().len() && i != c ==> final(self).adj()[i] == old(
                    self,
                ).adj()[i],
            detached(old(self).adj()[c as int], final(self).adj()[c as int], h),
    {
        let pos = find_handle(&self.adj_list[c], h);
        let lst = &mut self.adj_list[c];
        lst.swap_remove(pos);
        proof {
            let pre = old(self).adj()[c as int];
            assert(self.adj() =~~= old(self).adj().update(
                c as int,
                pre.update(pos as int, pre.last()).drop_last(),
            ));
            lemma_swap_remove_detaches(pre, pos as int, h);
        }
    }

    /// Rewrite the single occurrence of the handle `from` in the neighbor
    /// set at `c` to `to`, leaving every other table entry untouched.
    fn rewrite_handle_at(&mut self, c: usize, from: usize, to: usize)
        requires
            c < old(self).adj().len(),
            old(self).adj()[c as int].contains(from),
            no_dup(old(self).adj()[c as int]),
        ensures
            final(self).labels() == old(self).labels(),
            final(self).attrs() == old(self).attrs(),
            final(self).spec_name() == old(self).spec_name(),
            final(self).n() == old(self).n(),
            final(self).adj().len() == old(self).adj().len(),
            forall|i: int|
                0 <= i < old(self).adj().len() && i != c ==> final(self).adj()[i] == old(
                    self,
                ).adj()[i],
            rewritten(old(self).adj()[c as int], final(self).adj()[c as int], from, to),
    {
        let pos = find_handle(&self.adj_list[c], from);
        let lst = &mut self.adj_list[c];
        lst[pos] = to;
        proof {
            let pre = old(self).adj()[c as int];
            let post = self.adj()[c as int];
            assert(self.adj() =~~= old(self).adj().update(c as int, pre.update(pos as int, to)));
            assert forall|k: int|
                0 <= k < pre.len() implies (#[trigger] post[k]) == (if pre[k] == from {
                to
            } else {
                pre[k]
            }) by {
                if pre[k] == from && k != pos {
                    assert(pre[k] == pre[pos as int]);
                    assert(false);
                }
            }
        }
    }

    /// Remove a node by value, cascading to all incident edges and to its
    /// attribute entry; the vacated slot is compacted by moving the last
    /// node into it and rewriting every reference to the moved node's old
    /// handle. Fails with [`GraphError::NodeNotFound`], leaving the store
    /// unchanged, exactly when no node carries this value; on success the
    /// removed node's value is returned.
    pub fn remove_node(&mut self, node: &Node) -> (r: Result<Node, GraphError>)
        requires
            old(self).wf(),
        ensures
            final(self).wf(),
            final(self).spec_name() == old(self).spec_name(),
            match r {
                Result::Err(e) => {
                    &&& e == GraphError::NodeNotFound
                    &&& !old(self).spec_has_node(node@)
                    &&& *final(self) == *old(self)
                },
                Result::Ok(removed) => {
                    &&& old(self).spec_has_node(node@)
                    &&& removed@ == node@
                    &&& !final(self).spec_has_node(node@)
                    &&& final(self).n() == old(self).n() - 1
                    &&& final(self).labels() == old(self).labels().update(
                        old(self).idx_of(node@),
                        old(self).labels().last(),
                    ).drop_last()
                    &&& final(self).attrs() == old(self).attrs().update(
                        old(self).idx_of(node@),
                        old(self).attrs().last(),
                    ).drop_last()
                    &&& forall|y: NodeView|
                        !final(self).spec_has_edge(node@, y) && !final(self).spec_has_edge(
                            y,
                            node@,
                        )
                    &&& forall|x: NodeView, y: NodeView|
                        #[trigger] final(self).spec_has_edge(x, y) == (old(self).spec_has_edge(
                            x,
                            y,
                        ) && x != node@ && y != node@)
                },
            },
    {
        if !self.has_node(node) {
            return Err(GraphError::NodeNotFound);
        }
        let ghost g0 = *old(self);
        let ghost v = node@;
        let ghost a0 = g0.adj();
        let rm = self.get_index(node);
        let ghost rmi = rm as int;
        let ghost n = g0.n() as int;
        let n_exec = self.nodes.len();
        let last = n_exec - 1;
        let ghost lasti = last as int;

        // break every incident edge: delete `rm` from each neighbor's set
        let conn = self.adj_list[rm].clone();
        proof {
            assert forall|k: int| 0 <= k < conn@.len() implies conn@[k] == a0[rmi][k] by {}
            assert(conn@ =~= a0[rmi]);
            assert(no_dup(conn@) && in_range(conn@, n));
        }
        let conn_len = conn.len();
        let mut i: usize = 0;
        while i < conn_len
            invariant
                g0.wf(),
                n == g0.n(),
                rmi == rm as int,
                a0 == g0.adj(),
                0 <= rmi < n,
                conn_len == conn@.len(),
                conn@ == a0[rmi],
                0 <= i <= conn_len,
                self.labels() == g0.labels(),
                self.attrs() == g0.attrs(),
                self.spec_name() == g0.spec_name(),
                self.n() == n,
                self.adj().len() == n,
                self.adj()[rmi] == a0[rmi],
                forall|j: int|
                    0 <= j < n && j != rmi && conn@.take(i as int).contains(j as usize)
                        ==> detached(a0[j], #[trigger] self.adj()[j], rm),
                forall|j: int|
                    0 <= j < n && j != rmi && !conn@.take(i as int).contains(j as usize)
                        ==> #[trigger] self.adj()[j] == a0[j],
            decreases conn_len - i,
        {
            let c = conn[i];
            proof {
                assert(a0[rmi].contains(c)) by {
                    assert(a0[rmi][i as int] == c);
                }
                assert(0 <= c < n);
                assert(a0[c as int].contains(rm)) by {
                    assert(a0[rmi].contains((c as int) as usize));
                }
                assert(!conn@.take(i as int).contains(c)) by {
                    if conn@.take(i as int).contains(c) {
                        let k = choose|k: int|
                            0 <= k < i as int && conn@.take(i as int)[k] == c;
                        assert(conn@[k] == conn@[i as int]);
                    }
                }
            }
            let ghost pre = *self;
            if c != rm {
                proof {
                    assert(self.adj()[c as int] == a0[c as int]);
                    assert(no_dup(a0[c as int]));
                }
                self.remove_handle_at(c, rm);
            }
            proof {
                assert(conn@.take(i as int + 1) =~= conn@.take(i as int).push(c));
                assert forall|j: int|
                    0 <= j < n && j != rmi && conn@.take(i as int + 1).contains(j as usize)
                        implies detached(a0[j], #[trigger] self.adj()[j], rm) by {
                    lemma_push_contains(conn@.take(i as int), c, j as usize);
                    if j as usize == c {
                        assert(detached(a0[j], self.adj()[j], rm));
                    } else {
                        assert(self.adj()[j] == pre.adj()[j]);
                    }
                }
                assert forall|j: int|
                    0 <= j < n && j != rmi && !conn@.take(i as int + 1).contains(j as usize)
                        implies #[trigger] self.adj()[j] == a0[j] by {
                    lemma_push_contains(conn@.take(i as int), c, j as usize);
                }
            }
            i += 1;
        }
        let ghost a1 = self.adj();
        proof {
            assert(conn@.take(conn_len as int) =~= conn@);
            // no neighbor set mentions the removed handle any more
            assert forall|j: int| 0 <= j < n && j != rmi implies !(#[trigger] a1[j]).contains(
                rm,
            ) && no_dup(a1[j]) && (forall|x: usize| x != rm ==> a1[j].contains(x) == a0[j].contains(
                x,
            )) by {
                if conn@.contains(j as usize) {
                    assert(detached(a0[j], a1[j], rm));
                } else {
                    assert(a1[j] == a0[j]);
                    assert(!a0[j].contains(rm)) by {
                        assert(a0[rmi].contains((j as int) as usize) <==> a0[j].contains(
                            (rmi as int) as usize,
                        ));
                    }
                }
            }
        }

        // vacate slot `rm` in all three tables, moving the last entries in
        let ret_node = self.nodes.swap_remove(rm);
        self.attr_list.swap_remove(rm);
        self.adj_list.swap_remove(rm);
        let ghost a2 = self.adj();
        proof {
            assert(ret_node@ == v) by {
                assert(g0.labels()[rmi] == v);
            }
            assert(self.labels() =~= g0.labels().update(rmi, g0.labels().last()).drop_last());
            assert(self.attrs() =~~= g0.attrs().update(rmi, g0.attrs().last()).drop_last());
            assert(a2 =~~= a1.update(rmi, a1[n - 1]).drop_last());
            assert forall|j: int| 0 <= j < n - 1 implies (#[trigger] a2[j]) == a1[
                Self::pre_compaction_handle(j, rmi, lasti)
            ] by {}
        }

        // rewrite the moved node's old handle to its new slot everywhere
        if rm != last {
            let moved = self.adj_list[rm].clone();
            proof {
                assert forall|k: int| 0 <= k < moved@.len() implies moved@[k] == a2[rmi][k] by {}
                assert(moved@ =~= a2[rmi]);
                assert(a2[rmi] == a1[lasti]);
                assert(no_dup(moved@));
            }
            let moved_len = moved.len();
            let mut j: usize = 0;
            while j < moved_len
                invariant
                    g0.wf(),
                    n == g0.n(),
                    rmi == rm as int,
                    lasti == last as int,
                    a0 == g0.adj(),
                    0 <= rmi < n - 1,
                    lasti == n - 1,
                    rm != last,
                    moved_len == moved@.len(),
                    moved@ == a2[rmi],
                    a2[rmi] == a1[lasti],
                    0 <= j <= moved_len,
                    self.labels() == g0.labels().update(rmi, g0.labels().last()).drop_last(),
                    self.attrs() == g0.attrs().update(rmi, g0.attrs().last()).drop_last(),
                    self.spec_name() == g0.spec_name(),
                    self.n() == n - 1,
                    self.adj().len() == n - 1,
                    forall|j2: int|
                        0 <= j2 < n && j2 != rmi ==> !(#[trigger] a1[j2]).contains(rm) && no_dup(
                            a1[j2],
                        ) && (forall|x: usize|
                            x != rm ==> a1[j2].contains(x) == a0[j2].contains(x)),
                    forall|j2: int|
                        0 <= j2 < n - 1 ==> (#[trigger] a2[j2]) == a1[
                            Self::pre_compaction_handle(j2, rmi, lasti)
                        ],
                    moved@.take(j as int).contains(last) ==> rewritten(
                        a2[rmi],
                        self.adj()[rmi],
                        last,
                        rm,
                    ),
                    !moved@.take(j as int).contains(last) ==> self.adj()[rmi] == a2[rmi],
                    forall|c2: int|
                        0 <= c2 < n - 1 && c2 != rmi && moved@.take(j as int).contains(c2 as usize)
                            ==> rewritten(a2[c2], #[trigger] self.adj()[c2], last, rm),
                    forall|c2: int|
                        0 <= c2 < n - 1 && c2 != rmi && !moved@.take(j as int).contains(
                            c2 as usize,
                        ) ==> #[trigger] self.adj()[c2] == a2[c2],
                decreases moved_len - j,
            {
                let c = moved[j];
                proof {
                    assert(a2[rmi].contains(c)) by {
                        assert(a2[rmi][j as int] == c);
                    }
                    assert(a1[lasti].contains(c));
                    assert(c != rm);
                    assert(in_range(a0[lasti], n));
                    assert(a0[lasti].contains(c)) by {
                        assert(a1[lasti].contains(c) == a0[lasti].contains(c));
                    }
                    assert(0 <= c < n);
                    assert(a0[c as int].contains(last)) by {
                        assert(a0[lasti].contains((c as int) as usize) <==> a0[c as int].contains(
                            (lasti as int) as usize,
                        ));
                    }
                    assert(!moved@.take(j as int).contains(c)) by {
                        if moved@.take(j as int).contains(c) {
                            let k = choose|k: int|
                                0 <= k < j as int && moved@.take(j as int)[k] == c;
                            assert(moved@[k] == moved@[j as int]);
                        }
                    }
                }
                let ghost pre = *self;
                if c == last {
                    // the moved node has a self-loop: the stale entry sits in
                    // its own, relocated neighbor set
                    proof {
                        assert(self.adj()[rmi] == a2[rmi]);
                        assert(no_dup(a2[rmi]) && a2[rmi].contains(last) && !a2[rmi].contains(rm));
                    }
                    self.rewrite_handle_at(rm, last, rm);
                } else {
                    proof {
                        assert(0 <= c < n - 1);
                        assert(self.adj()[c as int] == a2[c as int]);
                        assert(a2[c as int] == a1[c as int]);
                        assert(a1[c as int].contains(last)) by {
                            assert(a1[c as int].contains((lasti as int) as usize) == a0[
                                c as int
                            ].contains((lasti as int) as usize));
                        }
                        assert(no_dup(a1[c as int]) && !a1[c as int].contains(rm));
                    }
                    self.rewrite_handle_at(c, last, rm);
                }
                proof {
                    assert(moved@.take(j as int + 1) =~= moved@.take(j as int).push(c));
                    if moved@.take(j as int + 1).contains(last) {
                        lemma_push_contains(moved@.take(j as int), c, last);
                        if c == last {
                            assert(rewritten(a2[rmi], self.adj()[rmi], last, rm));
                        } else {
                            assert(self.adj()[rmi] == pre.adj()[rmi]);
                            assert(rewritten(a2[rmi], self.adj()[rmi], last, rm));
                        }
                    } else {
                        lemma_push_contains(moved@.take(j as int), c, last);
                        assert(self.adj()[rmi] == a2[rmi]);
                    }
                    assert forall|c2: int|
                        0 <= c2 < n - 1 && c2 != rmi && moved@.take(j as int + 1).contains(
                            c2 as usize,
                        ) implies rewritten(a2[c2], #[trigger] self.adj()[c2], last, rm) by {
                        lemma_push_contains(moved@.take(j as int), c, c2 as usize);
                        if c2 as usize == c {
                            assert(rewritten(a2[c2], self.adj()[c2], last, rm));
                        } else {
                            assert(self.adj()[c2] == pre.adj()[c2]);
                        }
                    }
                    assert forall|c2: int|
                        0 <= c2 < n - 1 && c2 != rmi && !moved@.take(j as int + 1).contains(
                            c2 as usize,
                        ) implies #[trigger] self.adj()[c2] == a2[c2] by {
                        lemma_push_contains(moved@.take(j as int), c, c2 as usize);
                    }
                }
                j += 1;
            }
            proof {
                assert(moved@.take(moved_len as int) =~= moved@);
            }
        }

        // every neighbor set now describes the compacted store
        proof {
            let af = self.adj();
            assert forall|i2: int| 0 <= i2 < n - 1 implies rewritten(
                a2[i2],
                #[trigger] af[i2],
                last,
                rm,
            ) by {
                if rm == last {
                    assert(af[i2] == a2[i2]);
                    assert(a2[i2] == a1[i2]);
                    assert forall|k: int|
                        0 <= k < a2[i2].len() implies (#[trigger] af[i2][k]) == (if a2[i2][k]
                        == last {
                        rm
                    } else {
                        a2[i2][k]
                    }) by {
                        assert(!a1[i2].contains(rm));
                        if a2[i2][k] == last {
                            assert(a1[i2].contains(rm)) by {
                                assert(a1[i2][k] == rm);
                            }
                        }
                    }
                } else {
                    let u = Self::pre_compaction_handle(i2, rmi, lasti);
                    if i2 == rmi {
                        if !a2[rmi].contains(last) {
                            assert(af[i2] == a2[i2]);
                            assert forall|k: int|
                                0 <= k < a2[i2].len() implies (#[trigger] af[i2][k]) == (if a2[
                                i2
                            ][k] == last {
                                rm
                            } else {
                                a2[i2][k]
                            }) by {
                                if a2[i2][k] == last {
                                    assert(a2[rmi].contains(last)) by {
                                        assert(a2[rmi][k] == last);
                                    }
                                }
                            }
                        }
                    } else {
                        if !a2[rmi].contains(i2 as usize) {
                            assert(af[i2] == a2[i2]);
                            assert(a2[i2] == a1[i2]);
                            assert(!a1[lasti].contains(i2 as usize)) by {
                                assert(a2[rmi] == a1[lasti]);
                            }
                            assert(!a0[lasti].contains(i2 as usize)) by {
                                assert(a1[lasti].contains(i2 as usize) == a0[lasti].contains(
                                    i2 as usize,
                                ));
                            }
                            assert(!a0[i2].contains(last)) by {
                                assert(a0[lasti].contains((i2 as int) as usize) <==> a0[
                                    i2
                                ].contains((lasti as int) as usize));
                            }
                            assert(!a1[i2].contains(last)) by {
                                assert(a1[i2].contains((lasti as int) as usize) == a0[
                                    i2
                                ].contains((lasti as int) as usize));
                            }
                            assert forall|k: int|
                                0 <= k < a2[i2].len() implies (#[trigger] af[i2][k]) == (if a2[
                                i2
                            ][k] == last {
                                rm
                            } else {
                                a2[i2][k]
                            }) by {
                                if a2[i2][k] == last {
                                    assert(a1[i2].contains(last)) by {
                                        assert(a1[i2][k] == last);
                                    }
                                }
                            }
                        }
                    }
                }
            }
            // membership in the compacted sets, in terms of the old store
            assert forall|i2: int, j2: int|
                0 <= i2 < n - 1 && 0 <= j2 < n - 1 implies ((#[trigger] af[i2].contains(
                j2 as usize,
            )) <==> a0[Self::pre_compaction_handle(i2, rmi, lasti)].contains(
                Self::pre_compaction_handle(j2, rmi, lasti) as usize,
            )) by {
                let u = Self::pre_compaction_handle(i2, rmi, lasti);
                let w = Self::pre_compaction_handle(j2, rmi, lasti);
                assert(a2[i2] == a1[u]);
                assert(no_dup(a1[u]) && !a1[u].contains(rm));
                if rm == last {
                    assert(af[i2] == a1[u]);
                    assert(j2 != rmi && w == j2);
                    assert(a1[u].contains(j2 as usize) == a0[u].contains(j2 as usize));
                } else {
                    lemma_rewritten_facts(a1[u], af[i2], last, rm);
                    if j2 == rmi {
                        assert(w == lasti);
                        assert(af[i2].contains(rm) == a1[u].contains(last));
                        assert(a1[u].contains(last) == a0[u].contains(last));
                    } else {
                        assert(w == j2 && j2 != lasti);
                        assert(af[i2].contains(j2 as usize) == a1[u].contains(j2 as usize));
                        assert(a1[u].contains(j2 as usize) == a0[u].contains(j2 as usize));
                    }
                }
            }
            // the compacted sets are duplicate-free and stay in range
            assert forall|i2: int| 0 <= i2 < n - 1 implies no_dup(#[trigger] af[i2]) && in_range(
                af[i2],
                n - 1,
            ) by {
                let u = Self::pre_compaction_handle(i2, rmi, lasti);
                assert(a2[i2] == a1[u]);
                assert(no_dup(a1[u]) && !a1[u].contains(rm));
                if rm == last {
                    assert(af[i2] == a1[u]);
                    assert forall|k: int| 0 <= k < af[i2].len() implies (#[trigger] af[i2][k]) < n
                        - 1 by {
                        assert(a0[u].contains(a1[u][k]) || a1[u].contains(a1[u][k]));
                        assert(a1[u].contains(a1[u][k])) by {
                            assert(a1[u][k] == af[i2][k]);
                        }
                        assert(a0[u].contains(a1[u][k]) == a1[u].contains(a1[u][k]));
                        assert(in_range(a0[u], n));
                        let k0 = choose|k0: int| 0 <= k0 < a0[u].len() && a0[u][k0] == a1[u][k];
                        assert(a0[u][k0] < n);
                        assert(af[i2][k] != rm);
                    }
                } else {
                    lemma_rewritten_facts(a1[u], af[i2], last, rm);
                    assert forall|k: int| 0 <= k < af[i2].len() implies (#[trigger] af[i2][k]) < n
                        - 1 by {
                        let x = af[i2][k];
                        if a1[u][k] == last {
                            assert(x == rm);
                        } else {
                            assert(x == a1[u][k] && x != last);
                            assert(a1[u].contains(x)) by {
                                assert(a1[u][k] == x);
                            }
                            assert(x != rm);
                            assert(a0[u].contains(x));
                            let k0 = choose|k0: int| 0 <= k0 < a0[u].len() && a0[u][k0] == x;
                            assert(a0[u][k0] < n);
                            assert(x as int != lasti);
                        }
                    }
                }
            }
            self.lemma_compaction_semantics(g0, rmi);
            g0.lemma_idx_of(v);
            assert(rmi == g0.idx_of(v));
            assert forall|y: NodeView|
                !self.spec_has_edge(v, y) && !self.spec_has_edge(y, v) by {
                assert(self.spec_has_edge(v, y) == (g0.spec_has_edge(v, y) && v != v && y != v));
                assert(self.spec_has_edge(y, v) == (g0.spec_has_edge(y, v) && y != v && v != v));
            }
        }
        Ok(ret_node)
    }

    /// `es` lists every edge of the store exactly once: each listed pair is
    /// an edge in canonical order (small handle first), every edge is
    /// listed, and no pair repeats.
    pub open spec fn edge_list_exact(self, es: Seq<(usize, usize)>) -> bool {
        &&& forall|k: int|
            0 <= k < es.len() ==> (#[trigger] es[k]).0 <= es[k].1 && self.spec_adjacent(
                es[k].0 as int,
                es[k].1 as int,
            )
        &&& forall|i: int, j: int|
            #[trigger] self.spec_adjacent(i, j) ==> es.contains(
                (
                    (
                    if i <= j {
                        i
                    } else {
                        j
                    }
                    ) as usize,
                    (
                    if i <= j {
                        j
                    } else {
                        i
                    }
                    ) as usize,
                ),
            )
        &&& forall|k1: int, k2: int| 0 <= k1 < k2 < es.len() ==> es[k1] != es[k2]
    }

    /// All edges of the graph, each undirected pair of handles exactly once,
    /// whatever order its two endpoints were inserted or linked in.
    pub fn edges(&self) -> (r: Vec<(usize, usize)>)
        requires
            self.wf(),
        ensures
            self.edge_list_exact(r@),
    {
        let n = self.nodes.len();
        let mut r: Vec<(usize, usize)> = Vec::new();
        let mut i: usize = 0;
        while i < n
            invariant
                self.wf(),
                n == self.n(),
                0 <= i <= n,
                forall|k: int|
                    0 <= k < r@.len() ==> (#[trigger] r@[k]).0 <= r@[k].1 && self.spec_adjacent(
                        r@[k].0 as int,
                        r@[k].1 as int,
                    ) && (r@[k].0 as int) < i,
                forall|k1: int, k2: int| 0 <= k1 < k2 < r@.len() ==> r@[k1] != r@[k2],
                forall|a: int, b: int|
                    0 <= a < i && a <= b && #[trigger] self.spec_adjacent(a, b) ==> r@.contains(
                        (a as usize, b as usize),
                    ),
            decreases n - i,
        {
            let m = self.adj_list[i].len();
            let ghost li = self.adj()[i as int];
            let mut k: usize = 0;
            while k < m
                invariant
                    self.wf(),
                    n == self.n(),
                    0 <= i < n,
                    li == self.adj()[i as int],
                    m == li.len(),
                    0 <= k <= m,
                    forall|k2: int|
                        0 <= k2 < r@.len() ==> (#[trigger] r@[k2]).0 <= r@[k2].1
                            && self.spec_adjacent(r@[k2].0 as int, r@[k2].1 as int) && (r@[k2].0
                            as int) <= i,
                    forall|k2: int|
                        0 <= k2 < r@.len() && (#[trigger] r@[k2]).0 == i ==> li.take(
                            k as int,
                        ).contains(r@[k2].1),
                    forall|k1: int, k2: int| 0 <= k1 < k2 < r@.len() ==> r@[k1] != r@[k2],
                    forall|a: int, b: int|
                        0 <= a < i && a <= b && #[trigger] self.spec_adjacent(a, b) ==> r@.contains(
                            (a as usize, b as usize),
                        ),
                    forall|x: usize|
                        li.take(k as int).contains(x) && x >= i ==> r@.contains((i, x)),
                decreases m - k,
            {
                let b = self.adj_list[i][k];
                proof {
                    assert(li[k as int] == b);
                    assert(li.contains(b)) by {
                        assert(li[k as int] == b);
                    }
                    assert(b < n);
                    assert(!li.take(k as int).contains(b)) by {
                        if li.take(k as int).contains(b) {
                            let k0 = choose|k0: int|
                                0 <= k0 < k as int && li.take(k as int)[k0] == b;
                            assert(li[k0] == li[k as int]);
                        }
                    }
                }
                let ghost r_pre = r@;
                if b >= i {
                    r.push((i, b));
                    proof {
                        assert(self.spec_adjacent(i as int, b as int));
                        assert forall|k1: int, k2: int|
                            0 <= k1 < k2 < r@.len() implies r@[k1] != r@[k2] by {
                            if k2 == r@.len() - 1 {
                                if r_pre[k1].0 == i {
                                    assert(li.take(k as int).contains(r_pre[k1].1));
                                }
                            }
                        }
                    }
                }
                proof {
                    assert(li.take(k as int + 1) =~= li.take(k as int).push(li[k as int]));
                    assert forall|x: usize|
                        li.take(k as int + 1).contains(x) && x >= i implies r@.contains(
                        (i, x),
                    ) by {
                        lemma_push_contains(li.take(k as int), b, x);
                        if x == b {
                            assert(r@[r@.len() - 1] == (i, b));
                        } else {
                            assert(r_pre.contains((i, x)));
                            let k0 = choose|k0: int|
                                0 <= k0 < r_pre.len() && r_pre[k0] == (i, x);
                            assert(r@[k0] == (i, x));
                        }
                    }
                    assert forall|k2: int|
                        0 <= k2 < r@.len() && (#[trigger] r@[k2]).0 == i implies li.take(
                        k as int + 1,
                    ).contains(r@[k2].1) by {
                        lemma_push_contains(li.take(k as int), b, r@[k2].1);
                        if k2 < r_pre.len() && r_pre[k2].0 == i {
                            assert(li.take(k as int).contains(r_pre[k2].1));
                        }
                    }
                    assert forall|a: int, b2: int|
                        0 <= a < i && a <= b2 && #[trigger] self.spec_adjacent(a, b2)
                            implies r@.contains((a as usize, b2 as usize)) by {
                        assert(r_pre.contains((a as usize, b2 as usize)));
                        let k0 = choose|k0: int|
                            0 <= k0 < r_pre.len() && r_pre[k0] == (a as usize, b2 as usize);
                        assert(r@[k0] == (a as usize, b2 as usize));
                    }
                }
                k += 1;
            }
            proof {
                assert(li.take(m as int) =~= li);
                assert forall|a: int, b: int|
                    0 <= a < i + 1 && a <= b && #[trigger] self.spec_adjacent(a, b)
                        implies r@.contains((a as usize, b as usize)) by {
                    if a == i {
                        assert(self.adj()[a].contains(b as usize));
                        assert(li.contains(b as usize));
                        assert(b < n);
                        assert(b as usize >= i);
                    }
                }
            }
            i += 1;
        }
        proof {
            assert forall|i2: int, j2: int| #[trigger] self.spec_adjacent(i2, j2) implies r@.contains(
                (
                    (
                    if i2 <= j2 {
                        i2
                    } else {
                        j2
                    }
                    ) as usize,
                    (
                    if i2 <= j2 {
                        j2
                    } else {
                        i2
                    }
                    ) as usize,
                ),
            ) by {
                if i2 <= j2 {
                    assert(r@.contains((i2 as usize, j2 as usize)));
                } else {
                    assert(self.spec_adjacent(j2, i2)) by {
                        assert(self.adj()[i2].contains(j2 as usize) <==> self.adj()[j2].contains(
                            i2 as usize,
                        ));
                    }
                    assert(r@.contains((j2 as usize, i2 as usize)));
                }
            }
        }
        r
    }

    /// A reference to the stored node equal in value to `node`.
    pub fn existing_node(&self, node: &Node) -> (r: &Node)
        requires
            self.wf(),
            self.spec_has_node(node@),
        ensures
            r@ == node@,
    {
        let i = self.get_index(node);
        &self.nodes[i]
    }

    /// The number of live nodes.
    pub fn nodes_len(&self) -> (r: usize)
        ensures
            r == self.n(),
    {
        self.nodes.len()
    }

    /// A copy of the node value at a live handle.
    pub fn node_at(&self, h: usize) -> (node: Node)
        requires
            h < self.n(),
        ensures
            node@ == self.labels()[h as int],
    {
        self.nodes[h].clone()
    }

    /// A reference to the most recently appended node.
    pub fn last_node(&self) -> (r: &Node)
        requires
            self.n() > 0,
        ensures
            r@ == self.labels()[self.n() - 1],
    {
        &self.nodes[self.nodes.len() - 1]
    }
}

} // verus!
