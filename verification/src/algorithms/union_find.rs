use crate::graph::index::NodeId;
use crate::structures::parents::{parents_in_range, Parents};
use vstd::prelude::*;
use vstd::set_lib::{lemma_int_range, lemma_len_subset, lemma_set_disjoint_lens, set_int_range};

verus! {

/// Node `i` is the root of its tree: it has no parent, or is its own parent.
pub open spec fn is_root(p: Seq<Option<NodeId>>, i: int) -> bool {
    p[i] is None || p[i].unwrap().0 == i
}

/// The next node on the way up from `i` (`i` itself at a root).
pub open spec fn link(p: Seq<Option<NodeId>>, i: int) -> int {
    if is_root(p, i) {
        i
    } else {
        p[i].unwrap().0 as int
    }
}

/// `lv` gives every node a level not above `m`, and every parent link goes up a level: so the
/// parent links hold no cycle.
pub open spec fn levels_ok(p: Seq<Option<NodeId>>, lv: Seq<nat>, m: nat) -> bool {
    &&& lv.len() == p.len()
    &&& parents_in_range(p)
    &&& forall|i: int| 0 <= i < p.len() ==> #[trigger] lv[i] <= m
    &&& forall|i: int| 0 <= i < p.len() && !is_root(p, i) ==> lv[i] < lv[#[trigger] link(p, i)]
}

/// The root of the tree of `i`.
pub open spec fn root_of(p: Seq<Option<NodeId>>, lv: Seq<nat>, m: nat, i: int) -> int
    decreases m - lv[i],
    when levels_ok(p, lv, m) && 0 <= i < p.len()
{
    if is_root(p, i) {
        i
    } else {
        root_of(p, lv, m, link(p, i))
    }
}

/// The nodes whose root is `r`.
pub open spec fn class_of(p: Seq<Option<NodeId>>, lv: Seq<nat>, m: nat, r: int) -> Set<int> {
    Set::new(|v: int| 0 <= v < p.len() && root_of(p, lv, m, v) == r)
}

pub proof fn lemma_root_of(p: Seq<Option<NodeId>>, lv: Seq<nat>, m: nat, i: int)
    requires
        levels_ok(p, lv, m),
        0 <= i < p.len(),
    ensures
        0 <= root_of(p, lv, m, i) < p.len(),
        is_root(p, root_of(p, lv, m, i)),
        !is_root(p, i) ==> lv[i] < lv[root_of(p, lv, m, i)],
        is_root(p, i) ==> root_of(p, lv, m, i) == i,
        root_of(p, lv, m, link(p, i)) == root_of(p, lv, m, i),
    decreases m - lv[i],
{
    if !is_root(p, i) {
        let j = link(p, i);
        assert(lv[i] < lv[j]);
        lemma_root_of(p, lv, m, j);
    }
}

pub proof fn lemma_class_finite(p: Seq<Option<NodeId>>, lv: Seq<nat>, m: nat, r: int)
    ensures
        class_of(p, lv, m, r).finite(),
        class_of(p, lv, m, r).len() <= p.len(),
{
    lemma_int_range(0, p.len() as int);
    lemma_len_subset(class_of(p, lv, m, r), set_int_range(0, p.len() as int));
}

/// Pointing a non-root `t` straight at its root keeps the levels valid and every root.
pub proof fn lemma_compress(p: Seq<Option<NodeId>>, lv: Seq<nat>, m: nat, t: int, r: NodeId)
    requires
        levels_ok(p, lv, m),
        0 <= t < p.len(),
        !is_root(p, t),
        root_of(p, lv, m, t) == r.0,
    ensures
        levels_ok(p.update(t, Some(r)), lv, m),
        forall|v: int|
            0 <= v < p.len() ==> #[trigger] root_of(p.update(t, Some(r)), lv, m, v) == root_of(
                p,
                lv,
                m,
                v,
            ),
{
    let q = p.update(t, Some(r));
    lemma_root_of(p, lv, m, t);
    assert(parents_in_range(q));
    assert forall|i: int| 0 <= i < q.len() && !is_root(q, i) implies lv[i] < lv[#[trigger] link(q, i)] by {
        if i != t {
            assert(link(q, i) == link(p, i));
        }
    }
    assert forall|v: int| 0 <= v < p.len() implies #[trigger] root_of(q, lv, m, v) == root_of(
        p,
        lv,
        m,
        v,
    ) by {
        lemma_compress_one(p, lv, m, t, r, v);
    }
}

proof fn lemma_compress_one(p: Seq<Option<NodeId>>, lv: Seq<nat>, m: nat, t: int, r: NodeId, v: int)
    requires
        levels_ok(p, lv, m),
        levels_ok(p.update(t, Some(r)), lv, m),
        0 <= t < p.len(),
        !is_root(p, t),
        root_of(p, lv, m, t) == r.0,
        0 <= v < p.len(),
    ensures
        root_of(p.update(t, Some(r)), lv, m, v) == root_of(p, lv, m, v),
    decreases m - lv[v],
{
    let q = p.update(t, Some(r));
    lemma_root_of(p, lv, m, t);
    lemma_root_of(p, lv, m, v);
    let ri = r.0 as int;
    assert(is_root(q, ri));
    assert(root_of(q, lv, m, ri) == ri);
    if v == t {
        assert(link(q, t) == ri);
        assert(root_of(q, lv, m, t) == root_of(q, lv, m, ri));
    } else if !is_root(p, v) {
        assert(link(q, v) == link(p, v));
        lemma_compress_one(p, lv, m, t, r, link(p, v));
        assert(root_of(q, lv, m, v) == root_of(q, lv, m, link(q, v)));
        assert(root_of(p, lv, m, v) == root_of(p, lv, m, link(p, v)));
    } else {
        assert(is_root(q, v));
        assert(root_of(q, lv, m, v) == v);
        assert(root_of(p, lv, m, v) == v);
    }
}

/// Hanging root `ry` under root `rx` moves the tree of `ry` into the tree of `rx`.
pub proof fn lemma_link_roots(
    p: Seq<Option<NodeId>>,
    lv: Seq<nat>,
    m: nat,
    rx: NodeId,
    ry: int,
    lv2: Seq<nat>,
    m2: nat,
    v: int,
)
    requires
        levels_ok(p, lv, m),
        levels_ok(p.update(ry, Some(rx)), lv2, m2),
        0 <= rx.0 < p.len(),
        0 <= ry < p.len(),
        rx.0 != ry,
        is_root(p, rx.0 as int),
        is_root(p, ry),
        0 <= v < p.len(),
    ensures
        root_of(p.update(ry, Some(rx)), lv2, m2, v) == (if root_of(p, lv, m, v) == ry {
            rx.0 as int
        } else {
            root_of(p, lv, m, v)
        }),
    decreases m - lv[v],
{
    let q = p.update(ry, Some(rx));
    let xi = rx.0 as int;
    lemma_root_of(p, lv, m, v);
    assert(is_root(q, xi));
    assert(root_of(q, lv2, m2, xi) == xi);
    if is_root(p, v) {
        assert(root_of(p, lv, m, v) == v);
        if v == ry {
            assert(link(q, ry) == xi);
            assert(root_of(q, lv2, m2, ry) == root_of(q, lv2, m2, xi));
        } else {
            assert(is_root(q, v));
            assert(root_of(q, lv2, m2, v) == v);
        }
    } else {
        assert(v != ry);
        assert(link(q, v) == link(p, v));
        lemma_link_roots(p, lv, m, rx, ry, lv2, m2, link(p, v));
        assert(root_of(q, lv2, m2, v) == root_of(q, lv2, m2, link(q, v)));
        assert(root_of(p, lv, m, v) == root_of(p, lv, m, link(p, v)));
    }
}

/// A union-find (disjoint sets) structure over nodes `0..count`, with path compression and
/// union by size.
pub struct UnionFind {
    parents: Parents,
    rank: Vec<u32>,
    level: Ghost<Seq<nat>>,
    max_level: Ghost<nat>,
}

impl UnionFind {
    /// The root of the set of node `i`.
    pub closed spec fn class_root(&self, i: int) -> int {
        root_of(self.parents@, self.level@, self.max_level@, i)
    }

    /// The nodes in the set whose root is `r`.
    pub closed spec fn class(&self, r: int) -> Set<int> {
        class_of(self.parents@, self.level@, self.max_level@, r)
    }

    /// The number of nodes.
    pub closed spec fn spec_count(&self) -> nat {
        self.parents@.len()
    }

    /// The rank of each node: for a root, the size of its set.
    pub closed spec fn ranks(&self) -> Seq<u32> {
        self.rank@
    }

    /// The parent links hold no cycle, and the rank of every root is the size of its set.
    pub closed spec fn wf(&self) -> bool {
        let p = self.parents@;
        &&& levels_ok(p, self.level@, self.max_level@)
        &&& self.rank@.len() == p.len()
        &&& p.len() <= u32::MAX
        &&& forall|r: int|
            0 <= r < p.len() && is_root(p, r) ==> self.rank@[r] == #[trigger] class_of(
                p,
                self.level@,
                self.max_level@,
                r,
            ).len()
    }

    pub proof fn lemma_root(&self, i: int)
        requires
            self.wf(),
            0 <= i < self.spec_count(),
        ensures
            0 <= self.class_root(i) < self.spec_count(),
            self.class_root(self.class_root(i)) == self.class_root(i),
            self.class(self.class_root(i)).contains(i),
            self.class(self.class_root(i)).finite(),
            self.ranks()[self.class_root(i)] == self.class(self.class_root(i)).len(),
    {
        let p = self.parents@;
        lemma_root_of(p, self.level@, self.max_level@, i);
        let r = self.class_root(i);
        lemma_root_of(p, self.level@, self.max_level@, r);
        lemma_class_finite(p, self.level@, self.max_level@, r);
    }

    /// Every node of `0..count` alone in its own set.
    pub fn with_count(count: usize) -> (r: Self)
        requires
            count <= u32::MAX,
        ensures
            r.wf(),
            r.spec_count() == count,
            r.ranks().len() == r.spec_count(),
            forall|i: int| 0 <= i < count ==> #[trigger] r.class_root(i) == i,
            forall|i: int| 0 <= i < count ==> #[trigger] r.ranks()[i] == 1,
    {
        let parents = Parents::with_count(count);
        let mut rank: Vec<u32> = Vec::new();
        let mut i: usize = 0;
        while i < count
            invariant
                i <= count,
                rank@ =~= Seq::new(i as nat, |k: int| 1u32),
            decreases count - i,
        {
            rank.push(1);
            i = i + 1;
        }
        let uf = UnionFind {
            parents,
            rank,
            level: Ghost(Seq::new(count as nat, |k: int| 0nat)),
            max_level: Ghost(0),
        };
        proof {
            uf.lemma_singletons();
        }
        uf
    }

    /// Every given node alone in its own set; the nodes are given as `0, 1, 2, ...`.
    /// The link stored for the first node: the node itself until a union hangs it under
    /// another root.
    pub closed spec fn first_link(&self) -> Option<NodeId> {
        self.parents@[0]
    }

    /// The node the first node's link points at.
    pub fn root(&self) -> (r: NodeId)
        requires
            self.spec_count() > 0,
            self.first_link() is Some,
        ensures
            Some(r) == self.first_link(),
    {
        self.parents.parent(NodeId(0)).unwrap()
    }

    pub fn with_node_ids(node_ids: Vec<NodeId>) -> (r: Self)
        requires
            node_ids@.len() <= u32::MAX,
            forall|i: int| 0 <= i < node_ids@.len() ==> (#[trigger] node_ids@[i]).0 == i,
        ensures
            r.wf(),
            r.spec_count() == node_ids@.len(),
            r.ranks().len() == r.spec_count(),
            forall|i: int| 0 <= i < node_ids@.len() ==> #[trigger] r.class_root(i) == i,
            forall|i: int| 0 <= i < node_ids@.len() ==> #[trigger] r.ranks()[i] == 1,
            node_ids@.len() > 0 ==> r.first_link() == Some(NodeId(0)),
    {
        let count = node_ids.len();
        let mut parents: Vec<Option<NodeId>> = Vec::new();
        let mut rank: Vec<u32> = Vec::new();
        let mut i: usize = 0;
        while i < count
            invariant
                count == node_ids@.len(),
                forall|k: int| 0 <= k < node_ids@.len() ==> (#[trigger] node_ids@[k]).0 == k,
                i <= count,
                rank@ =~= Seq::new(i as nat, |k: int| 1u32),
                parents@ =~= Seq::new(i as nat, |k: int| Some(NodeId(k as usize))),
            decreases count - i,
        {
            rank.push(1);
            parents.push(Some(node_ids[i]));
            i = i + 1;
        }
        let uf = UnionFind {
            parents: Parents::new(parents),
            rank,
            level: Ghost(Seq::new(count as nat, |k: int| 0nat)),
            max_level: Ghost(0),
        };
        proof {
            uf.lemma_singletons();
        }
        uf
    }

    proof fn lemma_singletons(&self)
        requires
            self.rank@.len() == self.parents@.len(),
            self.parents@.len() <= u32::MAX,
            self.level@ =~= Seq::new(self.parents@.len(), |k: int| 0nat),
            self.max_level@ == 0,
            forall|i: int| 0 <= i < self.parents@.len() ==> #[trigger] self.rank@[i] == 1,
            forall|i: int| 0 <= i < self.parents@.len() ==> is_root(self.parents@, i),
        ensures
            self.wf(),
            forall|i: int| 0 <= i < self.parents@.len() ==> #[trigger] self.class_root(i) == i,
    {
        let p = self.parents@;
        assert forall|i: int| 0 <= i < p.len() && #[trigger] p[i] is Some implies p[i].unwrap().0
            < p.len() by {
            assert(is_root(p, i));
        }
        assert(parents_in_range(p));
        assert(levels_ok(p, self.level@, self.max_level@));
        assert forall|i: int| 0 <= i < p.len() implies #[trigger] self.class_root(i) == i by {
            lemma_root_of(p, self.level@, self.max_level@, i);
        }
        assert forall|r: int| 0 <= r < p.len() && is_root(p, r) implies self.rank@[r]
            == #[trigger] class_of(p, self.level@, self.max_level@, r).len() by {
            assert forall|v: int| #[trigger]
                class_of(p, self.level@, self.max_level@, r).contains(v) <==> v == r by {
                if 0 <= v < p.len() {
                    lemma_root_of(p, self.level@, self.max_level@, v);
                }
            }
            assert(class_of(p, self.level@, self.max_level@, r) =~= set![r]);
        }
    }

    /// The number of nodes.
    /// There is one rank for each node.
    pub proof fn lemma_ranks_len(&self)
        requires
            self.wf(),
        ensures
            self.ranks().len() == self.spec_count(),
    {
    }

    pub fn count(&self) -> (r: usize)
        ensures
            r == self.spec_count(),
    {
        self.parents.count()
    }

    /// The rank of a node: for a root, the size of its set.
    pub fn rank(&self, index: NodeId) -> (r: u32)
        requires
            self.wf(),
            index.0 < self.spec_count(),
        ensures
            r == self.ranks()[index.0 as int],
    {
        self.rank[index.0]
    }

    /// The root of the set of `needle`; on the way, every node passed is pointed straight at
    /// the root. A node outside the structure is returned as it is.
    pub fn find(&mut self, needle: NodeId) -> (r: NodeId)
        requires
            old(self).wf(),
        ensures
            final(self).wf(),
            final(self).spec_count() == old(self).spec_count(),
            final(self).ranks().len() == final(self).spec_count(),
            final(self).ranks() == old(self).ranks(),
            forall|i: int|
                0 <= i < old(self).spec_count() ==> #[trigger] final(self).class_root(i) == old(
                    self,
                ).class_root(i),
            forall|r: int| #[trigger] final(self).class(r) == old(self).class(r),
            needle.0 < old(self).spec_count() ==> r.0 == old(self).class_root(needle.0 as int),
            needle.0 >= old(self).spec_count() ==> r == needle,
    {
        let ghost p0 = self.parents@;
        let ghost lv = self.level@;
        let ghost m = self.max_level@;
        let mut path: Vec<NodeId> = Vec::new();
        let mut node = needle;
        if needle.0 >= self.parents.count() {
            return needle;
        }
        loop
            invariant
                self.parents@ == p0,
                self.level@ == lv,
                self.max_level@ == m,
                self.wf(),
                0 <= node.0 < p0.len(),
                needle.0 < p0.len(),
                root_of(p0, lv, m, node.0 as int) == root_of(p0, lv, m, needle.0 as int),
                forall|k: int|
                    0 <= k < path@.len() ==> 0 <= (#[trigger] path@[k]).0 < p0.len() && !is_root(
                        p0,
                        path@[k].0 as int,
                    ) && root_of(p0, lv, m, path@[k].0 as int) == root_of(
                        p0,
                        lv,
                        m,
                        needle.0 as int,
                    ),
            ensures
                is_root(p0, node.0 as int),
            decreases m - lv[node.0 as int],
        {
            match self.parents.parent(node) {
                Some(from) => {
                    if from == node {
                        break ;
                    }
                    proof {
                        lemma_root_of(p0, lv, m, node.0 as int);
                        assert(link(p0, node.0 as int) == from.0);
                    }
                    path.push(node);
                    node = from;
                },
                None => {
                    break ;
                },
            }
        }
        proof {
            lemma_root_of(p0, lv, m, node.0 as int);
        }
        let root = node;
        let n = path.len();
        let mut k: usize = 0;
        while k < n
            invariant
                0 <= root.0 < p0.len(),
                root.0 == root_of(p0, lv, m, needle.0 as int),
                needle.0 < p0.len(),
                n == path@.len(),
                k <= n,
                self.level@ == lv,
                self.max_level@ == m,
                self.rank@.len() == p0.len(),
                self.parents@.len() == p0.len(),
                p0.len() <= u32::MAX,
                levels_ok(p0, lv, m),
                levels_ok(self.parents@, lv, m),
                forall|v: int|
                    0 <= v < p0.len() ==> #[trigger] root_of(self.parents@, lv, m, v) == root_of(
                        p0,
                        lv,
                        m,
                        v,
                    ),
                forall|j: int|
                    0 <= j < p0.len() ==> (is_root(self.parents@, j) <==> is_root(p0, j)),
                forall|j: int|
                    0 <= j < path@.len() ==> 0 <= (#[trigger] path@[j]).0 < p0.len() && !is_root(
                        p0,
                        path@[j].0 as int,
                    ) && root_of(p0, lv, m, path@[j].0 as int) == root_of(
                        p0,
                        lv,
                        m,
                        needle.0 as int,
                    ),
                self.rank@ == old(self).rank@,
                p0 == old(self).parents@,
                lv == old(self).level@,
                m == old(self).max_level@,
                old(self).wf(),
            decreases n - k,
        {
            let to = path[k];
            let ghost q = self.parents@;
            proof {
                assert(!is_root(q, to.0 as int));
                assert(root_of(q, lv, m, to.0 as int) == root.0);
                lemma_compress(q, lv, m, to.0 as int, root);
            }
            self.parents.insert(root, to);
            proof {
                let q2 = self.parents@;
                assert forall|j: int| 0 <= j < p0.len() implies (is_root(q2, j) <==> is_root(p0, j)) by {
                    if j == to.0 {
                        lemma_root_of(p0, lv, m, j);
                    }
                }
                assert forall|v: int| 0 <= v < p0.len() implies #[trigger] root_of(q2, lv, m, v)
                    == root_of(p0, lv, m, v) by {
                    assert(root_of(q2, lv, m, v) == root_of(q, lv, m, v));
                }
            }
            k = k + 1;
        }
        proof {
            let q = self.parents@;
            assert forall|r: int| #[trigger] class_of(q, lv, m, r) == class_of(p0, lv, m, r) by {
                assert(class_of(q, lv, m, r) =~= class_of(p0, lv, m, r));
            }
            assert forall|r: int|
                0 <= r < q.len() && is_root(q, r) implies self.rank@[r] == #[trigger] class_of(
                q,
                lv,
                m,
                r,
            ).len() by {
                assert(class_of(q, lv, m, r) == class_of(p0, lv, m, r));
            }
        }
        root
    }

    /// Joins the sets of `x` and `y`, hanging the root of the smaller set (by rank) under the
    /// root of the other (under the root of `x` on a tie), and returns the root of the joined
    /// set.
    pub fn union(&mut self, x: NodeId, y: NodeId) -> (r: NodeId)
        requires
            old(self).wf(),
            x.0 < old(self).spec_count(),
            y.0 < old(self).spec_count(),
        ensures
            final(self).wf(),
            final(self).spec_count() == old(self).spec_count(),
            final(self).ranks().len() == final(self).spec_count(),
            ({
                let rx = old(self).class_root(x.0 as int);
                let ry = old(self).class_root(y.0 as int);
                let ranks = old(self).ranks();
                &&& rx == ry ==> r.0 == rx && final(self).ranks() == ranks
                &&& rx != ry ==> {
                    &&& r.0 == (if ranks[rx] < ranks[ry] { ry } else { rx })
                    &&& ranks[rx] + ranks[ry] <= old(self).spec_count()
                    &&& final(self).ranks()[r.0 as int] == ranks[rx] + ranks[ry]
                    &&& final(self).ranks() == ranks.update(r.0 as int, (ranks[rx] + ranks[ry]) as u32)
                }
                &&& forall|i: int|
                    0 <= i < old(self).spec_count() ==> #[trigger] final(self).class_root(i) == (if old(
                        self,
                    ).class_root(i) == rx || old(self).class_root(i) == ry {
                        r.0 as int
                    } else {
                        old(self).class_root(i)
                    })
            }),
    {
        let ghost old_self = *old(self);
        let mut root_x = self.find(x);
        let mut root_y = self.find(y);
        proof {
            self.lemma_root(x.0 as int);
            self.lemma_root(y.0 as int);
        }
        let ghost s2 = *self;
        if root_x == root_y {
            return root_x;
        }
        if self.rank[root_x.0] < self.rank[root_y.0] {
            let tmp = root_x;
            root_x = root_y;
            root_y = tmp;
        }
        let ghost p = self.parents@;
        let ghost lv = self.level@;
        let ghost m = self.max_level@;
        let ghost newlv: nat = if lv[root_x.0 as int] > lv[root_y.0 as int] {
            lv[root_x.0 as int]
        } else {
            lv[root_y.0 as int] + 1
        };
        let ghost lv2 = lv.update(root_x.0 as int, newlv);
        let ghost m2: nat = if m > newlv { m } else { newlv };
        let ghost cx = class_of(p, lv, m, root_x.0 as int);
        let ghost cy = class_of(p, lv, m, root_y.0 as int);
        proof {
            lemma_root_of(p, lv, m, root_x.0 as int);
            lemma_root_of(p, lv, m, root_y.0 as int);
            lemma_class_finite(p, lv, m, root_x.0 as int);
            lemma_class_finite(p, lv, m, root_y.0 as int);
            lemma_int_range(0, p.len() as int);
            assert(cx.disjoint(cy));
            lemma_set_disjoint_lens(cx, cy);
            lemma_len_subset(cx.union(cy), set_int_range(0, p.len() as int));
            assert(self.rank@[root_x.0 as int] == cx.len());
            assert(self.rank@[root_y.0 as int] == cy.len());
        }
        self.parents.insert(root_x, root_y);
        let sum = self.rank[root_x.0] + self.rank[root_y.0];
        self.rank.set(root_x.0, sum);
        self.level = Ghost(lv2);
        self.max_level = Ghost(m2);
        proof {
            let q = self.parents@;
            let ry = root_y.0 as int;
            assert(parents_in_range(q));
            assert forall|i: int| 0 <= i < q.len() && !is_root(q, i) implies lv2[i]
                < lv2[#[trigger] link(q, i)] by {
                if i != ry {
                    assert(link(q, i) == link(p, i));
                    if link(p, i) == root_x.0 {
                        assert(lv[i] < lv[root_x.0 as int]);
                    }
                }
            }
            assert(levels_ok(q, lv2, m2));
            assert forall|v: int| 0 <= v < q.len() implies #[trigger] root_of(q, lv2, m2, v) == (
            if root_of(p, lv, m, v) == ry {
                root_x.0 as int
            } else {
                root_of(p, lv, m, v)
            }) by {
                lemma_link_roots(p, lv, m, root_x, ry, lv2, m2, v);
            }
            assert(class_of(q, lv2, m2, root_x.0 as int) =~= cx.union(cy));
            assert forall|r: int|
                0 <= r < q.len() && is_root(q, r) implies self.rank@[r] == #[trigger] class_of(
                q,
                lv2,
                m2,
                r,
            ).len() by {
                if r != root_x.0 {
                    assert(r != ry);
                    assert(class_of(q, lv2, m2, r) =~= class_of(p, lv, m, r));
                    assert(self.rank@[r] == old(self).rank@[r]);
                }
            }
            assert forall|i: int| 0 <= i < old_self.spec_count() implies #[trigger] self.class_root(i) == (
            if old_self.class_root(i) == old_self.class_root(x.0 as int) || old_self.class_root(i) == old_self.class_root(
                y.0 as int,
            ) {
                root_x.0 as int
            } else {
                old_self.class_root(i)
            }) by {
                assert(self.class_root(i) == root_of(q, lv2, m2, i));
                assert(s2.class_root(i) == old_self.class_root(i));
                assert(root_of(p, lv, m, i) == s2.class_root(i));
            }
            assert(self.rank@ =~= old_self.rank@.update(
                root_x.0 as int,
                (old_self.rank@[old_self.class_root(x.0 as int)] + old_self.rank@[old_self.class_root(
                    y.0 as int,
                )]) as u32,
            ));
        }
        root_x
    }
}

} // verus!
