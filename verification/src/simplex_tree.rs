//! The simplex tree: an arena of trie nodes, one per simplex, kept in step
//! with the level-list index.
//!
//! A node is named by its handle, its position in the arena. The vertices
//! have the handles `0..n`, equal to their labels. A handle is never given
//! out twice: the slot of a removed node stays empty, so a handle that was
//! kept across a removal names either the simplex it always named or none.

use crate::level_index::{stands_before, LevelListMap};
use crate::point::{coordinate_rows, copy_point, is_ranking, rank_order, same_dimension, uniform_dimension, Point};
use vstd::prelude::*;
use vstd::relations::{antisymmetric, reflexive, sorted_by, strongly_connected, total_ordering, transitive};
use vstd::seq_lib::{lemma_sorted_unique, to_multiset_build, to_multiset_insert};

verus! {

/// Why an operation was refused.
#[derive(Debug, Clone, Copy, PartialEq, Eq, Structural)]
pub enum TreeError {
    /// The points do not all have the same number of coordinates.
    DimensionMismatch,
    /// A label is not the label of a vertex.
    UnknownVertex,
    /// The label sequence is empty or repeats a label.
    InvalidSimplex,
    /// The simplex is not in the tree.
    SimplexNotFound,
}

/// One simplex: the labels on the way from a root to this node.
#[derive(Debug)]
pub struct Node {
    label: u64,
    path: Vec<u64>,
    parent: Option<usize>,
    children: Vec<usize>,
    live: bool,
}

/// A simplicial complex over a sorted list of points.
#[derive(Debug)]
pub struct SimplexTree {
    pub points: Vec<Point>,
    origin: Vec<usize>,
    nodes: Vec<Node>,
    index: LevelListMap,
    dimension: u64,
}

/// Each label is smaller than every later one.
pub open spec fn strictly_increasing(s: Seq<u64>) -> bool {
    forall|i: int, j: int| 0 <= i < j < s.len() ==> s[i] < s[j]
}

/// `p` is an initial part of `s`.
pub open spec fn is_prefix(p: Seq<u64>, s: Seq<u64>) -> bool {
    p.len() <= s.len() && s.take(p.len() as int) == p
}

/// `f` is a face of the simplex with the ascending labels `s`: a non-empty
/// choice of its labels, ascending.
pub open spec fn is_face(f: Seq<u64>, s: Seq<u64>) -> bool {
    &&& f.len() >= 1
    &&& strictly_increasing(f)
    &&& forall|i: int| 0 <= i < f.len() ==> s.contains(#[trigger] f[i])
}

/// `f` is one of the label sequences in `list`.
pub open spec fn listed(list: Seq<Vec<u64>>, f: Seq<u64>) -> bool {
    exists|i: int| 0 <= i < list.len() && (#[trigger] list[i])@ == f
}

/// `b` begins with all of `a`, in the same order.
pub open spec fn extends(a: Seq<usize>, b: Seq<usize>) -> bool {
    a.len() <= b.len() && forall|i: int| 0 <= i < a.len() ==> b[i] == a[i]
}

/// The order on labels.
pub open spec fn label_leq() -> spec_fn(u64, u64) -> bool {
    |a: u64, b: u64| a <= b
}

/// The labels in ascending order.
pub open spec fn ascending(labels: Seq<u64>) -> Seq<u64> {
    labels.sort_by(label_leq())
}

/// Why the tree over `n` points refuses to insert the ascending labels `c`,
/// if it does: an empty or repeating sequence is invalid; otherwise a label
/// that is no vertex is unknown.
pub open spec fn insertion_error(n: nat, c: Seq<u64>) -> Option<TreeError> {
    if c.len() == 0 || !strictly_increasing(c) {
        Some(TreeError::InvalidSimplex)
    } else if exists|i: int| 0 <= i < c.len() && c[i] >= n {
        Some(TreeError::UnknownVertex)
    } else {
        None
    }
}

/// `after` is `before` with the simplex `c` and its initial parts inserted:
/// the nodes of `before` keep their handles and labels, every new node is an
/// initial part of `c`, new handles are registered behind the old ones, and
/// `created` says whether `c` itself was new.
pub open spec fn grown(before: SimplexTree, c: Seq<u64>, after: SimplexTree, created: bool) -> bool {
    &&& after.wf()
    &&& after.spec_points() == before.spec_points()
    &&& after.spec_origin() == before.spec_origin()
    &&& created == !before.contains(c)
    &&& (!created ==> after == before)
    &&& forall|e: int|
        before.is_node(e) ==> #[trigger] after.is_node(e) && after.simplex(e) == before.simplex(e)
    &&& forall|e: int| #[trigger]
        after.is_node(e) && !before.is_node(e) ==> is_prefix(after.simplex(e), c)
    &&& forall|m: int| 1 <= m <= c.len() ==> after.contains(#[trigger] c.take(m))
    &&& forall|v: u64, d: u64|
        extends(before.coface_list(v, d), #[trigger] after.coface_list(v, d))
    &&& after.spec_dimension() == if before.spec_dimension() < c.len() - 1 {
        (c.len() - 1) as u64
    } else {
        before.spec_dimension()
    }
}

/// `after` is `before` without the simplices that begin with `c`: the other
/// nodes keep their handles and labels, and the index lists hold exactly
/// the handles that they held of nodes that are left. Where `removed` is
/// false nothing has changed.
pub open spec fn pruned(before: SimplexTree, c: Seq<u64>, after: SimplexTree, removed: bool) -> bool {
    &&& after.wf()
    &&& after.spec_points() == before.spec_points()
    &&& after.spec_origin() == before.spec_origin()
    &&& (!removed ==> after == before)
    &&& (removed ==> forall|e: int| #[trigger]
        after.is_node(e) <==> before.is_node(e) && !is_prefix(c, before.simplex(e)))
    &&& (removed ==> forall|e: int| #[trigger]
        after.is_node(e) ==> after.simplex(e) == before.simplex(e))
    &&& (removed ==> forall|v: u64, d: u64, e: usize| #[trigger]
        after.coface_list(v, d).contains(e) <==> before.coface_list(v, d).contains(e) && !is_prefix(
            c,
            before.simplex(e as int),
        ))
    &&& (removed ==> forall|v: u64, d: u64, a: usize, b: usize| #[trigger]
        stands_before(after.coface_list(v, d), a, b) <==> stands_before(
            before.coface_list(v, d),
            a,
            b,
        ) && !is_prefix(c, before.simplex(a as int)) && !is_prefix(c, before.simplex(b as int)))
}

impl SimplexTree {
    /// `h` is the handle of a simplex of the tree.
    pub closed spec fn is_node(&self, h: int) -> bool {
        0 <= h < self.nodes.len() && self.nodes[h].live
    }

    /// The labels of the simplex with handle `h`, ascending.
    pub closed spec fn simplex(&self, h: int) -> Seq<u64> {
        self.nodes[h].path@
    }

    /// The handles registered for `label` at `level`.
    pub closed spec fn coface_list(&self, label: u64, level: u64) -> Seq<usize> {
        self.index.list(label, level)
    }

    /// The recorded dimension.
    pub closed spec fn spec_dimension(&self) -> u64 {
        self.dimension
    }

    /// The sorted points.
    pub closed spec fn spec_points(&self) -> Seq<Point> {
        self.points@
    }

    /// For each label, the input position of its point.
    pub closed spec fn spec_origin(&self) -> Seq<usize> {
        self.origin@
    }

    /// The tree holds the simplex with these ascending labels.
    pub open spec fn contains(&self, s: Seq<u64>) -> bool {
        exists|h: int| self.is_node(h) && self.simplex(h) == s
    }

    spec fn child_of(&self, h: int, parent: Option<usize>) -> bool {
        match parent {
            Some(p) => {
                &&& p < h
                &&& self.nodes[p as int].live
                &&& self.nodes[p as int].path@ == self.nodes[h].path@.drop_last()
                &&& self.nodes[p as int].children@.contains(h as usize)
            },
            None => false,
        }
    }

    spec fn is_child_entry(&self, h: int, c: usize) -> bool {
        &&& h < c < self.nodes.len()
        &&& self.nodes[c as int].live
        &&& self.nodes[c as int].parent == Some(h as usize)
    }

    spec fn child_label(&self, h: int, i: int) -> u64 {
        self.nodes[self.nodes[h].children@[i] as int].label
    }

    spec fn node_ok(&self, h: int) -> bool {
        let nd = self.nodes[h];
        let n = self.points.len();
        &&& nd.path.len() >= 1
        &&& nd.label == nd.path@.last()
        &&& strictly_increasing(nd.path@)
        &&& forall|i: int| 0 <= i < nd.path.len() ==> i <= #[trigger] nd.path@[i] < n
        &&& (h < n ==> nd.path@ == seq![h as u64] && nd.parent is None)
        &&& (h >= n ==> nd.path.len() >= 2 && self.child_of(h, nd.parent))
        &&& forall|i: int|
            0 <= i < nd.children.len() ==> self.is_child_entry(h, #[trigger] nd.children@[i])
        &&& forall|i: int, j: int|
            0 <= i < j < nd.children.len() ==> #[trigger] self.child_label(h, i)
                < #[trigger] self.child_label(h, j)
    }

    spec fn level_of(&self, h: int) -> u64 {
        (self.nodes[h].path.len() - 1) as u64
    }

    spec fn index_ok(&self) -> bool {
        &&& forall|h: int| #[trigger]
            self.is_node(h) ==> self.index.list(self.nodes[h].label, self.level_of(h)).contains(
                h as usize,
            )
        &&& forall|v: u64, d: u64, e: usize| #[trigger]
            self.index.list(v, d).contains(e) ==> self.is_node(e as int) && self.nodes[e as int].label
                == v && self.level_of(e as int) == d
        &&& forall|v: u64, d: u64| (#[trigger] self.index.list(v, d)).no_duplicates()
    }

    spec fn dimension_ok(&self) -> bool {
        &&& forall|h: int| #[trigger] self.is_node(h) ==> self.level_of(h) <= self.dimension
        &&& (self.dimension == 0 || exists|h: int| #[trigger]
            self.is_node(h) && self.level_of(h) == self.dimension)
    }

    /// The tree is well formed: one root per point, every other node under
    /// its parent, no simplex twice, each node registered exactly once in the
    /// index under its last label and its depth, and the dimension that of
    /// the deepest node.
    pub closed spec fn wf(&self) -> bool {
        &&& self.points.len() <= self.nodes.len()
        &&& forall|v: int| 0 <= v < self.points.len() ==> #[trigger] self.is_node(v)
        &&& forall|h: int| #[trigger] self.is_node(h) ==> self.node_ok(h)
        &&& forall|a: int, b: int|
            #[trigger] self.is_node(a) && #[trigger] self.is_node(b) && self.nodes[a].path@
                == self.nodes[b].path@ ==> a == b
        &&& self.index_ok()
        &&& self.dimension_ok()
    }

    /// The position in the children of `parent` at which a child with
    /// `label` stands or would be put, and whether it stands there.
    fn find_child(&self, parent: usize, label: u64) -> (r: (bool, usize))
        requires
            self.wf(),
            self.is_node(parent as int),
        ensures
            r.1 <= self.nodes[parent as int].children.len(),
            r.0 ==> r.1 < self.nodes[parent as int].children.len() && self.child_label(
                parent as int,
                r.1 as int,
            ) == label,
            !r.0 ==> forall|i: int|
                0 <= i < self.nodes[parent as int].children.len() ==> self.child_label(
                    parent as int,
                    i,
                ) != label,
            forall|i: int| 0 <= i < r.1 ==> self.child_label(parent as int, i) < label,
            forall|i: int|
                r.1 <= i < self.nodes[parent as int].children.len() ==> self.child_label(
                    parent as int,
                    i,
                ) >= label,
    {
        assert(self.node_ok(parent as int));
        let children = &self.nodes[parent].children;
        let mut lo: usize = 0;
        let mut hi: usize = children.len();
        while lo < hi
            invariant
                self.wf(),
                self.is_node(parent as int),
                self.node_ok(parent as int),
                children == &self.nodes[parent as int].children,
                lo <= hi <= children.len(),
                forall|i: int| 0 <= i < lo ==> self.child_label(parent as int, i) < label,
                forall|i: int|
                    hi <= i < children.len() ==> self.child_label(parent as int, i) >= label,
            decreases hi - lo,
        {
            let mid: usize = lo + (hi - lo) / 2;
            let c: usize = children[mid];
            assert(self.is_child_entry(parent as int, c));
            assert(self.nodes[c as int].label == self.child_label(parent as int, mid as int));
            if self.nodes[c].label < label {
                assert forall|i: int| 0 <= i < mid + 1 implies self.child_label(parent as int, i)
                    < label by {
                    if i < mid {
                        assert(self.child_label(parent as int, i) < self.child_label(
                            parent as int,
                            mid as int,
                        ));
                    }
                }
                lo = mid + 1;
            } else {
                assert forall|i: int| mid <= i < children.len() implies self.child_label(
                    parent as int,
                    i,
                ) >= label by {
                    if i > mid {
                        assert(self.child_label(parent as int, mid as int) < self.child_label(
                            parent as int,
                            i,
                        ));
                    }
                }
                hi = mid;
            }
        }
        let mut found: bool = false;
        if lo < children.len() {
            let c: usize = children[lo];
            assert(self.is_child_entry(parent as int, c));
            assert(self.nodes[c as int].label == self.child_label(parent as int, lo as int));
            found = self.nodes[c].label == label;
        }
        (found, lo)
    }

    /// Sorts the points, gives the `i`-th of them the label `i`, and makes
    /// each a vertex of an otherwise empty complex. Equal points keep the
    /// order in which they were given.
    pub fn new(p: Vec<Point>) -> (r: Result<SimplexTree, TreeError>)
        ensures
            match r {
                Ok(tree) => {
                    &&& uniform_dimension(coordinate_rows(p@))
                    &&& tree.wf()
                    &&& is_ranking(coordinate_rows(p@), tree.spec_origin())
                    &&& tree.spec_points().len() == p.len()
                    &&& forall|v: int|
                        0 <= v < p.len() ==> (#[trigger] tree.spec_points()[v])@ == p@[tree.spec_origin()[v] as int]@
                    &&& forall|h: int| tree.is_node(h) <==> 0 <= h < p.len()
                    &&& forall|v: int| 0 <= v < p.len() ==> #[trigger] tree.simplex(v) == seq![v as u64]
                    &&& forall|v: u64, d: u64| #[trigger]
                        tree.coface_list(v, d) == if d == 0 && v < p.len() {
                            seq![v as usize]
                        } else {
                            Seq::<usize>::empty()
                        }
                    &&& tree.spec_dimension() == 0
                },
                Err(e) => e == TreeError::DimensionMismatch && !uniform_dimension(
                    coordinate_rows(p@),
                ),
            },
    {
        if !same_dimension(&p) {
            return Err(TreeError::DimensionMismatch);
        }
        let origin = rank_order(&p);
        let n: usize = p.len();
        let mut points: Vec<Point> = Vec::new();
        let mut i: usize = 0;
        while i < n
            invariant
                i <= n,
                n == p.len(),
                points.len() == i,
                is_ranking(coordinate_rows(p@), origin@),
                forall|v: int| 0 <= v < i ==> (#[trigger] points@[v])@ == p@[origin@[v] as int]@,
            decreases n - i,
        {
            let at: usize = origin[i];
            points.push(copy_point(&p[at]));
            i += 1;
        }
        let mut nodes: Vec<Node> = Vec::new();
        let mut index = LevelListMap::new();
        let mut v: usize = 0;
        while v < n
            invariant
                v <= n,
                nodes.len() == v,
                forall|h: int|
                    0 <= h < v ==> {
                        let nd = #[trigger] nodes@[h];
                        &&& nd.live
                        &&& nd.label == h
                        &&& nd.path@ == seq![h as u64]
                        &&& nd.parent is None
                        &&& nd.children.len() == 0
                    },
                forall|l: u64, d: u64| #[trigger]
                    index.list(l, d) == if d == 0 && l < v {
                        seq![l as usize]
                    } else {
                        Seq::<usize>::empty()
                    },
            decreases n - v,
        {
            let label: u64 = v as u64;
            let mut path: Vec<u64> = Vec::new();
            path.push(label);
            assert(path@ =~= seq![label]);
            nodes.push(Node { label, path, parent: None, children: Vec::new(), live: true });
            let ghost before = index;
            assert(before.list(label, 0) == Seq::<usize>::empty());
            index.insert_node_set(v, label, 0);
            assert(index.list(label, 0) =~= seq![v]);
            assert forall|l: u64, d: u64| #[trigger]
                index.list(l, d) == if d == 0 && l < v + 1 {
                    seq![l as usize]
                } else {
                    Seq::<usize>::empty()
                } by {
                if l != label || d != 0 {
                    assert(index.list(l, d) == before.list(l, d));
                }
            }
            v += 1;
        }
        let tree = SimplexTree { points, origin, nodes, index, dimension: 0 };
        proof {
            assert forall|h: int| #[trigger] tree.is_node(h) implies tree.node_ok(h) by {
                let nd = tree.nodes@[h];
                assert(nd.path@[0] == h);
            }
            assert forall|a: int, b: int|
                #[trigger] tree.is_node(a) && #[trigger] tree.is_node(b) && tree.nodes[a].path@
                    == tree.nodes[b].path@ implies a == b by {
                assert(tree.nodes@[a].path@[0] == a);
                assert(tree.nodes@[b].path@[0] == b);
            }
            assert forall|h: int| #[trigger] tree.is_node(h) implies tree.index.list(
                tree.nodes[h].label,
                tree.level_of(h),
            ).contains(h as usize) by {
                let nd = tree.nodes@[h];
                assert(seq![h as usize][0] == h as usize);
            }
            assert forall|l: u64, d: u64| (#[trigger] tree.index.list(l, d)).no_duplicates() by {}
            assert forall|l: u64, d: u64, e: usize| #[trigger]
                tree.index.list(l, d).contains(e) implies tree.is_node(e as int)
                && tree.nodes[e as int].label == l && tree.level_of(e as int) == d by {
                let nd = tree.nodes@[e as int];
            }
            assert(tree.index_ok());
            assert forall|h: int| #[trigger] tree.is_node(h) implies tree.level_of(h) == 0 by {
                let nd = tree.nodes@[h];
            }
            assert(tree.wf());
            assert forall|h: int| 0 <= h < p.len() implies #[trigger] tree.simplex(h) == seq![
                h as u64,
            ] by {
                let nd = tree.nodes@[h];
            }
            assert forall|h: int| 0 <= h < p.len() implies tree.is_node(h) by {
                let nd = tree.nodes@[h];
            }
        }
        Ok(tree)
    }

    /// The sorted points: the point with label `i` is at position `i`.
    pub fn points(&self) -> (r: &Vec<Point>)
        ensures
            r@ == self.spec_points(),
    {
        &self.points
    }

    /// For each label, the position that its point had in the input.
    pub fn origin(&self) -> (r: &Vec<usize>)
        ensures
            r@ == self.spec_origin(),
    {
        &self.origin
    }

    /// The largest depth of a node: 0 while the complex holds only vertices.
    pub fn dimension(&self) -> (d: u64)
        ensures
            d == self.spec_dimension(),
    {
        self.dimension
    }

    /// The handles of the simplices of dimension `level` whose last label is
    /// `label`, in the order in which they were registered.
    pub fn cofaces(&self, label: u64, level: u64) -> (r: Vec<usize>)
        ensures
            r@ == self.coface_list(label, level),
    {
        self.index.query(label, level)
    }

    /// The labels of the simplex with this handle, or `None` where the handle
    /// names no simplex of the tree.
    pub fn simplex_of(&self, handle: usize) -> (r: Option<Vec<u64>>)
        ensures
            match r {
                Some(labels) => self.is_node(handle as int) && labels@ == self.simplex(handle as int),
                None => !self.is_node(handle as int),
            },
    {
        if handle < self.nodes.len() && self.nodes[handle].live {
            Some(copy_labels(&self.nodes[handle].path))
        } else {
            None
        }
    }

    /// Creates the node for the simplex of `parent` extended by `label`,
    /// puts it among the children of `parent` at `pos`, and registers it in
    /// the index: the one place where the tree grows.
    fn attach_child(&mut self, parent: usize, pos: usize, label: u64) -> (h: usize)
        requires
            old(self).wf(),
            old(self).is_node(parent as int),
            old(self).nodes[parent as int].label < label,
            label < old(self).points.len(),
            pos <= old(self).nodes[parent as int].children.len(),
            forall|i: int| 0 <= i < pos ==> old(self).child_label(parent as int, i) < label,
            forall|i: int|
                pos <= i < old(self).nodes[parent as int].children.len() ==> old(self).child_label(
                    parent as int,
                    i,
                ) > label,
        ensures
            final(self).wf(),
            h == old(self).nodes.len(),
            final(self).points == old(self).points,
            final(self).origin == old(self).origin,
            forall|e: int|
                old(self).is_node(e) ==> final(self).is_node(e) && final(self).simplex(e) == old(
                    self,
                ).simplex(e),
            forall|e: int| final(self).is_node(e) ==> old(self).is_node(e) || e == h,
            !old(self).is_node(h as int),
            final(self).is_node(h as int),
            final(self).simplex(h as int) == old(self).simplex(parent as int).push(label),
            forall|v: u64, d: u64|
                extends(old(self).coface_list(v, d), #[trigger] final(self).coface_list(v, d)),
            final(self).dimension == if old(self).dimension < old(self).simplex(parent as int).len() {
                old(self).simplex(parent as int).len() as u64
            } else {
                old(self).dimension
            },
    {
        let ghost before = *self;
        let ghost n = self.points.len();
        let ghost ppath = self.nodes[parent as int].path@;
        assert(before.node_ok(parent as int));
        let h: usize = self.nodes.len();
        let path = extend_labels(&self.nodes[parent].path, label);
        let ghost newpath = path@;
        assert(ppath[ppath.len() - 1] < n);
        let level: u64 = (path.len() - 1) as u64;
        proof {
            assert forall|e: int| before.is_node(e) implies before.nodes[e].path@ != newpath by {
                if before.nodes[e].path@ == newpath {
                    assert(before.node_ok(e));
                    let p = before.nodes[e].parent->0;
                    assert(newpath.drop_last() =~= ppath);
                    assert(before.is_node(p as int));
                    assert(p == parent);
                    let i = choose|i: int|
                        0 <= i < before.nodes[parent as int].children.len()
                            && before.nodes[parent as int].children@[i] == e as usize;
                    assert(before.child_label(parent as int, i) == label);
                }
            }
        }
        self.nodes.push(Node { label, path, parent: Some(parent), children: Vec::new(), live: true });
        self.nodes[parent].children.insert(pos, h);
        assert(!before.index.list(label, level).contains(h)) by {
            if before.index.list(label, level).contains(h) {
                assert(before.is_node(h as int));
            }
        }
        let added = self.index.insert_node_set(h, label, level);
        if level > self.dimension {
            self.dimension = level;
        }
        proof {
            let after = *self;
            let old_kids = before.nodes[parent as int].children@;
            let new_kids = after.nodes[parent as int].children@;
            assert(new_kids == old_kids.insert(pos as int, h));
            assert forall|e: int| 0 <= e < h implies {
                &&& (#[trigger] after.nodes[e]).path == before.nodes[e].path
                &&& after.nodes[e].label == before.nodes[e].label
                &&& after.nodes[e].parent == before.nodes[e].parent
                &&& after.nodes[e].live == before.nodes[e].live
                &&& (e != parent ==> after.nodes[e].children == before.nodes[e].children)
            } by {}
            assert forall|i: int| 0 <= i < new_kids.len() implies after.child_label(parent as int, i)
                == (if i < pos {
                before.child_label(parent as int, i)
            } else if i == pos {
                label
            } else {
                before.child_label(parent as int, i - 1)
            }) by {
                if i < pos {
                    assert(before.is_child_entry(parent as int, old_kids[i]));
                } else if i > pos {
                    assert(before.is_child_entry(parent as int, old_kids[i - 1]));
                }
            }
            assert forall|e: int| #[trigger] after.is_node(e) implies after.node_ok(e) by {
                if e == h {
                    assert(newpath.drop_last() =~= ppath);
                    assert(new_kids[pos as int] == h);
                    assert forall|i: int, j: int| 0 <= i < j < newpath.len() implies newpath[i]
                        < newpath[j] by {
                        if j == newpath.len() - 1 {
                            if i < ppath.len() - 1 {
                                assert(ppath[i] < ppath[ppath.len() - 1]);
                            }
                        }
                    }
                    assert(after.node_ok(e));
                } else {
                    assert(before.is_node(e));
                    assert(before.node_ok(e));
                    let nd = after.nodes[e];
                    assert forall|i: int| 0 <= i < nd.children.len() implies after.is_child_entry(
                        e,
                        #[trigger] nd.children@[i],
                    ) by {
                        if e == parent {
                            if i < pos {
                                assert(before.is_child_entry(e, old_kids[i]));
                            } else if i > pos {
                                assert(before.is_child_entry(e, old_kids[i - 1]));
                            }
                        } else {
                            assert(before.is_child_entry(e, before.nodes[e].children@[i]));
                        }
                    }
                    assert forall|i: int, j: int| 0 <= i < j < nd.children.len() implies #[trigger]
                        after.child_label(e, i) < #[trigger] after.child_label(e, j) by {
                        if e == parent {
                            let bi = if i < pos { i } else { i - 1 };
                            let bj = if j < pos { j } else { j - 1 };
                            if i != pos && j != pos {
                                assert(before.child_label(e, bi) < before.child_label(e, bj));
                            }
                        } else {
                            assert(before.is_child_entry(e, before.nodes[e].children@[i]));
                            assert(before.is_child_entry(e, before.nodes[e].children@[j]));
                            assert(before.child_label(e, i) < before.child_label(e, j));
                        }
                    }
                    if e >= n {
                        let p = before.nodes[e].parent->0;
                        assert(before.child_of(e, before.nodes[e].parent));
                        if p == parent {
                            let i = choose|i: int| 0 <= i < old_kids.len() && old_kids[i] == e as usize;
                            let ii = if i < pos { i } else { i + 1 };
                            assert(new_kids[ii] == e as usize);
                        }
                        assert(after.child_of(e, nd.parent));
                    }
                    assert(after.node_ok(e));
                }
            }
            assert forall|a: int, b: int|
                #[trigger] after.is_node(a) && #[trigger] after.is_node(b) && after.nodes[a].path@
                    == after.nodes[b].path@ implies a == b by {
                if a != h {
                    assert(before.is_node(a));
                }
                if b != h {
                    assert(before.is_node(b));
                }
            }
            let old_list = before.index.list(label, level);
            assert forall|v: u64, d: u64| extends(
                before.coface_list(v, d),
                #[trigger] after.coface_list(v, d),
            ) by {
                if v != label || d != level {
                    assert(after.index.list(v, d) == before.index.list(v, d));
                }
            }
            assert forall|e: int| #[trigger] after.is_node(e) implies after.index.list(
                after.nodes[e].label,
                after.level_of(e),
            ).contains(e as usize) by {
                let v = after.nodes[e].label;
                let d = after.level_of(e);
                if e == h {
                    assert(old_list.push(h)[old_list.len() as int] == h);
                } else {
                    assert(before.is_node(e));
                    assert(before.index.list(v, d).contains(e as usize));
                    let i = choose|i: int|
                        0 <= i < before.index.list(v, d).len() && before.index.list(v, d)[i]
                            == e as usize;
                    assert(extends(before.coface_list(v, d), after.coface_list(v, d)));
                    assert(after.index.list(v, d)[i] == e as usize);
                }
            }
            assert forall|v: u64, d: u64, e: usize| #[trigger]
                after.index.list(v, d).contains(e) implies after.is_node(e as int)
                && after.nodes[e as int].label == v && after.level_of(e as int) == d by {
                if v != label || d != level {
                    assert(after.index.list(v, d) == before.index.list(v, d));
                    assert(before.index.list(v, d).contains(e));
                } else {
                    let i = choose|i: int|
                        0 <= i < after.index.list(v, d).len() && after.index.list(v, d)[i] == e;
                    if i < old_list.len() {
                        assert(old_list[i] == e);
                        assert(before.index.list(v, d).contains(e));
                    }
                }
            }
            assert forall|v: u64, d: u64| (#[trigger] after.index.list(v, d)).no_duplicates() by {
                if v != label || d != level {
                    assert(after.index.list(v, d) == before.index.list(v, d));
                } else {
                    assert(before.index.list(v, d).no_duplicates());
                }
            }
            assert(after.index_ok());
            assert forall|e: int| #[trigger] after.is_node(e) implies after.level_of(e)
                <= after.dimension by {
                if e != h {
                    assert(before.is_node(e));
                }
            }
            if after.dimension != 0 {
                if after.dimension == level && before.dimension < level {
                    assert(after.is_node(h as int) && after.level_of(h as int) == after.dimension);
                } else {
                    let w = choose|w: int| #[trigger]
                        before.is_node(w) && before.level_of(w) == before.dimension;
                    assert(after.is_node(w) && after.level_of(w) == after.dimension);
                }
            }
            assert(after.dimension_ok());
            assert forall|v: int| 0 <= v < after.points.len() implies #[trigger] after.is_node(v) by {
                assert(before.is_node(v));
            }
            assert(after.wf());
        }
        h
    }

    /// Inserts the simplex with the ascending labels `labels`, creating the
    /// nodes of its initial parts where they are missing. Returns whether the
    /// simplex was new, and its handle.
    pub fn insert_path(&mut self, labels: &Vec<u64>) -> (r: Result<(bool, usize), TreeError>)
        requires
            old(self).wf(),
        ensures
            r is Err <==> insertion_error(old(self).spec_points().len(), labels@) is Some,
            match r {
                Ok((created, handle)) => {
                    &&& grown(*old(self), labels@, *final(self), created)
                    &&& final(self).is_node(handle as int)
                    &&& final(self).simplex(handle as int) == labels@
                },
                Err(e) => Some(e) == insertion_error(old(self).spec_points().len(), labels@)
                    && *final(self) == *old(self),
            },
    {
        let ghost before = *self;
        let ghost c = labels@;
        let len: usize = labels.len();
        if len == 0 || !is_strictly_increasing(labels) {
            return Err(TreeError::InvalidSimplex);
        }
        let n: usize = self.points.len();
        if labels[len - 1] >= n as u64 {
            return Err(TreeError::UnknownVertex);
        }
        assert forall|i: int| 0 <= i < c.len() implies c[i] < n by {
            if i < len - 1 {
                assert(c[i] < c[len - 1]);
            }
        }
        let mut cur: usize = labels[0] as usize;
        let mut created: bool = false;
        let mut k: usize = 1;
        proof {
            assert(self.is_node(cur as int));
            assert(self.node_ok(cur as int));
            assert(self.simplex(cur as int) =~= c.take(1));
        }
        while k < len
            invariant
                1 <= k <= len,
                len == labels.len(),
                c == labels@,
                strictly_increasing(c),
                forall|i: int| 0 <= i < c.len() ==> c[i] < self.points.len(),
                before.wf(),
                self.wf(),
                self.is_node(cur as int),
                self.simplex(cur as int) == c.take(k as int),
                self.points == before.points,
                self.origin == before.origin,
                self.nodes.len() >= before.nodes.len(),
                !created ==> *self == before,
                created ==> cur >= before.nodes.len(),
                forall|e: int|
                    before.is_node(e) ==> #[trigger] self.is_node(e) && self.simplex(e)
                        == before.simplex(e),
                forall|e: int| #[trigger]
                    self.is_node(e) && !before.is_node(e) ==> is_prefix(self.simplex(e), c),
                forall|m: int| 1 <= m <= k ==> self.contains(#[trigger] c.take(m)),
                forall|v: u64, d: u64|
                    extends(before.coface_list(v, d), #[trigger] self.coface_list(v, d)),
                self.dimension == if before.dimension < k - 1 {
                    (k - 1) as u64
                } else {
                    before.dimension
                },
            decreases len - k,
        {
            let label: u64 = labels[k];
            let ghost mid = *self;
            assert(mid.node_ok(cur as int));
            assert(mid.nodes[cur as int].label == c[k - 1]) by {
                assert(c.take(k as int)[k - 1] == c[k - 1]);
            }
            let (found, pos) = self.find_child(cur, label);
            if found {
                let child: usize = self.nodes[cur].children[pos];
                proof {
                    assert(mid.is_child_entry(cur as int, child));
                    assert(mid.is_node(child as int));
                    assert(mid.node_ok(child as int));
                    let cp = mid.nodes[child as int].path@;
                    assert(cp =~= cp.drop_last().push(cp.last()));
                    assert(cp =~= c.take(k + 1));
                    assert(mid.level_of(child as int) == k);
                    if !created {
                        assert(before.level_of(child as int) <= before.dimension);
                    }
                }
                cur = child;
            } else {
                let h = self.attach_child(cur, pos, label);
                proof {
                    assert(mid.simplex(cur as int).push(label) =~= c.take(k + 1));
                    assert(c.take(k + 1).take(k + 1) =~= c.take(k + 1));
                    assert forall|e: int| #[trigger]
                        self.is_node(e) && !before.is_node(e) implies is_prefix(
                        self.simplex(e),
                        c,
                    ) by {
                        if e != h {
                            assert(mid.is_node(e));
                        } else {
                            assert(c.take(c.take(k + 1).len() as int) =~= c.take(k + 1));
                        }
                    }
                    assert forall|m: int| 1 <= m <= k + 1 implies self.contains(
                        #[trigger] c.take(m),
                    ) by {
                        if m <= k {
                            assert(mid.contains(c.take(m)));
                            let w = choose|w: int| mid.is_node(w) && mid.simplex(w) == c.take(m);
                            assert(self.is_node(w) && self.simplex(w) == c.take(m));
                        } else {
                            assert(self.is_node(h as int) && self.simplex(h as int) == c.take(m));
                        }
                    }
                    assert forall|e: int| before.is_node(e) implies #[trigger] self.is_node(e)
                        && self.simplex(e) == before.simplex(e) by {
                        assert(mid.is_node(e));
                    }
                    assert forall|v: u64, d: u64|
                        extends(before.coface_list(v, d), #[trigger] self.coface_list(v, d)) by {
                        assert(extends(before.coface_list(v, d), mid.coface_list(v, d)));
                        assert(extends(mid.coface_list(v, d), self.coface_list(v, d)));
                    }
                }
                created = true;
                cur = h;
            }
            k += 1;
        }
        proof {
            assert(c.take(len as int) =~= c);
            if created {
                if before.contains(c) {
                    let w = choose|w: int| before.is_node(w) && before.simplex(w) == c;
                    assert(self.is_node(w));
                    assert(w == cur);
                }
            } else {
                assert(before.is_node(cur as int) && before.simplex(cur as int) == c);
            }
        }
        Ok((created, cur))
    }

    /// Inserts the simplex with the given labels, in any order, together
    /// with the initial parts of its ascending form that are missing. Returns
    /// whether the simplex was new.
    pub fn insert_simplex(&mut self, labels: &Vec<u64>) -> (r: Result<bool, TreeError>)
        requires
            old(self).wf(),
        ensures
            r is Err <==> insertion_error(old(self).spec_points().len(), ascending(labels@)) is Some,
            match r {
                Ok(created) => grown(*old(self), ascending(labels@), *final(self), created),
                Err(e) => Some(e) == insertion_error(
                    old(self).spec_points().len(),
                    ascending(labels@),
                ) && *final(self) == *old(self),
            },
    {
        let sorted = canonical(labels);
        match self.insert_path(&sorted) {
            Ok((created, _)) => Ok(created),
            Err(e) => Err(e),
        }
    }

    /// A complex holds, with each simplex, every initial part of it.
    pub proof fn lemma_prefix_closed(&self, h: int, m: int)
        requires
            self.wf(),
            self.is_node(h),
            1 <= m <= self.simplex(h).len(),
        ensures
            self.contains(self.simplex(h).take(m)),
        decreases self.simplex(h).len(),
    {
        let path = self.simplex(h);
        assert(self.node_ok(h));
        if m == path.len() {
            assert(path.take(m) =~= path);
        } else {
            let p = self.nodes[h].parent->0 as int;
            assert(self.is_node(p));
            self.lemma_prefix_closed(p, m);
            assert(self.simplex(p).take(m) =~= path.take(m));
        }
    }

    /// The handle of the simplex with the ascending labels `labels`, or
    /// `None` where the tree does not hold it.
    pub fn locate(&self, labels: &Vec<u64>) -> (r: Option<usize>)
        requires
            self.wf(),
        ensures
            match r {
                Some(h) => self.is_node(h as int) && self.simplex(h as int) == labels@,
                None => !self.contains(labels@),
            },
    {
        let ghost c = labels@;
        let len: usize = labels.len();
        if len == 0 {
            assert forall|e: int| self.is_node(e) implies self.simplex(e) != c by {
                assert(self.node_ok(e));
            }
            return None;
        }
        if labels[0] >= self.points.len() as u64 {
            assert forall|e: int| self.is_node(e) implies self.simplex(e) != c by {
                assert(self.node_ok(e));
                if self.simplex(e) == c {
                    assert(self.nodes[e].path@[0] < self.points.len());
                }
            }
            return None;
        }
        let mut cur: usize = labels[0] as usize;
        proof {
            assert(self.is_node(cur as int));
            assert(self.node_ok(cur as int));
            assert(self.simplex(cur as int) =~= c.take(1));
        }
        let mut k: usize = 1;
        while k < len
            invariant
                1 <= k <= len,
                len == labels.len(),
                c == labels@,
                self.wf(),
                self.is_node(cur as int),
                self.simplex(cur as int) == c.take(k as int),
            decreases len - k,
        {
            let label: u64 = labels[k];
            assert(self.node_ok(cur as int));
            let (found, pos) = self.find_child(cur, label);
            if !found {
                proof {
                    assert forall|e: int| self.is_node(e) implies self.simplex(e) != c.take(
                        k + 1,
                    ) by {
                        if self.simplex(e) == c.take(k + 1) {
                            assert(self.node_ok(e));
                            let p = self.nodes[e].parent->0;
                            assert(c.take(k + 1).drop_last() =~= c.take(k as int));
                            assert(self.is_node(p as int));
                            assert(p == cur);
                            let i = choose|i: int|
                                0 <= i < self.nodes[cur as int].children.len()
                                    && self.nodes[cur as int].children@[i] == e as usize;
                            assert(self.child_label(cur as int, i) == label);
                        }
                    }
                    if self.contains(c) {
                        let w = choose|w: int| self.is_node(w) && self.simplex(w) == c;
                        self.lemma_prefix_closed(w, k + 1);
                    }
                }
                return None;
            }
            let child: usize = self.nodes[cur].children[pos];
            proof {
                assert(self.is_child_entry(cur as int, child));
                assert(self.is_node(child as int));
                assert(self.node_ok(child as int));
                let cp = self.nodes[child as int].path@;
                assert(cp =~= cp.drop_last().push(cp.last()));
                assert(cp =~= c.take(k + 1));
            }
            cur = child;
            k += 1;
        }
        assert(c.take(len as int) =~= c);
        Some(cur)
    }

    /// The handles of the initial parts of the simplex with this handle,
    /// found by walking up from parent to parent: the vertex first, the
    /// simplex itself last. Empty where the handle names no simplex.
    pub fn face_chain(&self, handle: usize) -> (chain: Vec<usize>)
        requires
            self.wf(),
        ensures
            !self.is_node(handle as int) ==> chain@.len() == 0,
            self.is_node(handle as int) ==> chain@.len() == self.simplex(handle as int).len(),
            self.is_node(handle as int) ==> forall|m: int|
                0 <= m < chain@.len() ==> self.is_node(#[trigger] chain@[m] as int) && self.simplex(
                    chain@[m] as int,
                ) == self.simplex(handle as int).take(m + 1),
    {
        let mut chain: Vec<usize> = Vec::new();
        if handle >= self.nodes.len() || !self.nodes[handle].live {
            return chain;
        }
        let ghost path = self.simplex(handle as int);
        let len: usize = self.nodes[handle].path.len();
        while chain.len() < len
            invariant
                chain.len() <= len,
            decreases len - chain.len(),
        {
            chain.push(handle);
        }
        let mut cur: usize = handle;
        let mut k: usize = len;
        assert(path.take(len as int) =~= path);
        while k > 0
            invariant
                self.wf(),
                k <= len,
                len == path.len(),
                chain.len() == len,
                path == self.simplex(handle as int),
                self.is_node(cur as int),
                k > 0 ==> self.simplex(cur as int) == path.take(k as int),
                forall|m: int|
                    k <= m < len ==> self.is_node(#[trigger] chain@[m] as int) && self.simplex(
                        chain@[m] as int,
                    ) == path.take(m + 1),
            decreases k,
        {
            k -= 1;
            chain[k] = cur;
            if k > 0 {
                assert(self.node_ok(cur as int));
                match self.nodes[cur].parent {
                    Some(p) => {
                        assert(path.take(k + 1).drop_last() =~= path.take(k as int));
                        cur = p;
                    },
                    None => {},
                }
            }
        }
        chain
    }

    /// The simplex with handle `e` has dimension `level` and contains `label`.
    pub open spec fn in_star(&self, e: usize, label: u64, level: u64) -> bool {
        &&& self.is_node(e as int)
        &&& self.simplex(e as int).len() - 1 == level
        &&& self.simplex(e as int).contains(label)
    }

    /// The handles of all simplices of dimension `level` that contain the
    /// vertex `label`, each once: gathered from the index lists of `label`
    /// and of every larger label, without walking the tree.
    pub fn star(&self, label: u64, level: u64) -> (r: Vec<usize>)
        requires
            self.wf(),
        ensures
            r@.no_duplicates(),
            forall|e: usize| #[trigger] r@.contains(e) <==> self.in_star(e, label, level),
    {
        let n: u64 = self.points.len() as u64;
        let mut out: Vec<usize> = Vec::new();
        let mut l: u64 = label;
        proof {
            assert forall|e: usize| self.in_star(e, label, level) implies self.nodes[e as int].label
                >= label by {
                self.lemma_last_is_largest(e as int, label);
            }
        }
        while l < n
            invariant
                self.wf(),
                label <= l,
                n == self.points.len(),
                out@.no_duplicates(),
                forall|e: usize|
                    self.in_star(e, label, level) ==> self.nodes[e as int].label >= label,
                forall|e: usize| #[trigger]
                    out@.contains(e) <==> self.in_star(e, label, level) && self.nodes[e as int].label
                        < l,
            decreases n - l,
        {
            match self.index.level_list(l, level) {
                Some(list) => {
                    let mut i: usize = 0;
                    while i < list.len()
                        invariant
                            self.wf(),
                            i <= list.len(),
                            list@ == self.index.list(l, level),
                            out@.no_duplicates(),
                            forall|e: usize| #[trigger]
                                out@.contains(e) <==> self.in_star(e, label, level) && (
                                self.nodes[e as int].label < l || (self.nodes[e as int].label == l
                                    && list@.take(i as int).contains(e))),
                        decreases list.len() - i,
                    {
                        let e: usize = list[i];
                        let ghost prev = out@;
                        proof {
                            assert(self.index.list(l, level).contains(e));
                            assert(self.is_node(e as int));
                            assert(self.node_ok(e as int));
                            assert(list@.no_duplicates());
                        }
                        let hit: bool = contains_label(&self.nodes[e].path, label);
                        if hit {
                            assert(!prev.contains(e)) by {
                                if list@.take(i as int).contains(e) {
                                    let j = choose|j: int| 0 <= j < i && list@.take(i as int)[j] == e;
                                    assert(list@[j] == list@[i as int]);
                                }
                            }
                            out.push(e);
                        }
                        proof {
                            let shown = list@.take(i as int);
                            let next = list@.take(i + 1);
                            assert(next =~= shown.push(e));
                            assert forall|x: usize| #[trigger]
                                out@.contains(x) <==> self.in_star(x, label, level) && (
                                self.nodes[x as int].label < l || (self.nodes[x as int].label == l
                                    && next.contains(x))) by {
                                if x == e {
                                    assert(next[i as int] == e);
                                    if hit {
                                        assert(out@[prev.len() as int] == e);
                                    }
                                } else {
                                    if shown.contains(x) {
                                        let j = choose|j: int| 0 <= j < shown.len() && shown[j] == x;
                                        assert(next[j] == x);
                                    }
                                    if next.contains(x) {
                                        let j = choose|j: int| 0 <= j < next.len() && next[j] == x;
                                        assert(shown[j] == x);
                                    }
                                    if prev.contains(x) {
                                        let j = choose|j: int| 0 <= j < prev.len() && prev[j] == x;
                                        assert(out@[j] == x);
                                    }
                                    if hit && out@.contains(x) {
                                        let j = choose|j: int| 0 <= j < out@.len() && out@[j] == x;
                                        assert(prev[j] == x);
                                    }
                                }
                            }
                        }
                        i += 1;
                    }
                    proof {
                        assert(list@.take(i as int) =~= list@);
                        assert forall|e: usize| #[trigger]
                            out@.contains(e) <==> self.in_star(e, label, level)
                                && self.nodes[e as int].label < l + 1 by {
                            if self.in_star(e, label, level) && self.nodes[e as int].label == l {
                                assert(self.node_ok(e as int));
                                assert(self.index.list(
                                    self.nodes[e as int].label,
                                    self.level_of(e as int),
                                ).contains(e));
                            }
                        }
                    }
                },
                None => {
                    proof {
                        assert forall|e: usize| #[trigger]
                            out@.contains(e) <==> self.in_star(e, label, level)
                                && self.nodes[e as int].label < l + 1 by {
                            if self.in_star(e, label, level) && self.nodes[e as int].label == l {
                                assert(self.node_ok(e as int));
                                assert(self.index.list(
                                    self.nodes[e as int].label,
                                    self.level_of(e as int),
                                ).contains(e));
                            }
                        }
                    }
                },
            }
            l += 1;
        }
        proof {
            assert forall|e: usize| #[trigger] out@.contains(e) <==> self.in_star(
                e,
                label,
                level,
            ) by {
                if self.in_star(e, label, level) {
                    assert(self.node_ok(e as int));
                    let path = self.nodes[e as int].path@;
                    assert(path[path.len() - 1] < n);
                }
            }
        }
        out
    }

    /// The last label of a simplex is its largest.
    pub proof fn lemma_last_is_largest(&self, h: int, label: u64)
        requires
            self.wf(),
            self.is_node(h),
            self.simplex(h).contains(label),
        ensures
            label <= self.simplex(h).last(),
            self.simplex(h).last() < self.spec_points().len(),
    {
        assert(self.node_ok(h));
        let path = self.simplex(h);
        let j = choose|j: int| 0 <= j < path.len() && path[j] == label;
        if j < path.len() - 1 {
            assert(path[j] < path[path.len() - 1]);
        }
        assert(path[path.len() - 1] < self.points.len());
    }

    /// The faces of the simplex with this handle, each once, as label
    /// sequences; whether the tree holds a face is a matter for `locate`.
    /// Empty where the handle names no simplex.
    pub fn faces(&self, handle: usize) -> (r: Vec<Vec<u64>>)
        requires
            self.wf(),
        ensures
            !self.is_node(handle as int) ==> r@.len() == 0,
            self.is_node(handle as int) ==> forall|f: Seq<u64>|
                listed(r@, f) <==> is_face(f, self.simplex(handle as int)),
            forall|i: int, j: int| 0 <= i < j < r@.len() ==> r@[i]@ != r@[j]@,
    {
        if handle >= self.nodes.len() || !self.nodes[handle].live {
            return Vec::new();
        }
        assert(self.is_node(handle as int));
        assert(self.node_ok(handle as int));
        choices(&self.nodes[handle].path)
    }

    /// Takes every node whose simplex begins with `c` out of the index and
    /// marks it as gone, children before their parents.
    fn sweep(&mut self, c: &Vec<u64>)
        requires
            old(self).wf(),
        ensures
            final(self).points == old(self).points,
            final(self).origin == old(self).origin,
            final(self).dimension == old(self).dimension,
            final(self).nodes.len() == old(self).nodes.len(),
            forall|e: int|
                0 <= e < old(self).nodes.len() ==> {
                    &&& (#[trigger] final(self).nodes[e]).path == old(self).nodes[e].path
                    &&& final(self).nodes[e].label == old(self).nodes[e].label
                    &&& final(self).nodes[e].parent == old(self).nodes[e].parent
                    &&& final(self).nodes[e].children == old(self).nodes[e].children
                    &&& final(self).nodes[e].live == (old(self).nodes[e].live && !is_prefix(
                        c@,
                        old(self).nodes[e].path@,
                    ))
                },
            forall|v: u64, d: u64| (#[trigger] final(self).index.list(v, d)).no_duplicates(),
            forall|v: u64, d: u64, e: usize| #[trigger]
                final(self).index.list(v, d).contains(e) <==> old(self).index.list(v, d).contains(e)
                    && !is_prefix(c@, old(self).nodes[e as int].path@),
            forall|v: u64, d: u64, a: usize, b: usize| #[trigger]
                stands_before(final(self).index.list(v, d), a, b) <==> stands_before(
                    old(self).index.list(v, d),
                    a,
                    b,
                ) && !is_prefix(c@, old(self).nodes[a as int].path@) && !is_prefix(
                    c@,
                    old(self).nodes[b as int].path@,
                ),
    {
        let ghost before = *self;
        let mut i: usize = self.nodes.len();
        proof {
            assert forall|v: u64, d: u64, a: usize, b: usize| #[trigger]
                stands_before(before.index.list(v, d), a, b) implies a < i && b < i by {
                assert(before.index.list(v, d).contains(a));
                assert(before.index.list(v, d).contains(b));
                assert(before.is_node(a as int) && before.is_node(b as int));
            }
        }
        while i > 0
            invariant
                before.wf(),
                i <= self.nodes.len(),
                self.points == before.points,
                self.origin == before.origin,
                self.dimension == before.dimension,
                self.nodes.len() == before.nodes.len(),
                forall|e: int|
                    0 <= e < before.nodes.len() ==> {
                        &&& (#[trigger] self.nodes[e]).path == before.nodes[e].path
                        &&& self.nodes[e].label == before.nodes[e].label
                        &&& self.nodes[e].parent == before.nodes[e].parent
                        &&& self.nodes[e].children == before.nodes[e].children
                        &&& self.nodes[e].live == (before.nodes[e].live && (e < i || !is_prefix(
                            c@,
                            before.nodes[e].path@,
                        )))
                    },
                forall|v: u64, d: u64| (#[trigger] self.index.list(v, d)).no_duplicates(),
                forall|v: u64, d: u64, e: usize| #[trigger]
                    self.index.list(v, d).contains(e) <==> before.index.list(v, d).contains(e) && (e
                        < i || !is_prefix(c@, before.nodes[e as int].path@)),
                forall|v: u64, d: u64, a: usize, b: usize| #[trigger]
                    stands_before(self.index.list(v, d), a, b) <==> stands_before(
                        before.index.list(v, d),
                        a,
                        b,
                    ) && (a < i || !is_prefix(c@, before.nodes[a as int].path@)) && (b < i
                        || !is_prefix(c@, before.nodes[b as int].path@)),
            decreases i,
        {
            i -= 1;
            let ghost mid = *self;
            let doomed: bool = self.nodes[i].live && has_prefix(&self.nodes[i].path, c);
            if doomed {
                let label: u64 = self.nodes[i].label;
                assert(before.is_node(i as int));
                assert(before.node_ok(i as int));
                let level: u64 = (self.nodes[i].path.len() - 1) as u64;
                let ghost list = mid.index.list(label, level);
                assert(before.index.list(label, level).contains(i));
                assert(list.contains(i));
                let removed = self.index.remove_node_set(i, label, level);
                self.nodes[i].live = false;
                proof {
                    let k = crate::level_index::first_position(list, i);
                    crate::level_index::lemma_remove_entry(list, k);
                    assert forall|v: u64, d: u64| (#[trigger] self.index.list(
                        v,
                        d,
                    )).no_duplicates() by {
                        if v != label || d != level {
                            assert(self.index.list(v, d) == mid.index.list(v, d));
                        }
                    }
                    assert forall|v: u64, d: u64, e: usize| #[trigger]
                        self.index.list(v, d).contains(e) <==> before.index.list(v, d).contains(e)
                            && (e < i || !is_prefix(c@, before.nodes[e as int].path@)) by {
                        if v != label || d != level {
                            assert(self.index.list(v, d) == mid.index.list(v, d));
                            if e == i && before.index.list(v, d).contains(e) {
                                assert(before.is_node(e as int));
                            }
                        } else {
                            assert(self.index.list(v, d) == list.remove(k));
                        }
                    }
                    assert forall|v: u64, d: u64, a: usize, b: usize| #[trigger]
                        stands_before(self.index.list(v, d), a, b) <==> stands_before(
                            before.index.list(v, d),
                            a,
                            b,
                        ) && (a < i || !is_prefix(c@, before.nodes[a as int].path@)) && (b < i
                            || !is_prefix(c@, before.nodes[b as int].path@)) by {
                        if v != label || d != level {
                            assert(self.index.list(v, d) == mid.index.list(v, d));
                            if stands_before(before.index.list(v, d), a, b) && (a == i || b == i) {
                                assert(before.index.list(v, d).contains(i));
                                assert(before.is_node(i as int));
                            }
                        } else {
                            assert(self.index.list(v, d) == list.remove(k));
                            assert(stands_before(list.remove(k), a, b) <==> stands_before(list, a, b)
                                && a != list[k] && b != list[k]);
                        }
                    }
                }
            } else {
                proof {
                    assert forall|v: u64, d: u64, a: usize, b: usize| #[trigger]
                        stands_before(self.index.list(v, d), a, b) <==> stands_before(
                            before.index.list(v, d),
                            a,
                            b,
                        ) && (a < i || !is_prefix(c@, before.nodes[a as int].path@)) && (b < i
                            || !is_prefix(c@, before.nodes[b as int].path@)) by {
                        if stands_before(before.index.list(v, d), a, b) && (a == i || b == i) {
                            assert(before.index.list(v, d).contains(i));
                            assert(before.is_node(i as int));
                        }
                    }
                    assert forall|v: u64, d: u64, e: usize| #[trigger]
                        self.index.list(v, d).contains(e) <==> before.index.list(v, d).contains(e)
                            && (e < i || !is_prefix(c@, before.nodes[e as int].path@)) by {
                        if e == i && before.index.list(v, d).contains(e) {
                            assert(before.is_node(e as int));
                        }
                    }
                }
            }
        }
    }

    /// The largest depth among the nodes that are there.
    fn deepest(&self) -> (dim: u64)
        requires
            forall|e: int|
                0 <= e < self.nodes.len() && (#[trigger] self.nodes[e]).live ==> 1
                    <= self.nodes[e].path.len(),
        ensures
            forall|h: int| #[trigger] self.is_node(h) ==> self.level_of(h) <= dim,
            dim == 0 || exists|h: int| #[trigger] self.is_node(h) && self.level_of(h) == dim,
    {
        let mut dim: u64 = 0;
        let mut i: usize = 0;
        while i < self.nodes.len()
            invariant
                i <= self.nodes.len(),
                forall|e: int|
                    0 <= e < self.nodes.len() && (#[trigger] self.nodes[e]).live ==> 1
                        <= self.nodes[e].path.len(),
                forall|h: int| 0 <= h < i && #[trigger] self.is_node(h) ==> self.level_of(h) <= dim,
                dim == 0 || exists|h: int| #[trigger] self.is_node(h) && self.level_of(h) == dim,
            decreases self.nodes.len() - i,
        {
            if self.nodes[i].live {
                let level: u64 = (self.nodes[i].path.len() - 1) as u64;
                if level > dim {
                    dim = level;
                    assert(self.is_node(i as int) && self.level_of(i as int) == dim);
                }
            }
            i += 1;
        }
        dim
    }

    /// Removes the simplex with the ascending labels `labels` and every
    /// simplex that begins with them. A vertex is never removed: for a single
    /// label of the tree the result is `false` and nothing changes.
    #[verifier::rlimit(60)]
    pub fn remove_path(&mut self, labels: &Vec<u64>) -> (r: Result<bool, TreeError>)
        requires
            old(self).wf(),
        ensures
            r is Err <==> !old(self).contains(labels@),
            match r {
                Ok(removed) => removed == (labels@.len() >= 2) && pruned(
                    *old(self),
                    labels@,
                    *final(self),
                    removed,
                ),
                Err(e) => e == TreeError::SimplexNotFound && *final(self) == *old(self),
            },
    {
        let ghost before = *self;
        let ghost c = labels@;
        let target: usize = match self.locate(labels) {
            Some(t) => t,
            None => {
                return Err(TreeError::SimplexNotFound);
            },
        };
        if labels.len() < 2 {
            return Ok(false);
        }
        assert(before.node_ok(target as int));
        let ghost n = self.points.len();
        assert(target >= n);
        assert(before.child_of(target as int, before.nodes[target as int].parent));
        // Only a vertex has no parent, and a vertex has one label.
        let parent: usize = match self.nodes[target].parent {
            Some(p) => p,
            None => {
                return Ok(false);
            },
        };
        assert(before.is_node(parent as int));
        assert(before.node_ok(parent as int));
        let ghost kids = before.nodes[parent as int].children@;
        assert(kids.contains(target));
        self.sweep(labels);
        // Every node stands among the children of its parent.
        let pos: usize = match crate::level_index::position_of(&self.nodes[parent].children, target) {
            Some(pos) => pos,
            None => {
                return Ok(false);
            },
        };
        self.nodes[parent].children.remove(pos);
        proof {
            assert forall|e: int|
                0 <= e < self.nodes.len() && (#[trigger] self.nodes[e]).live implies 1
                <= self.nodes[e].path.len() by {
                assert(before.is_node(e));
                assert(before.node_ok(e));
            }
        }
        let dim = self.deepest();
        let ghost measured = *self;
        self.dimension = dim;
        proof {
            let after = *self;
            assert forall|h: int| #[trigger] after.is_node(h) implies after.level_of(h) <= dim by {
                assert(measured.is_node(h));
            }
            if dim != 0 {
                let w = choose|w: int| #[trigger] measured.is_node(w) && measured.level_of(w) == dim;
                assert(after.is_node(w) && after.level_of(w) == dim);
            }
            assert(c.take(c.len() as int) =~= c);
            assert(kids.no_duplicates()) by {
                assert forall|i: int, j: int| 0 <= i < kids.len() && 0 <= j < kids.len() && i
                    != j implies kids[i] != kids[j] by {
                    if i < j {
                        assert(before.child_label(parent as int, i) < before.child_label(
                            parent as int,
                            j,
                        ));
                    } else {
                        assert(before.child_label(parent as int, j) < before.child_label(
                            parent as int,
                            i,
                        ));
                    }
                }
            }
            crate::level_index::lemma_remove_entry(kids, pos as int);
            let new_kids = after.nodes[parent as int].children@;
            assert(new_kids == kids.remove(pos as int));
            assert forall|e: int| 0 <= e < before.nodes.len() implies {
                &&& (#[trigger] after.nodes[e]).path == before.nodes[e].path
                &&& after.nodes[e].label == before.nodes[e].label
                &&& after.nodes[e].parent == before.nodes[e].parent
                &&& (e != parent ==> after.nodes[e].children == before.nodes[e].children)
                &&& after.nodes[e].live == (before.nodes[e].live && !is_prefix(
                    c,
                    before.nodes[e].path@,
                ))
            } by {}
            assert forall|e: int| #[trigger] after.is_node(e) <==> before.is_node(e) && !is_prefix(
                c,
                before.simplex(e),
            ) by {}
            assert forall|e: int| #[trigger] after.is_node(e) implies after.node_ok(e) by {
                assert(before.is_node(e));
                assert(before.node_ok(e));
                let nd = after.nodes[e];
                let path = nd.path@;
                if e >= n {
                    let p = nd.parent->0 as int;
                    assert(before.child_of(e, before.nodes[e].parent));
                    let pp = before.nodes[p].path@;
                    if is_prefix(c, pp) {
                        assert(path.take(c.len() as int) =~= pp.take(c.len() as int));
                    }
                    assert(after.nodes[p].live);
                    if p == parent {
                        assert(e != target);
                        assert(new_kids.contains(e as usize));
                    }
                    assert(after.child_of(e, nd.parent));
                }
                assert forall|i: int| 0 <= i < nd.children.len() implies after.is_child_entry(
                    e,
                    #[trigger] nd.children@[i],
                ) by {
                    let ch = nd.children@[i];
                    if e == parent {
                        let bi = if i < pos { i } else { i + 1 };
                        assert(kids[bi] == ch);
                        assert(before.is_child_entry(e, kids[bi]));
                        assert(new_kids.contains(ch));
                        assert(ch != target);
                    } else {
                        assert(before.is_child_entry(e, before.nodes[e].children@[i]));
                    }
                    assert(before.is_node(ch as int));
                    assert(before.node_ok(ch as int));
                    let cp = before.nodes[ch as int].path@;
                    assert(cp.drop_last() == path);
                    if is_prefix(c, cp) {
                        if c.len() < cp.len() {
                            assert(path.take(c.len() as int) =~= cp.take(c.len() as int));
                        } else {
                            assert(cp.take(c.len() as int) =~= cp);
                            assert(ch == target);
                            assert(before.nodes[target as int].parent == Some(parent));
                        }
                    }
                }
                assert forall|i: int, j: int| 0 <= i < j < nd.children.len() implies #[trigger]
                    after.child_label(e, i) < #[trigger] after.child_label(e, j) by {
                    if e == parent {
                        let bi = if i < pos { i } else { i + 1 };
                        let bj = if j < pos { j } else { j + 1 };
                        assert(before.is_child_entry(e, kids[bi]));
                        assert(before.is_child_entry(e, kids[bj]));
                        assert(before.child_label(e, bi) < before.child_label(e, bj));
                    } else {
                        assert(before.is_child_entry(e, before.nodes[e].children@[i]));
                        assert(before.is_child_entry(e, before.nodes[e].children@[j]));
                        assert(before.child_label(e, i) < before.child_label(e, j));
                    }
                }
                assert(after.node_ok(e));
            }
            assert forall|v: int| 0 <= v < after.points.len() implies #[trigger] after.is_node(v) by {
                assert(before.is_node(v));
                assert(before.node_ok(v));
            }
            assert forall|a: int, b: int|
                #[trigger] after.is_node(a) && #[trigger] after.is_node(b) && after.nodes[a].path@
                    == after.nodes[b].path@ implies a == b by {
                assert(before.is_node(a) && before.is_node(b));
            }
            assert forall|h: int| #[trigger] after.is_node(h) implies after.index.list(
                after.nodes[h].label,
                after.level_of(h),
            ).contains(h as usize) by {
                assert(before.is_node(h));
            }
            assert forall|v: u64, d: u64, e: usize| #[trigger]
                after.index.list(v, d).contains(e) implies after.is_node(e as int)
                && after.nodes[e as int].label == v && after.level_of(e as int) == d by {
                assert(before.index.list(v, d).contains(e));
            }
            assert(after.index_ok());
            assert(after.dimension_ok());
            assert(after.wf());
        }
        Ok(true)
    }

    /// Removes the simplex with the given labels, in any order, and every
    /// simplex whose ascending labels begin with its own.
    pub fn remove_simplex(&mut self, labels: &Vec<u64>) -> (r: Result<bool, TreeError>)
        requires
            old(self).wf(),
        ensures
            r is Err <==> !old(self).contains(ascending(labels@)),
            match r {
                Ok(removed) => removed == (labels@.len() >= 2) && pruned(
                    *old(self),
                    ascending(labels@),
                    *final(self),
                    removed,
                ),
                Err(e) => e == TreeError::SimplexNotFound && *final(self) == *old(self),
            },
    {
        let sorted = canonical(labels);
        proof {
            lemma_ascending(labels@);
        }
        self.remove_path(&sorted)
    }

    /// The simplices of dimension `d` whose largest label is `v`.
    pub open spec fn nodes_at(&self, v: u64, d: u64) -> Set<usize> {
        Set::new(
            |e: usize|
                self.is_node(e as int) && self.simplex(e as int).last() == v && self.simplex(
                    e as int,
                ).len() - 1 == d,
        )
    }

    /// Every simplex has at least one label, its labels ascend strictly, and
    /// each is the label of a vertex.
    pub proof fn lemma_simplex_shape(&self, h: int)
        requires
            self.wf(),
            self.is_node(h),
        ensures
            self.simplex(h).len() >= 1,
            strictly_increasing(self.simplex(h)),
            forall|i: int|
                0 <= i < self.simplex(h).len() ==> #[trigger] self.simplex(h)[i]
                    < self.spec_points().len(),
    {
        assert(self.node_ok(h));
    }

    /// No two handles name the same simplex.
    pub proof fn lemma_one_handle(&self, a: int, b: int)
        requires
            self.wf(),
            self.is_node(a),
            self.is_node(b),
            self.simplex(a) == self.simplex(b),
        ensures
            a == b,
    {
    }

    /// The index and the tree match one to one: the list for a label and a
    /// depth holds, without repetition, exactly the handles of the nodes of
    /// that depth that carry that label, so there are as many of the one as
    /// of the other.
    pub proof fn lemma_index_bijection(&self, v: u64, d: u64)
        requires
            self.wf(),
        ensures
            self.coface_list(v, d).no_duplicates(),
            self.coface_list(v, d).to_set() == self.nodes_at(v, d),
            self.nodes_at(v, d).len() == self.coface_list(v, d).len(),
    {
        let list = self.coface_list(v, d);
        assert(list.no_duplicates());
        assert forall|e: usize| list.to_set().contains(e) <==> self.nodes_at(v, d).contains(e) by {
            if list.contains(e) {
                assert(self.is_node(e as int));
                assert(self.node_ok(e as int));
            }
            if self.nodes_at(v, d).contains(e) {
                assert(self.is_node(e as int));
                assert(self.node_ok(e as int));
                assert(self.index.list(self.nodes[e as int].label, self.level_of(e as int)).contains(
                    e,
                ));
            }
        }
        assert(list.to_set() =~= self.nodes_at(v, d));
        list.unique_seq_to_set();
    }

    /// A simplex of the tree is found among the cofaces of its largest label
    /// at its own dimension, and among the cofaces of no other label at that
    /// dimension.
    pub proof fn lemma_found_under_last_label(&self, s: Seq<u64>, v: u64)
        requires
            self.wf(),
            self.contains(s),
        ensures
            s.len() >= 1,
            v == s.last() ==> exists|e: usize|
                self.coface_list(v, (s.len() - 1) as u64).contains(e) && self.simplex(e as int) == s,
            v != s.last() ==> forall|e: usize|
                self.coface_list(v, (s.len() - 1) as u64).contains(e) ==> self.simplex(e as int)
                    != s,
    {
        let h = choose|h: int| self.is_node(h) && self.simplex(h) == s;
        assert(self.node_ok(h));
        let d = (s.len() - 1) as u64;
        if v == s.last() {
            assert(self.index.list(self.nodes[h].label, self.level_of(h)).contains(h as usize));
            assert(self.coface_list(v, d).contains(h as usize) && self.simplex(h as usize as int)
                == s);
        } else {
            assert forall|e: usize| self.coface_list(v, d).contains(e) implies self.simplex(e as int)
                != s by {
                assert(self.index.list(v, d).contains(e));
                assert(self.is_node(e as int));
                assert(self.node_ok(e as int));
            }
        }
    }

    /// The dimension is the depth of a deepest node: no node lies deeper,
    /// and, unless it is 0, some node lies that deep.
    pub proof fn lemma_dimension(&self)
        requires
            self.wf(),
        ensures
            forall|h: int| #[trigger] self.is_node(h) ==> self.simplex(h).len() - 1
                <= self.spec_dimension(),
            self.spec_dimension() == 0 || exists|h: int| #[trigger]
                self.is_node(h) && self.simplex(h).len() - 1 == self.spec_dimension(),
    {
        assert forall|h: int| #[trigger] self.is_node(h) implies self.simplex(h).len() - 1
            <= self.spec_dimension() by {
            assert(self.node_ok(h));
            assert(self.level_of(h) <= self.dimension);
        }
        if self.dimension != 0 {
            let w = choose|w: int| #[trigger] self.is_node(w) && self.level_of(w) == self.dimension;
            assert(self.node_ok(w));
            assert(self.is_node(w) && self.simplex(w).len() - 1 == self.spec_dimension());
        }
    }
}

/// A copy of a label sequence.
pub fn copy_labels(labels: &Vec<u64>) -> (r: Vec<u64>)
    ensures
        r@ == labels@,
{
    let mut out: Vec<u64> = Vec::new();
    let mut i: usize = 0;
    while i < labels.len()
        invariant
            i <= labels.len(),
            out@ == labels@.take(i as int),
        decreases labels.len() - i,
    {
        out.push(labels[i]);
        assert(out@ =~= labels@.take(i + 1));
        i += 1;
    }
    assert(labels@.take(i as int) =~= labels@);
    out
}

/// The labels followed by one more.
pub fn extend_labels(labels: &Vec<u64>, label: u64) -> (r: Vec<u64>)
    ensures
        r@ == labels@.push(label),
{
    let mut out = copy_labels(labels);
    out.push(label);
    out
}

/// Whether each label is smaller than the next.
pub fn is_strictly_increasing(labels: &Vec<u64>) -> (r: bool)
    ensures
        r == strictly_increasing(labels@),
{
    let mut i: usize = 1;
    while i < labels.len()
        invariant
            1 <= i,
            forall|a: int, b: int| 0 <= a < b < i && b < labels.len() ==> labels@[a] < labels@[b],
        decreases labels.len() - i,
    {
        if labels[i - 1] >= labels[i] {
            return false;
        }
        assert forall|a: int, b: int| 0 <= a < b < i + 1 implies labels@[a] < labels@[b] by {
            if b == i && a < i - 1 {
                assert(labels@[a] < labels@[i - 1]);
            }
        }
        i += 1;
    }
    true
}

/// The labels in ascending order.
pub fn canonical(labels: &Vec<u64>) -> (c: Vec<u64>)
    ensures
        c@ == ascending(labels@),
{
    let mut out: Vec<u64> = Vec::new();
    let mut i: usize = 0;
    assert(labels@.take(0) =~= Seq::<u64>::empty());
    while i < labels.len()
        invariant
            i <= labels.len(),
            out.len() == i,
            out@.to_multiset() == labels@.take(i as int).to_multiset(),
            forall|a: int, b: int| 0 <= a < b < out.len() ==> out@[a] <= out@[b],
        decreases labels.len() - i,
    {
        let x: u64 = labels[i];
        let mut j: usize = out.len();
        while j > 0 && out[j - 1] > x
            invariant
                j <= out.len(),
                forall|t: int| j <= t < out.len() ==> out@[t] > x,
            decreases j,
        {
            j -= 1;
        }
        let ghost prev = out@;
        out.insert(j, x);
        proof {
            to_multiset_insert(prev, j as int, x);
            assert(labels@.take(i + 1) =~= labels@.take(i as int).push(x));
            to_multiset_build(labels@.take(i as int), x);
            assert forall|a: int, b: int| 0 <= a < b < out.len() implies out@[a] <= out@[b] by {
                let pa = if a < j { a } else { a - 1 };
                let pb = if b < j { b } else { b - 1 };
                if a != j && b != j {
                    assert(prev[pa] <= prev[pb]);
                } else if b == j {
                    if a < j - 1 {
                        assert(prev[a] <= prev[j - 1]);
                    }
                }
            }
        }
        i += 1;
    }
    proof {
        assert(labels@.take(i as int) =~= labels@);
        let leq = label_leq();
        lemma_label_order();
        labels@.lemma_sort_by_ensures(leq);
        assert(sorted_by(out@, leq));
        lemma_sorted_unique(out@, labels@.sort_by(leq), leq);
    }
    out
}

/// The order on labels is total.
pub proof fn lemma_label_order()
    ensures
        total_ordering(label_leq()),
{
    let leq = label_leq();
    assert(reflexive(leq));
    assert(antisymmetric(leq));
    assert(transitive(leq));
    assert(strongly_connected(leq));
}

/// Sorting keeps the labels and their number, puts them in order, and
/// yields a strictly increasing sequence exactly where no label repeats.
pub proof fn lemma_ascending(s: Seq<u64>)
    ensures
        ascending(s).len() == s.len(),
        ascending(s).to_multiset() == s.to_multiset(),
        forall|i: int, j: int| 0 <= i < j < s.len() ==> ascending(s)[i] <= ascending(s)[j],
        strictly_increasing(ascending(s)) <==> s.no_duplicates(),
{
    let leq = label_leq();
    let a = ascending(s);
    lemma_label_order();
    s.lemma_sort_by_ensures(leq);
    s.to_multiset_ensures();
    a.to_multiset_ensures();
    assert forall|i: int, j: int| 0 <= i < j < a.len() implies a[i] <= a[j] by {
        assert(leq(a[i], a[j]));
    }
    if s.no_duplicates() {
        s.lemma_multiset_has_no_duplicates();
        a.lemma_multiset_has_no_duplicates_conv();
        assert forall|i: int, j: int| 0 <= i < j < a.len() implies a[i] < a[j] by {
            assert(a[i] <= a[j]);
        }
    }
    if strictly_increasing(a) {
        assert(a.no_duplicates());
        a.lemma_multiset_has_no_duplicates();
        s.lemma_multiset_has_no_duplicates_conv();
    }
}

/// Whether `labels` begins with all of `start`.
pub fn has_prefix(labels: &Vec<u64>, start: &Vec<u64>) -> (r: bool)
    ensures
        r == is_prefix(start@, labels@),
{
    if start.len() > labels.len() {
        return false;
    }
    let mut i: usize = 0;
    while i < start.len()
        invariant
            i <= start.len() <= labels.len(),
            forall|j: int| 0 <= j < i ==> labels@[j] == start@[j],
        decreases start.len() - i,
    {
        if labels[i] != start[i] {
            assert(labels@.take(start.len() as int)[i as int] != start@[i as int]);
            return false;
        }
        i += 1;
    }
    assert(labels@.take(start.len() as int) =~= start@);
    true
}

/// After an insertion the simplex and each of its initial parts is found
/// among the cofaces of its largest label at its dimension.
pub proof fn lemma_inserted_is_found(
    before: SimplexTree,
    c: Seq<u64>,
    after: SimplexTree,
    created: bool,
    m: int,
)
    requires
        grown(before, c, after, created),
        1 <= m <= c.len(),
    ensures
        after.contains(c.take(m)),
        exists|e: usize|
            after.coface_list(c[m - 1], (m - 1) as u64).contains(e) && after.simplex(e as int)
                == c.take(m),
{
    assert(after.contains(c.take(m)));
    after.lemma_found_under_last_label(c.take(m), c[m - 1]);
}

/// After an insertion the simplex is in the star of each of its labels at
/// its dimension, and in the star of no other label.
pub proof fn lemma_inserted_in_stars(
    before: SimplexTree,
    c: Seq<u64>,
    after: SimplexTree,
    created: bool,
    v: u64,
)
    requires
        grown(before, c, after, created),
        c.len() >= 1,
    ensures
        exists|e: usize|
            after.is_node(e as int) && after.simplex(e as int) == c && (after.in_star(
                e,
                v,
                (c.len() - 1) as u64,
            ) <==> c.contains(v)),
{
    assert(c.take(c.len() as int) =~= c);
    assert(after.contains(c.take(c.len() as int)));
    let h = choose|h: int| after.is_node(h) && after.simplex(h) == c;
    let e = h as usize;
    assert(after.is_node(e as int) && after.simplex(e as int) == c);
    assert(after.in_star(e, v, (c.len() - 1) as u64) <==> c.contains(v));
}

/// Inserting a simplex a second time reports that nothing was new and
/// leaves the tree, its nodes and its index as they were.
pub proof fn lemma_reinsertion(
    start: SimplexTree,
    c: Seq<u64>,
    once: SimplexTree,
    first: bool,
    twice: SimplexTree,
    second: bool,
)
    requires
        c.len() >= 1,
        grown(start, c, once, first),
        grown(once, c, twice, second),
    ensures
        !second,
        twice == once,
{
    assert(c.take(c.len() as int) =~= c);
    assert(once.contains(c.take(c.len() as int)));
}

/// After a removal no simplex that began with the removed labels is left:
/// its handle names no node, no index list holds it, and the tree holds no
/// simplex with its labels.
pub proof fn lemma_removal_complete(
    before: SimplexTree,
    c: Seq<u64>,
    after: SimplexTree,
    e: usize,
    v: u64,
    d: u64,
)
    requires
        before.wf(),
        pruned(before, c, after, true),
        before.is_node(e as int),
        is_prefix(c, before.simplex(e as int)),
    ensures
        !after.is_node(e as int),
        !after.coface_list(v, d).contains(e),
        !after.contains(before.simplex(e as int)),
{
    assert(!after.coface_list(v, d).contains(e));
    if after.contains(before.simplex(e as int)) {
        let w = choose|w: int| after.is_node(w) && after.simplex(w) == before.simplex(e as int);
        assert(before.is_node(w));
    }
}

/// Whether `label` is one of `labels`.
pub fn contains_label(labels: &Vec<u64>, label: u64) -> (r: bool)
    ensures
        r == labels@.contains(label),
{
    let mut i: usize = 0;
    while i < labels.len()
        invariant
            i <= labels.len(),
            forall|j: int| 0 <= j < i ==> labels@[j] != label,
        decreases labels.len() - i,
    {
        if labels[i] == label {
            return true;
        }
        i += 1;
    }
    false
}

/// In an ascending sequence every label of an initial part is smaller than
/// the label that follows the part.
proof fn lemma_part_below(s: Seq<u64>, k: int, y: u64)
    requires
        strictly_increasing(s),
        0 <= k < s.len(),
        s.take(k + 1).contains(y),
    ensures
        y <= s[k],
        y != s[k] ==> s.take(k).contains(y) && y < s[k],
{
    let more = s.take(k + 1);
    let j = choose|j: int| 0 <= j < more.len() && more[j] == y;
    if j < k {
        assert(s[j] < s[k]);
        assert(s.take(k)[j] == y);
    }
}

/// All non-empty ascending choices among ascending labels, each once.
fn choices(labels: &Vec<u64>) -> (r: Vec<Vec<u64>>)
    requires
        strictly_increasing(labels@),
    ensures
        forall|f: Seq<u64>| listed(r@, f) <==> is_face(f, labels@),
        forall|i: int, j: int| 0 <= i < j < r@.len() ==> r@[i]@ != r@[j]@,
{
    let ghost s = labels@;
    let mut out: Vec<Vec<u64>> = Vec::new();
    let mut k: usize = 0;
    proof {
        assert forall|f: Seq<u64>| listed(out@, f) <==> is_face(f, s.take(0)) by {
            if is_face(f, s.take(0)) {
                assert(s.take(0).contains(f[0]));
            }
        }
    }
    while k < labels.len()
        invariant
            k <= labels.len(),
            s == labels@,
            strictly_increasing(s),
            forall|f: Seq<u64>| listed(out@, f) <==> is_face(f, s.take(k as int)),
            forall|i: int, j: int| 0 <= i < j < out@.len() ==> out@[i]@ != out@[j]@,
        decreases labels.len() - k,
    {
        let x: u64 = labels[k];
        let m: usize = out.len();
        let ghost prev = out@;
        let ghost part = s.take(k as int);
        let ghost more = s.take(k + 1);
        let mut i: usize = 0;
        while i < m
            invariant
                i <= m,
                m == prev.len(),
                out@.len() == m + i,
                forall|j: int| 0 <= j < m ==> (#[trigger] out@[j])@ == prev[j]@,
                forall|j: int| 0 <= j < i ==> (#[trigger] out@[m + j])@ == prev[j]@.push(x),
            decreases m - i,
        {
            let longer = extend_labels(&out[i], x);
            out.push(longer);
            i += 1;
        }
        let mut single: Vec<u64> = Vec::new();
        single.push(x);
        out.push(single);
        proof {
            let now = out@;
            assert(now[2 * m]@ =~= seq![x]);
            assert(more[k as int] == x);
            assert forall|j: int| 0 <= j < m implies is_face(prev[j]@, part) && !prev[j]@.contains(
                x,
            ) by {
                assert(listed(prev, prev[j]@));
                let g = prev[j]@;
                if g.contains(x) {
                    let t = choose|t: int| 0 <= t < g.len() && g[t] == x;
                    assert(part.contains(g[t]));
                    let u = choose|u: int| 0 <= u < part.len() && part[u] == x;
                    assert(s[u] < s[k as int]);
                }
            }
            assert forall|f: Seq<u64>| listed(now, f) implies is_face(f, more) by {
                let j = choose|j: int| 0 <= j < now.len() && (#[trigger] now[j])@ == f;
                if j < m {
                    let g = prev[j]@;
                    assert(f == g);
                    assert forall|t: int| 0 <= t < f.len() implies more.contains(#[trigger] f[t]) by {
                        assert(part.contains(g[t]));
                        let u = choose|u: int| 0 <= u < part.len() && part[u] == g[t];
                        assert(more[u] == g[t]);
                    }
                } else if j < 2 * m {
                    let g = prev[j - m]@;
                    assert(now[m + (j - m)]@ == g.push(x));
                    assert(f == g.push(x));
                    assert forall|t: int| 0 <= t < f.len() implies more.contains(#[trigger] f[t]) by {
                        if t < g.len() {
                            assert(part.contains(g[t]));
                            let u = choose|u: int| 0 <= u < part.len() && part[u] == g[t];
                            assert(more[u] == g[t]);
                        }
                    }
                    assert forall|a: int, b: int| 0 <= a < b < f.len() implies f[a] < f[b] by {
                        if b == g.len() {
                            assert(part.contains(g[a]));
                            let u = choose|u: int| 0 <= u < part.len() && part[u] == g[a];
                            assert(s[u] < s[k as int]);
                        } else {
                            assert(g[a] < g[b]);
                        }
                    }
                } else {
                    assert(f =~= seq![x]);
                    assert(more.contains(f[0]));
                }
            }
            assert forall|f: Seq<u64>| is_face(f, more) implies listed(now, f) by {
                let last = f[f.len() - 1];
                assert forall|t: int| 0 <= t < f.len() implies f[t] <= x && (f[t] != x
                    ==> part.contains(f[t])) by {
                    assert(more.contains(f[t]));
                    lemma_part_below(s, k as int, f[t]);
                }
                if last == x {
                    if f.len() == 1 {
                        assert(f =~= seq![x]);
                        assert(now[2 * m]@ == f);
                    } else {
                        let g = f.drop_last();
                        assert forall|t: int| 0 <= t < g.len() implies part.contains(
                            #[trigger] g[t],
                        ) by {
                            assert(f[t] < f[f.len() - 1]);
                        }
                        assert(is_face(g, part));
                        assert(listed(prev, g));
                        let j = choose|j: int| 0 <= j < prev.len() && (#[trigger] prev[j])@ == g;
                        assert(now[m + j]@ == g.push(x));
                        assert(g.push(x) =~= f);
                    }
                } else {
                    assert forall|t: int| 0 <= t < f.len() implies part.contains(#[trigger] f[t]) by {
                        if f[t] == x {
                            if t < f.len() - 1 {
                                assert(f[t] < f[f.len() - 1]);
                            }
                        }
                    }
                    assert(is_face(f, part));
                    assert(listed(prev, f));
                    let j = choose|j: int| 0 <= j < prev.len() && (#[trigger] prev[j])@ == f;
                    assert(now[j]@ == f);
                }
            }
            assert forall|a: int, b: int| 0 <= a < b < now.len() implies now[a]@ != now[b]@ by {
                if b < m {
                    assert(prev[a]@ != prev[b]@);
                } else if b < 2 * m {
                    let gb = prev[b - m]@;
                    assert(now[m + (b - m)]@ == gb.push(x));
                    assert(gb.push(x)[gb.len() as int] == x);
                    if a < m {
                        if now[a]@ == now[b]@ {
                            assert(prev[a]@[gb.len() as int] == x);
                        }
                    } else {
                        let ga = prev[a - m]@;
                        assert(now[m + (a - m)]@ == ga.push(x));
                        assert(ga != gb);
                        if ga.push(x) == gb.push(x) {
                            assert(ga.push(x).drop_last() =~= ga);
                            assert(gb.push(x).drop_last() =~= gb);
                        }
                    }
                } else {
                    if a < m {
                        if now[a]@ == now[b]@ {
                            assert(prev[a]@[0] == x);
                        }
                    } else {
                        let ga = prev[a - m]@;
                        assert(now[m + (a - m)]@ == ga.push(x));
                        assert(is_face(ga, part));
                    }
                }
            }
        }
        k += 1;
    }
    assert(s.take(k as int) =~= s);
    out
}

} // verus!
