//! The kinematic topology: the link graph of a description, its root and
//! leaves, the children of every link, and a traversal order in which every
//! link comes after its parent.
use crate::description::{
    index_description, indexes, is_child, well_formed, BuildError, JointRecord, LinkIndex,
};
use crate::description::is_sole_root;
use crate::graph::{
    add_edge, add_node, graph_edges, graph_nodes, new_graph, walk_from, walk_graph, walk_next,
    walk_start, walk_yielded,
};
use vstd::set_lib::{lemma_int_range, lemma_len_subset, set_int_range};
use petgraph::graphmap::DiGraphMap;
use vstd::prelude::*;

verus! {

/// `order` visits every link exactly once, starts at `root`, and lists every
/// link after its parent; only the root has no parent.
pub open spec fn is_traversal(parents: Seq<Option<usize>>, root: usize, order: Seq<usize>) -> bool {
    let n = parents.len();
    &&& order.len() == n
    &&& n > 0
    &&& order[0] == root
    &&& forall|k: int| 0 <= k < n ==> (#[trigger] order[k]) < n
    &&& forall|i: int, k: int| 0 <= i < n && 0 <= k < n && i != k
        ==> #[trigger] order[i] != #[trigger] order[k]
    &&& forall|l: usize| l < n ==> #[trigger] order.contains(l)
    &&& forall|k: int| 0 <= k < n ==> match #[trigger] parents[order[k] as int] {
        Some(p) => exists|i: int| 0 <= i < k && #[trigger] order[i] == p,
        None => order[k] == root,
    }
}

/// `position` gives, for every link, its index in `order`.
pub open spec fn positions_of(order: Seq<usize>, position: Seq<usize>) -> bool {
    &&& position.len() == order.len()
    &&& forall|k: int| 0 <= k < order.len() ==> (#[trigger] order[k]) < order.len()
        && position[order[k] as int] == k
    &&& forall|l: int| 0 <= l < order.len() ==> (#[trigger] position[l]) < order.len()
        && order[position[l] as int] == l
}

/// `list` holds, in increasing order, exactly the links whose parent is `p`.
pub open spec fn children_list(parents: Seq<Option<usize>>, p: usize, list: Seq<usize>) -> bool {
    &&& forall|i: int, k: int| 0 <= i < k < list.len() ==> #[trigger] list[i] < #[trigger] list[k]
    &&& forall|i: int| 0 <= i < list.len() ==> (#[trigger] list[i]) < parents.len()
        && parents[list[i] as int] == Some(p)
    &&& forall|l: usize| l < parents.len() && parents[l as int] == Some(p) ==> #[trigger] list.contains(l)
}

/// `list` holds, in increasing order, exactly the links without children.
pub open spec fn leaf_list(parents: Seq<Option<usize>>, list: Seq<usize>) -> bool {
    &&& forall|i: int, k: int| 0 <= i < k < list.len() ==> #[trigger] list[i] < #[trigger] list[k]
    &&& forall|i: int| 0 <= i < list.len() ==> (#[trigger] list[i]) < parents.len()
    &&& forall|l: usize| l < parents.len() ==> (#[trigger] list.contains(l) <==> forall|c: int|
        0 <= c < parents.len() ==> #[trigger] parents[c] != Some(l))
}

/// The edges of the tree: one from each link's parent to the link.
pub open spec fn parent_edges(parents: Seq<Option<usize>>) -> Set<(usize, usize)> {
    Set::new(|e: (usize, usize)| 0 <= e.1 < parents.len() && parents[e.1 as int] == Some(e.0))
}

/// The link ids `0 .. n`.
pub open spec fn link_ids(n: nat) -> Set<usize> {
    Set::new(|l: usize| l < n)
}

/// The tree structure of a description, with everything derived from it.
#[derive(Debug)]
pub struct KinematicTopology {
    pub index: LinkIndex,
    pub children_of: Vec<Vec<usize>>,
    pub leaves: Vec<usize>,
    pub order: Vec<usize>,
    pub position: Vec<usize>,
    pub graph: DiGraphMap<usize, ()>,
}

impl KinematicTopology {
    /// The parent of every link, by id.
    pub open spec fn parents(&self) -> Seq<Option<usize>> {
        self.index.parent_of@
    }

    /// The number of links.
    pub open spec fn len(&self) -> nat {
        self.index.parent_of@.len()
    }

    /// The parts agree with one another and with the parent relation.
    pub open spec fn wf(&self) -> bool {
        let parents = self.parents();
        &&& self.index.joint_of@.len() == self.len()
        &&& self.index.root < self.len()
        &&& parents[self.index.root as int] is None
        &&& forall|l: int| 0 <= l < self.len() ==> match #[trigger] parents[l] {
            Some(p) => p < self.len() && self.index.joint_of@[l] is Some,
            None => self.index.joint_of@[l] is None,
        }
        &&& is_traversal(parents, self.index.root, self.order@)
        &&& positions_of(self.order@, self.position@)
        &&& self.children_of@.len() == self.len()
        &&& forall|p: int| 0 <= p < self.len() ==> children_list(
            parents,
            p as usize,
            #[trigger] self.children_of@[p]@,
        )
        &&& leaf_list(parents, self.leaves@)
        &&& graph_nodes(self.graph) == link_ids(self.len())
        &&& graph_edges(self.graph) == parent_edges(parents)
    }
}

/// Checks a candidate traversal order, and gives the position of every link
/// in it when it is one.
pub fn check_traversal(parents: &Vec<Option<usize>>, root: usize, order: &Vec<usize>) -> (r:
    Option<Vec<usize>>)
    ensures
        r is Some <==> is_traversal(parents@, root, order@),
        r matches Some(position) ==> positions_of(order@, position@),
{
    let n = parents.len();
    if order.len() != n || n == 0 {
        return None;
    }
    if order[0] != root {
        return None;
    }
    let mut position: Vec<usize> = Vec::new();
    let mut l: usize = 0;
    while l < n
        invariant
            l <= n,
            position@.len() == l,
            forall|i: int| 0 <= i < l ==> #[trigger] position@[i] == n,
        decreases n - l,
    {
        position.push(n);
        l += 1;
    }
    let mut k: usize = 0;
    while k < n
        invariant
            n == parents@.len(),
            n == order@.len(),
            position@.len() == n,
            k <= n,
            forall|i: int| 0 <= i < k ==> (#[trigger] order@[i]) < n,
            forall|i: int, j: int| 0 <= i < k && 0 <= j < k && i != j
                ==> #[trigger] order@[i] != #[trigger] order@[j],
            forall|i: int| 0 <= i < k ==> position@[#[trigger] order@[i] as int] == i,
            forall|x: int| 0 <= x < n ==> (#[trigger] position@[x] == n || (position@[x] < k
                && order@[position@[x] as int] == x)),
        decreases n - k,
    {
        let x = order[k];
        if x >= n {
            return None;
        }
        if position[x] != n {
            assert(order@[position@[x as int] as int] == x);
            return None;
        }
        position.set(x, k);
        k += 1;
    }
    let mut m: usize = 0;
    while m < n
        invariant
            n == parents@.len(),
            n == order@.len(),
            position@.len() == n,
            m <= n,
            forall|i: int| 0 <= i < n ==> (#[trigger] order@[i]) < n && position@[order@[i] as int]
                == i,
            forall|x: int| 0 <= x < n ==> (#[trigger] position@[x] == n || (position@[x] < n
                && order@[position@[x] as int] == x)),
            forall|x: int| 0 <= x < m ==> (#[trigger] position@[x]) < n,
        decreases n - m,
    {
        if position[m] == n {
            assert forall|i: int| 0 <= i < n implies #[trigger] order@[i] != m by {
                if order@[i] == m {
                    assert(position@[m as int] == i);
                }
            }
            assert(!order@.contains(m));
            return None;
        }
        m += 1;
    }
    assert(positions_of(order@, position@));
    let mut k: usize = 0;
    while k < n
        invariant
            n == parents@.len(),
            positions_of(order@, position@),
            order@.len() == n,
            order@[0] == root,
            k <= n,
            forall|i: int| 0 <= i < k ==> match #[trigger] parents@[order@[i] as int] {
                Some(p) => exists|j: int| 0 <= j < i && #[trigger] order@[j] == p,
                None => order@[i] == root,
            },
        decreases n - k,
    {
        let x = order[k];
        match parents[x] {
            Some(p) => {
                if p >= n || position[p] >= k {
                    assert forall|j: int| 0 <= j < k implies #[trigger] order@[j] != p by {
                        if order@[j] == p {
                            assert(position@[p as int] == j);
                        }
                    }
                    return None;
                }
                assert(order@[position@[p as int] as int] == p);
            },
            None => {
                if x != root {
                    return None;
                }
            },
        }
        k += 1;
    }
    assert forall|l: usize| l < n implies #[trigger] order@.contains(l) by {
        assert(order@[position@[l as int] as int] == l);
    }
    Some(position)
}

/// The links whose parent is `p`, in increasing order.
fn collect_children(parents: &Vec<Option<usize>>, p: usize) -> (r: Vec<usize>)
    ensures
        children_list(parents@, p, r@),
{
    let mut list: Vec<usize> = Vec::new();
    let mut l: usize = 0;
    while l < parents.len()
        invariant
            l <= parents@.len(),
            forall|i: int, k: int| 0 <= i < k < list@.len() ==> #[trigger] list@[i] < #[trigger] list@[k],
            forall|i: int| 0 <= i < list@.len() ==> (#[trigger] list@[i]) < l
                && parents@[list@[i] as int] == Some(p),
            forall|c: usize| c < l && parents@[c as int] == Some(p) ==> #[trigger] list@.contains(c),
        decreases parents@.len() - l,
    {
        match parents[l] {
            Some(q) => {
                if q == p {
                    let ghost before = list@;
                    list.push(l);
                    assert(list@[list@.len() - 1] == l);
                    assert forall|c: usize| c < l + 1 && parents@[c as int] == Some(p) implies
                        #[trigger] list@.contains(c) by {
                        if c < l {
                            assert(before.contains(c));
                            let i = choose|i: int| 0 <= i < before.len() && before[i] == c;
                            assert(list@[i] == c);
                        } else {
                            assert(list@[list@.len() - 1] == c);
                        }
                    }
                }
            },
            None => {},
        }
        l += 1;
    }
    list
}

/// The links without children, in increasing order.
fn collect_leaves(parents: &Vec<Option<usize>>, children_of: &Vec<Vec<usize>>) -> (r: Vec<usize>)
    requires
        children_of@.len() == parents@.len(),
        forall|p: int| 0 <= p < parents@.len() ==> children_list(
            parents@,
            p as usize,
            #[trigger] children_of@[p]@,
        ),
    ensures
        leaf_list(parents@, r@),
{
    let mut list: Vec<usize> = Vec::new();
    let mut l: usize = 0;
    while l < children_of.len()
        invariant
            children_of@.len() == parents@.len(),
            forall|p: int| 0 <= p < parents@.len() ==> children_list(
                parents@,
                p as usize,
                #[trigger] children_of@[p]@,
            ),
            l <= parents@.len(),
            forall|i: int, k: int| 0 <= i < k < list@.len() ==> #[trigger] list@[i] < #[trigger] list@[k],
            forall|i: int| 0 <= i < list@.len() ==> (#[trigger] list@[i]) < l,
            forall|x: usize| x < l ==> (#[trigger] list@.contains(x) <==> forall|c: int|
                0 <= c < parents@.len() ==> #[trigger] parents@[c] != Some(x)),
        decreases parents@.len() - l,
    {
        let ghost kids = children_of@[l as int]@;
        assert(children_list(parents@, l, kids));
        if children_of[l].len() == 0 {
            let ghost before = list@;
            list.push(l);
            assert(list@[list@.len() - 1] == l);
            assert forall|c: int| 0 <= c < parents@.len() implies #[trigger] parents@[c] != Some(l) by {
                if parents@[c] == Some(l) {
                    assert(kids.contains(c as usize));
                }
            }
            assert forall|x: usize| x < l + 1 implies (#[trigger] list@.contains(x) <==> forall|c: int|
                0 <= c < parents@.len() ==> #[trigger] parents@[c] != Some(x)) by {
                if x < l {
                    if before.contains(x) {
                        let i = choose|i: int| 0 <= i < before.len() && before[i] == x;
                        assert(list@[i] == x);
                    }
                    if list@.contains(x) {
                        let i = choose|i: int| 0 <= i < list@.len() && list@[i] == x;
                        if i == before.len() {
                        } else {
                            assert(before[i] == x);
                        }
                    }
                }
            }
        } else {
            assert(parents@[kids[0] as int] == Some(l));
            assert(!list@.contains(l));
        }
        l += 1;
    }
    list
}

/// Builds the link graph of an indexed description: every link a node, an
/// edge from each link's parent to it.
fn build_graph(parents: &Vec<Option<usize>>) -> (g: DiGraphMap<usize, ()>)
    requires
        forall|l: int| 0 <= l < parents@.len() ==> match #[trigger] parents@[l] {
            Some(p) => p < parents@.len(),
            None => true,
        },
    ensures
        graph_nodes(g) == link_ids(parents@.len()),
        graph_edges(g) == parent_edges(parents@),
{
    let n = parents.len();
    let mut g = new_graph();
    let mut l: usize = 0;
    while l < n
        invariant
            n == parents@.len(),
            l <= n,
            graph_nodes(g) == link_ids(l as nat),
            graph_edges(g) == Set::<(usize, usize)>::empty(),
        decreases n - l,
    {
        add_node(&mut g, l);
        assert(graph_nodes(g) =~= link_ids((l + 1) as nat));
        l += 1;
    }
    let mut l: usize = 0;
    while l < n
        invariant
            n == parents@.len(),
            forall|x: int| 0 <= x < parents@.len() ==> match #[trigger] parents@[x] {
                Some(p) => p < parents@.len(),
                None => true,
            },
            l <= n,
            graph_nodes(g) == link_ids(n as nat),
            graph_edges(g) == Set::new(
                |e: (usize, usize)| e.1 < l && parents@[e.1 as int] == Some(e.0),
            ),
        decreases n - l,
    {
        let ghost before = graph_edges(g);
        match parents[l] {
            Some(p) => {
                add_edge(&mut g, p, l);
                assert(graph_nodes(g) =~= link_ids(n as nat));
            },
            None => {},
        }
        assert(graph_edges(g) =~= Set::new(
            |e: (usize, usize)| e.1 < l + 1 && parents@[e.1 as int] == Some(e.0),
        ));
        l += 1;
    }
    assert(graph_edges(g) =~= parent_edges(parents@));
    g
}

/// Every edge out of a node of `s` leads to a node of `s`.
pub open spec fn closed_under(edges: Set<(usize, usize)>, s: Seq<usize>) -> bool {
    forall|y: usize, z: usize| s.contains(y) && #[trigger] edges.contains((y, z)) ==> s.contains(z)
}

/// The description is well formed and its links can be put in an order that
/// starts at the root and lists every link after its parent: every link is
/// reached from the root.
pub open spec fn connected_description(names: Seq<String>, joints: Seq<JointRecord>) -> bool {
    &&& well_formed(names, joints)
    &&& exists|idx: LinkIndex, o: Seq<usize>|
        #[trigger] indexes(names, joints, idx) && #[trigger] is_traversal(idx.parent_of@, idx.root, o)
}

/// A well-formed description has one index: the parents and the root are
/// fixed by the names.
proof fn lemma_index_unique(
    names: Seq<String>,
    joints: Seq<JointRecord>,
    a: LinkIndex,
    b: LinkIndex,
)
    requires
        well_formed(names, joints),
        indexes(names, joints, a),
        indexes(names, joints, b),
    ensures
        a.parent_of@ == b.parent_of@,
        a.root == b.root,
{
    let n = names.len();
    assert forall|l: int| 0 <= l < n implies a.joint_of@[l] == b.joint_of@[l] by {
        match (a.joint_of@[l], b.joint_of@[l]) {
            (Some(x), Some(y)) => {
                if x != y {
                    assert(joints[x as int].child@ != joints[y as int].child@);
                }
            },
            (Some(x), None) => {
                assert(joints[x as int].child@ == names[l]@);
            },
            (None, Some(y)) => {
                assert(joints[y as int].child@ == names[l]@);
            },
            (None, None) => {},
        }
    }
    assert forall|l: int| 0 <= l < n implies a.parent_of@[l] == b.parent_of@[l] by {
        assert(a.joint_of@[l] == b.joint_of@[l]);
        match (a.parent_of@[l], b.parent_of@[l]) {
            (Some(x), Some(y)) => {
                if x != y {
                    assert(names[x as int]@ != names[y as int]@);
                }
            },
            _ => {},
        }
    }
    assert(a.parent_of@ =~= b.parent_of@);
    let r = choose|r: int| is_sole_root(names, joints, r);
    assert(!is_child(joints, names[a.root as int]@));
    assert(!is_child(joints, names[b.root as int]@));
    assert(a.root == r && b.root == r);
}

/// A sequence of distinct ids below `n` has at most `n` entries, and exactly
/// `n` when it holds all of them.
proof fn lemma_distinct_ids_bound(s: Seq<usize>, n: usize)
    requires
        forall|i: int, k: int| 0 <= i < s.len() && 0 <= k < s.len() && i != k ==> #[trigger] s[i]
            != #[trigger] s[k],
        forall|i: int| 0 <= i < s.len() ==> (#[trigger] s[i]) < n,
    ensures
        s.len() <= n,
        (forall|l: usize| l < n ==> #[trigger] s.contains(l)) ==> s.len() == n,
{
    let t = s.map_values(|x: usize| x as int);
    assert(t.no_duplicates()) by {
        assert forall|i: int, k: int| 0 <= i < t.len() && 0 <= k < t.len() && i != k implies t[i]
            != t[k] by {
            assert(s[i] != s[k]);
        }
    }
    t.unique_seq_to_set();
    lemma_int_range(0, n as int);
    assert(t.to_set().subset_of(set_int_range(0, n as int))) by {
        assert forall|x: int| t.to_set().contains(x) implies set_int_range(0, n as int).contains(x) by {
            let i = choose|i: int| 0 <= i < t.len() && t[i] == x;
            assert(s[i] < n);
        }
    }
    lemma_len_subset(t.to_set(), set_int_range(0, n as int));
    if forall|l: usize| l < n ==> #[trigger] s.contains(l) {
        assert(set_int_range(0, n as int).subset_of(t.to_set())) by {
            assert forall|x: int| set_int_range(0, n as int).contains(x) implies t.to_set().contains(
                x,
            ) by {
                assert(0 <= x < n);
                assert(s.contains(x as usize));
                let i = choose|i: int| 0 <= i < s.len() && s[i] == x as usize;
                assert(t[i] == s[i] as int);
                assert(t[i] == x);
            }
        }
        lemma_len_subset(set_int_range(0, n as int), t.to_set());
    }
}

/// A walk that holds the root and is closed under the tree's edges holds
/// every link, when some traversal order of the tree exists.
proof fn lemma_closed_walk_covers(
    parents: Seq<Option<usize>>,
    root: usize,
    walked: Seq<usize>,
    o: Seq<usize>,
)
    requires
        is_traversal(parents, root, o),
        walked.contains(root),
        closed_under(parent_edges(parents), walked),
    ensures
        forall|l: usize| l < parents.len() ==> #[trigger] walked.contains(l),
{
    lemma_prefix_walked(parents, root, walked, o, o.len() as int);
    assert forall|l: usize| l < parents.len() implies #[trigger] walked.contains(l) by {
        assert(o.contains(l));
        let k = choose|k: int| 0 <= k < o.len() && o[k] == l;
        assert(walked.contains(o[k]));
    }
}

proof fn lemma_prefix_walked(
    parents: Seq<Option<usize>>,
    root: usize,
    walked: Seq<usize>,
    o: Seq<usize>,
    k: int,
)
    requires
        is_traversal(parents, root, o),
        walked.contains(root),
        closed_under(parent_edges(parents), walked),
        0 <= k <= o.len(),
    ensures
        forall|i: int| 0 <= i < k ==> walked.contains(#[trigger] o[i]),
    decreases k,
{
    if k > 0 {
        lemma_prefix_walked(parents, root, walked, o, k - 1);
        let x = o[k - 1];
        match parents[x as int] {
            Some(p) => {
                let i = choose|i: int| 0 <= i < k - 1 && #[trigger] o[i] == p;
                assert(walked.contains(o[i]));
                assert(parent_edges(parents).contains((p, x)));
            },
            None => {},
        }
    }
}

/// Builds the topology of a description given as its link names, in id
/// order, and its joints. Fails with `MalformedDescription` exactly when the
/// description is not well formed, and with `UnreachableLink` exactly when it
/// is well formed but some link cannot be reached from the root.
pub fn build_topology(names: &Vec<String>, joints: &Vec<JointRecord>) -> (r: Result<
    KinematicTopology,
    BuildError,
>)
    ensures
        match r {
            Ok(t) => connected_description(names@, joints@) && indexes(names@, joints@, t.index)
                && t.wf(),
            Err(e) => (e == BuildError::MalformedDescription <==> !well_formed(names@, joints@)) && (
            e == BuildError::UnreachableLink <==> (well_formed(names@, joints@)
                && !connected_description(names@, joints@))),
        },
        connected_description(names@, joints@) ==> r is Ok,
{
    let index = match index_description(names, joints) {
        Ok(index) => index,
        Err(e) => {
            return Err(e);
        },
    };
    let n = names.len();
    let root = index.root;
    let ghost parents = index.parent_of@;
    let graph = build_graph(&index.parent_of);
    let mut walk = walk_from(&graph, root);
    let mut order: Vec<usize> = Vec::new();
    let mut finished = false;
    while !finished
        invariant
            n == parents.len(),
            root < n,
            parents[root as int] is None,
            graph_edges(graph) == parent_edges(parents),
            order@ == walk_yielded(walk),
            walk_graph(walk) == graph,
            walk_start(walk) == root,
            order@.len() <= n,
            forall|i: int| 0 <= i < order@.len() ==> (#[trigger] order@[i]) < n,
            forall|i: int, k: int| 0 <= i < order@.len() && 0 <= k < order@.len() && i != k
                ==> #[trigger] order@[i] != #[trigger] order@[k],
            order@.len() > 0 ==> order@[0] == root,
            forall|k: int| 0 <= k < order@.len() ==> match #[trigger] parents[order@[k] as int] {
                Some(p) => exists|i: int| 0 <= i < k && #[trigger] order@[i] == p,
                None => order@[k] == root,
            },
            finished ==> order@.len() > 0 && closed_under(parent_edges(parents), order@),
        decreases n + 1 - order@.len() - (if finished {
            1int
        } else {
            0int
        }),
    {
        let ghost before = order@;
        match walk_next(&mut walk, &graph) {
            Some(x) => {
                order.push(x);
                proof {
                    assert(order@[before.len() as int] == x);
                    if before.len() == 0 {
                        assert(x == root);
                    } else {
                        let y = choose|y: usize| before.contains(y) && #[trigger] graph_edges(
                            graph,
                        ).contains((y, x));
                        assert(parent_edges(parents).contains((y, x)));
                        let i = choose|i: int| 0 <= i < before.len() && before[i] == y;
                        assert(order@[i] == y);
                    }
                    assert forall|i: int, k: int| 0 <= i < order@.len() && 0 <= k < order@.len() && i
                        != k implies #[trigger] order@[i] != #[trigger] order@[k] by {
                        if i == before.len() {
                            assert(order@[k] == before[k]);
                            assert(before.contains(before[k]));
                        } else if k == before.len() {
                            assert(order@[i] == before[i]);
                            assert(before.contains(before[i]));
                        }
                    }
                    assert forall|k: int| 0 <= k < order@.len() implies match #[trigger] parents[order@[k] as int] {
                        Some(p) => exists|i: int| 0 <= i < k && #[trigger] order@[i] == p,
                        None => order@[k] == root,
                    } by {
                        if k < before.len() {
                            assert(order@[k] == before[k]);
                            match parents[order@[k] as int] {
                                Some(p) => {
                                    let i = choose|i: int| 0 <= i < k && #[trigger] before[i] == p;
                                    assert(order@[i] == p);
                                },
                                None => {},
                            }
                        }
                    }
                    lemma_distinct_ids_bound(order@, n);
                }
            },
            None => {
                finished = true;
            },
        }
    }
    let position = match check_traversal(&index.parent_of, root, &order) {
        Some(position) => position,
        None => {
            proof {
                if connected_description(names@, joints@) {
                    let (idx, o) = choose|idx: LinkIndex, o: Seq<usize>|
                        #[trigger] indexes(names@, joints@, idx) && #[trigger] is_traversal(
                            idx.parent_of@,
                            idx.root,
                            o,
                        );
                    lemma_index_unique(names@, joints@, idx, index);
                    assert(order@[0] == root);
                    assert(order@.contains(root));
                    lemma_closed_walk_covers(parents, root, order@, o);
                    lemma_distinct_ids_bound(order@, n);
                    assert(is_traversal(parents, root, order@));
                }
            }
            return Err(BuildError::UnreachableLink);
        },
    };
    proof {
        assert(connected_description(names@, joints@)) by {
            assert(indexes(names@, joints@, index) && is_traversal(index.parent_of@, index.root, order@));
        }
    }
    let mut children_of: Vec<Vec<usize>> = Vec::new();
    let mut p: usize = 0;
    while p < n
        invariant
            n == index.parent_of@.len(),
            p <= n,
            children_of@.len() == p,
            forall|q: int| 0 <= q < p ==> children_list(
                index.parent_of@,
                q as usize,
                #[trigger] children_of@[q]@,
            ),
        decreases n - p,
    {
        children_of.push(collect_children(&index.parent_of, p));
        p += 1;
    }
    let leaves = collect_leaves(&index.parent_of, &children_of);
    Ok(KinematicTopology { index, children_of, leaves, order, position, graph })
}

impl KinematicTopology {
    /// The number of links.
    pub fn link_count(&self) -> (r: usize)
        ensures
            r == self.len(),
    {
        self.index.parent_of.len()
    }

    /// The root link: the one link without a parent.
    pub fn root(&self) -> (r: usize)
        ensures
            r == self.index.root,
    {
        self.index.root
    }

    /// The parent of link `id`, `None` for the root.
    pub fn parent(&self, id: usize) -> (r: Option<usize>)
        requires
            id < self.len(),
        ensures
            r == self.parents()[id as int],
    {
        self.index.parent_of[id]
    }

    /// The index of the joint that connects link `id` to its parent.
    pub fn joint(&self, id: usize) -> (r: Option<usize>)
        requires
            self.wf(),
            id < self.len(),
        ensures
            r == self.index.joint_of@[id as int],
    {
        self.index.joint_of[id]
    }

    /// The children of link `id`, in increasing order.
    pub fn children(&self, id: usize) -> (r: Vec<usize>)
        requires
            self.wf(),
            id < self.len(),
        ensures
            children_list(self.parents(), id, r@),
    {
        assert(children_list(self.parents(), id, self.children_of@[id as int]@));
        self.children_of[id].clone()
    }

    /// The links without children, in increasing order.
    pub fn leaves(&self) -> (r: &Vec<usize>)
        requires
            self.wf(),
        ensures
            leaf_list(self.parents(), r@),
    {
        &self.leaves
    }

    /// The traversal order: the root first, every link after its parent.
    pub fn traversal_order(&self) -> (r: &Vec<usize>)
        requires
            self.wf(),
        ensures
            is_traversal(self.parents(), self.index.root, r@),
    {
        &self.order
    }
}

/// In the graph of a topology built from a well-formed description exactly
/// one node has no incoming edge: the root, which is the link of the
/// description that no joint has as its child.
pub proof fn lemma_single_source(names: Seq<String>, joints: Seq<JointRecord>, t: KinematicTopology)
    requires
        well_formed(names, joints),
        indexes(names, joints, t.index),
        t.wf(),
    ensures
        forall|v: usize| #[trigger] graph_nodes(t.graph).contains(v)
            && (forall|u: usize| !graph_edges(t.graph).contains((u, v))) <==> v == t.index.root,
        !is_child(joints, names[t.index.root as int]@),
{
    assert forall|v: usize| #[trigger] graph_nodes(t.graph).contains(v)
        && (forall|u: usize| !graph_edges(t.graph).contains((u, v))) <==> v == t.index.root by {
        if v < t.len() && v != t.index.root {
            let p = t.parents()[v as int]->0;
            assert(t.parents()[v as int] is Some) by {
                let k = t.position@[v as int];
                assert(t.order@[k as int] == v);
            }
            assert(graph_edges(t.graph).contains((p, v)));
        }
        if v == t.index.root {
            assert(link_ids(t.len()).contains(v));
            assert forall|u: usize| !graph_edges(t.graph).contains((u, v)) by {
                assert(!parent_edges(t.parents()).contains((u, v)));
            }
        }
    }
}

/// Every link with a parent stands after that parent in the traversal order.
pub proof fn lemma_parent_precedes(t: KinematicTopology, l: usize)
    requires
        t.wf(),
        l < t.len(),
        t.parents()[l as int] is Some,
    ensures
        t.position@[t.parents()[l as int]->0 as int] < t.position@[l as int],
        t.order@[t.position@[l as int] as int] == l,
{
    let p = t.parents()[l as int]->0;
    let k = t.position@[l as int];
    assert(t.order@[k as int] == l);
    let i = choose|i: int| 0 <= i < k && #[trigger] t.order@[i] == p;
    assert(t.position@[p as int] == i);
}

} // verus!
