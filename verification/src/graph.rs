//! Workspace dependency graph: nodes are discovered packages, edges point
//! from a dependent package to one of its dependencies. Provides cycle
//! detection, the dependency-first build order, and the affected set.

use vstd::prelude::*;

verus! {

broadcast use vstd::set::group_set_axioms;

/// A vector of `n` cleared flags.
fn make_flags(n: usize) -> (r: Vec<bool>)
    ensures
        r@.len() == n,
        forall|i: int| 0 <= i < n ==> !r@[i],
{
    let mut r: Vec<bool> = Vec::new();
    let mut i: usize = 0;
    while i < n
        invariant
            i <= n,
            r@.len() == i,
            forall|j: int| 0 <= j < i ==> !r@[j],
        decreases n - i,
    {
        r.push(false);
        i = i + 1;
    }
    r
}

/// First position at or after `i` whose value the flags mark as cleared.
proof fn first_cleared_pos(sigma: Seq<usize>, flags: Seq<bool>, i: int) -> (j: int)
    requires
        0 <= i <= sigma.len(),
        forall|idx: int| 0 <= idx < sigma.len() ==> #[trigger] sigma[idx] < flags.len(),
        exists|j0: int| i <= j0 < sigma.len() && !flags[#[trigger] sigma[j0] as int],
    ensures
        i <= j < sigma.len(),
        !flags[sigma[j] as int],
        forall|j0: int| i <= j0 < j ==> flags[#[trigger] sigma[j0] as int],
    decreases sigma.len() - i,
{
    let jw = choose|j0: int| i <= j0 < sigma.len() && !flags[#[trigger] sigma[j0] as int];
    if !flags[sigma[i] as int] {
        i
    } else {
        assert(jw >= i + 1);
        first_cleared_pos(sigma, flags, i + 1)
    }
}

/// A workspace package discovered under the monorepo root.
pub struct WorkspaceNode {
    /// Package name from its manifest.
    pub name: String,
    /// Path of the package directory, relative to the root.
    pub path: String,
    /// Path of the package manifest file.
    pub package_json_path: String,
    /// Declared package version, when present.
    pub version: Option<String>,
    /// Names of the scripts the package declares.
    pub scripts: Vec<String>,
}

/// What discovery reads out of one package manifest: the node fields plus
/// the union of the keys of all dependency maps.
pub struct PackageManifest {
    pub name: String,
    pub path: String,
    pub manifest_path: String,
    pub version: Option<String>,
    pub scripts: Vec<String>,
    /// Keys of the runtime, dev and peer dependency maps, unioned.
    pub deps: Vec<String>,
}

/// Error of a dependency-ordered operation.
#[derive(Debug)]
pub enum GraphError {
    /// The dependency graph holds a cycle, so no build order exists.
    CycleDetected,
}

impl GraphError {
    /// A human-readable rendering of the error.
    pub fn message(&self) -> (r: String)
        ensures
            r@ == "circular dependency detected"@,
    {
        String::from_str("circular dependency detected")
    }
}

/// Dependency graph over workspace packages. An edge `(d, n)` records that
/// package `d` depends on package `n`; both are indices into `nodes`.
pub struct DepGraph {
    pub nodes: Vec<WorkspaceNode>,
    pub edges: Vec<(usize, usize)>,
}

impl DepGraph {
    /// Every edge endpoint indexes a node.
    pub open spec fn wf(self) -> bool {
        forall|k: int|
            0 <= k < self.edges@.len() ==> (#[trigger] self.edges@[k]).0 < self.nodes@.len()
                && self.edges@[k].1 < self.nodes@.len()
    }

    /// Some recorded edge says that `d` depends on `n`.
    pub open spec fn has_edge(self, d: usize, n: usize) -> bool {
        exists|k: int| 0 <= k < self.edges@.len() && #[trigger] self.edges@[k] == (d, n)
    }

    /// A dependency-first ordering of all node indices: every node occurs,
    /// and a node never depends on one at the same or a later position.
    pub open spec fn is_build_order(self, order: Seq<usize>) -> bool {
        &&& order.len() == self.nodes@.len()
        &&& forall|i: int| 0 <= i < order.len() ==> #[trigger] order[i] < self.nodes@.len()
        &&& forall|v: usize| v < self.nodes@.len() ==> order.contains(v)
        &&& forall|i: int, j: int|
            0 <= i <= j < order.len() ==> !self.has_edge(#[trigger] order[i], #[trigger] order[j])
    }

    /// The graph admits a dependency-first ordering. For a finite graph this
    /// is exactly acyclicity, and its negation is what `has_cycle` reports.
    pub open spec fn sortable(self) -> bool {
        exists|order: Seq<usize>| self.is_build_order(order)
    }

    /// A non-empty walk along dependency edges.
    pub open spec fn is_dep_path(self, p: Seq<usize>) -> bool {
        &&& p.len() >= 1
        &&& forall|i: int| 0 <= i < p.len() - 1 ==> self.has_edge(#[trigger] p[i], p[i + 1])
    }

    /// `from` is `to` itself or depends on it transitively: the membership
    /// test of the affected set of `to`.
    pub open spec fn reaches(self, from: usize, to: usize) -> bool {
        exists|p: Seq<usize>| self.is_dep_path(p) && p.first() == from && p.last() == to
    }

    /// Create a new empty dependency graph.
    pub fn new() -> (r: DepGraph)
        ensures
            r.nodes@.len() == 0,
            r.edges@.len() == 0,
            r.wf(),
    {
        DepGraph { nodes: Vec::new(), edges: Vec::new() }
    }

    /// Add a package node; returns its index.
    pub fn add_node(&mut self, node: WorkspaceNode) -> (idx: usize)
        ensures
            final(self).nodes@ == old(self).nodes@.push(node),
            final(self).edges@ == old(self).edges@,
            idx == old(self).nodes@.len(),
            old(self).wf() ==> final(self).wf(),
    {
        let idx = self.nodes.len();
        self.nodes.push(node);
        idx
    }

    /// Record that node `from` depends on node `to`.
    pub fn add_edge(&mut self, from: usize, to: usize)
        requires
            from < old(self).nodes@.len(),
            to < old(self).nodes@.len(),
        ensures
            final(self).edges@ == old(self).edges@.push((from, to)),
            final(self).nodes@ == old(self).nodes@,
            old(self).wf() ==> final(self).wf(),
    {
        self.edges.push((from, to));
    }

    /// Number of packages in the graph.
    pub fn package_count(&self) -> (r: usize)
        ensures
            r == self.nodes@.len(),
    {
        self.nodes.len()
    }

    /// Number of recorded dependency edges.
    pub fn edge_count(&self) -> (r: usize)
        ensures
            r == self.edges@.len(),
    {
        self.edges.len()
    }

    /// All packages, in insertion order.
    pub fn packages(&self) -> (r: &Vec<WorkspaceNode>)
        ensures
            r == &self.nodes,
    {
        &self.nodes
    }

    /// Index of some package with the given name, or `None` when no package
    /// carries it.
    pub fn find_package(&self, name: &String) -> (r: Option<usize>)
        ensures
            match r {
                Some(i) => i < self.nodes@.len() && self.nodes@[i as int].name@ == name@,
                None => forall|i: int|
                    0 <= i < self.nodes@.len() ==> (#[trigger] self.nodes@[i]).name@ != name@,
            },
    {
        let mut i: usize = 0;
        while i < self.nodes.len()
            invariant
                i <= self.nodes@.len(),
                forall|j: int| 0 <= j < i ==> (#[trigger] self.nodes@[j]).name@ != name@,
            decreases self.nodes@.len() - i,
        {
            if self.nodes[i].name == *name {
                return Some(i);
            }
            i = i + 1;
        }
        None
    }

    /// The package with the given name, or `None` when no package carries it.
    pub fn get_package(&self, name: &String) -> (r: Option<&WorkspaceNode>)
        ensures
            match r {
                Some(node) => exists|i: int|
                    0 <= i < self.nodes@.len() && *node == self.nodes@[i] && (
                    #[trigger] self.nodes@[i]).name@ == name@,
                None => forall|i: int|
                    0 <= i < self.nodes@.len() ==> (#[trigger] self.nodes@[i]).name@ != name@,
            },
    {
        match self.find_package(name) {
            Some(i) => Some(&self.nodes[i]),
            None => None,
        }
    }

    /// Every dependency of node `v` is already marked emitted.
    fn deps_emitted(&self, v: usize, emitted: &Vec<bool>) -> (r: bool)
        requires
            self.wf(),
            emitted@.len() == self.nodes@.len(),
        ensures
            r == (forall|k: int|
                0 <= k < self.edges@.len() && (#[trigger] self.edges@[k]).0 == v
                    ==> emitted@[self.edges@[k].1 as int]),
    {
        let mut k: usize = 0;
        while k < self.edges.len()
            invariant
                self.wf(),
                emitted@.len() == self.nodes@.len(),
                k <= self.edges@.len(),
                forall|k0: int|
                    0 <= k0 < k && (#[trigger] self.edges@[k0]).0 == v
                        ==> emitted@[self.edges@[k0].1 as int],
            decreases self.edges@.len() - k,
        {
            let e = self.edges[k];
            if e.0 == v && !emitted[e.1] {
                return false;
            }
            k = k + 1;
        }
        true
    }

    /// Some node that is not yet emitted and whose dependencies all are; or
    /// `None` when every unemitted node still waits on an unemitted
    /// dependency.
    fn find_ready(&self, emitted: &Vec<bool>) -> (r: Option<usize>)
        requires
            self.wf(),
            emitted@.len() == self.nodes@.len(),
        ensures
            match r {
                Some(v) => v < self.nodes@.len() && !emitted@[v as int] && (forall|k: int|
                    0 <= k < self.edges@.len() && (#[trigger] self.edges@[k]).0 == v
                        ==> emitted@[self.edges@[k].1 as int]),
                None => forall|v: usize|
                    v < self.nodes@.len() && !emitted@[v as int] ==> exists|k: int|
                        0 <= k < self.edges@.len() && (#[trigger] self.edges@[k]).0 == v
                            && !emitted@[self.edges@[k].1 as int],
            },
    {
        let mut v: usize = 0;
        while v < self.nodes.len()
            invariant
                self.wf(),
                emitted@.len() == self.nodes@.len(),
                v <= self.nodes@.len(),
                forall|v0: usize|
                    v0 < v && !emitted@[v0 as int] ==> exists|k: int|
                        0 <= k < self.edges@.len() && (#[trigger] self.edges@[k]).0 == v0
                            && !emitted@[self.edges@[k].1 as int],
            decreases self.nodes@.len() - v,
        {
            if !emitted[v] && self.deps_emitted(v, emitted) {
                return Some(v);
            }
            v = v + 1;
        }
        None
    }

    /// When every unemitted node waits on an unemitted dependency and some
    /// node is unemitted, no dependency-first ordering exists.
    #[verifier::rlimit(50)]
    proof fn lemma_stuck_unsortable(self, emitted: Seq<bool>, unemitted: Set<int>)
        requires
            self.wf(),
            emitted.len() == self.nodes@.len(),
            unemitted.finite(),
            unemitted.len() > 0,
            forall|x: int| unemitted.contains(x) <==> (0 <= x < self.nodes@.len() && !emitted[x]),
            forall|v: usize|
                v < self.nodes@.len() && !emitted[v as int] ==> exists|k: int|
                    0 <= k < self.edges@.len() && (#[trigger] self.edges@[k]).0 == v && !emitted[
                        self.edges@[k].1 as int
                    ],
        ensures
            !self.sortable(),
    {
        if self.sortable() {
            let sigma = choose|s: Seq<usize>| self.is_build_order(s);
            assert(exists|x: int| unemitted.contains(x)) by {
                if !(exists|x: int| unemitted.contains(x)) {
                    assert(unemitted =~= Set::<int>::empty());
                }
            }
            let x0 = choose|x: int| unemitted.contains(x);
            assert(0 <= x0 < self.nodes@.len());
            assert(vstd::std_specs::vec::spec_vec_len(&self.nodes) == self.nodes@.len());
            assert(!emitted[x0]);
            let x0u = x0 as usize;
            assert(x0u as int == x0);
            assert(sigma.contains(x0u));
            let j0 = choose|j: int| 0 <= j < sigma.len() && sigma[j] == x0u;
            assert(sigma[j0] == x0u);
            assert(!emitted[sigma[j0] as int]);
            assert(forall|idx: int|
                0 <= idx < sigma.len() ==> #[trigger] sigma[idx] < emitted.len());
            let j = first_cleared_pos(sigma, emitted, 0);
            let u = sigma[j];
            assert(u < self.nodes@.len());
            let k = choose|k: int|
                0 <= k < self.edges@.len() && (#[trigger] self.edges@[k]).0 == u && !emitted[
                    self.edges@[k].1 as int
                ];
            let w = self.edges@[k].1;
            assert(w < self.nodes@.len());
            assert(sigma.contains(w));
            let jw = choose|j2: int| 0 <= j2 < sigma.len() && sigma[j2] == w;
            assert(jw >= j);
            assert(self.has_edge(u, w)) by {
                assert(self.edges@[k] == (u, w));
            }
            assert(!self.has_edge(sigma[j], sigma[jw]));
            assert(false);
        }
    }

    /// The dependency-first build order of all packages: a sequence of node
    /// indices in which every package stands after all of its dependencies.
    /// Succeeds exactly when the graph is free of dependency cycles.
    pub fn get_build_order(&self) -> (r: Result<Vec<usize>, GraphError>)
        requires
            self.wf(),
        ensures
            match r {
                Ok(order) => self.is_build_order(order@) && order@.no_duplicates()
                    && self.sortable(),
                Err(e) => !self.sortable() && e == GraphError::CycleDetected,
            },
    {
        let n = self.nodes.len();
        let mut emitted = make_flags(n);
        let mut order: Vec<usize> = Vec::new();
        let ghost mut unemitted = vstd::set_lib::set_int_range(0, n as int);
        proof {
            vstd::set_lib::lemma_int_range(0, n as int);
        }
        while order.len() < n
            invariant
                self.wf(),
                n == self.nodes@.len(),
                emitted@.len() == n,
                order@.len() <= n,
                unemitted.finite(),
                unemitted.len() == n - order@.len(),
                forall|x: int| unemitted.contains(x) <==> (0 <= x < n && !emitted@[x]),
                forall|x: usize| x < n ==> ((#[trigger] emitted@[x as int]) <==> order@.contains(x)),
                forall|i: int| 0 <= i < order@.len() ==> #[trigger] order@[i] < n,
                order@.no_duplicates(),
                forall|i: int, k: int|
                    0 <= i < order@.len() && 0 <= k < self.edges@.len() && (
                    #[trigger] self.edges@[k]).0 == #[trigger] order@[i] ==> exists|j: int|
                        0 <= j < i && order@[j] == self.edges@[k].1,
            decreases n - order.len(),
        {
            match self.find_ready(&emitted) {
                Some(v) => {
                    let ghost old_emitted = emitted@;
                    let ghost old_order = order@;
                    emitted[v] = true;
                    order.push(v);
                    proof {
                        unemitted = unemitted.remove(v as int);
                        assert(order@ == old_order.push(v));
                        assert(!old_order.contains(v));
                        assert(order@.no_duplicates()) by {
                            assert forall|i: int, j: int|
                                0 <= i < order@.len() && 0 <= j < order@.len() && i
                                    != j implies order@[i] != order@[j] by {
                                if i < old_order.len() && j < old_order.len() {
                                    assert(old_order[i] != old_order[j]);
                                } else if j == old_order.len() && i < j {
                                    assert(order@[i] == old_order[i]);
                                    assert(old_order.contains(old_order[i]));
                                } else if i == old_order.len() && j < i {
                                    assert(order@[j] == old_order[j]);
                                    assert(old_order.contains(old_order[j]));
                                }
                            }
                        }
                        assert forall|x: usize| x < n implies ((#[trigger] emitted@[x as int])
                            <==> order@.contains(x)) by {
                            if x == v {
                                assert(order@[order@.len() - 1] == v);
                            } else {
                                assert(emitted@[x as int] == old_emitted[x as int]);
                                if order@.contains(x) {
                                    let ji = choose|ji: int|
                                        0 <= ji < order@.len() && order@[ji] == x;
                                    assert(ji < old_order.len());
                                    assert(old_order.contains(x));
                                } else {
                                    if old_order.contains(x) {
                                        let ji = choose|ji: int|
                                            0 <= ji < old_order.len() && old_order[ji] == x;
                                        assert(order@[ji] == x);
                                    }
                                }
                            }
                        }
                        assert forall|i: int, k: int|
                            0 <= i < order@.len() && 0 <= k < self.edges@.len() && (
                            #[trigger] self.edges@[k]).0 == #[trigger] order@[i] implies exists|
                            j: int,
                        |
                            0 <= j < i && order@[j] == self.edges@[k].1 by {
                            if i < old_order.len() {
                                assert(old_order[i] == order@[i]);
                                let j = choose|j: int|
                                    0 <= j < i && old_order[j] == self.edges@[k].1;
                                assert(order@[j] == self.edges@[k].1);
                            } else {
                                assert(order@[i] == v);
                                assert(old_emitted[self.edges@[k].1 as int]);
                                assert(old_order.contains(self.edges@[k].1));
                                let j = choose|j: int|
                                    0 <= j < old_order.len() && old_order[j] == self.edges@[k].1;
                                assert(order@[j] == self.edges@[k].1);
                            }
                        }
                    }
                },
                None => {
                    proof {
                        assert(unemitted.len() > 0);
                        self.lemma_stuck_unsortable(emitted@, unemitted);
                    }
                    return Err(GraphError::CycleDetected);
                },
            }
        }
        proof {
            unemitted.lemma_len0_is_empty();
            assert forall|v: usize| v < n implies order@.contains(v) by {
                assert(!unemitted.contains(v as int));
                assert(emitted@[v as int]);
            }
            assert forall|i: int, j: int| 0 <= i <= j < order@.len() implies !self.has_edge(
                #[trigger] order@[i],
                #[trigger] order@[j],
            ) by {
                if self.has_edge(order@[i], order@[j]) {
                    let k = choose|k: int|
                        0 <= k < self.edges@.len() && #[trigger] self.edges@[k] == (
                        order@[i],
                        order@[j],
                        );
                    let j2 = choose|j2: int| 0 <= j2 < i && order@[j2] == self.edges@[k].1;
                    assert(order@[j2] == order@[j]);
                    assert(j2 != j);
                }
            }
            assert(self.is_build_order(order@));
        }
        Ok(order)
    }

    /// A dependent of a node that reaches the target also reaches it.
    proof fn lemma_reaches_step(self, d: usize, u: usize, t: usize)
        requires
            self.has_edge(d, u),
            self.reaches(u, t),
        ensures
            self.reaches(d, t),
    {
        let p = choose|p: Seq<usize>|
            self.is_dep_path(p) && p.first() == u && p.last() == t;
        let p2 = seq![d].add(p);
        assert forall|i: int| 0 <= i < p2.len() - 1 implies self.has_edge(
            #[trigger] p2[i],
            p2[i + 1],
        ) by {
            if i == 0 {
                assert(p2[0] == d);
                assert(p2[1] == p[0]);
            } else {
                assert(p2[i] == p[i - 1]);
                assert(p2[i + 1] == p[i]);
            }
        }
        assert(p2.first() == d);
        assert(p2.last() == t);
        assert(self.is_dep_path(p2));
    }

    /// Reachability is reflexive: the one-node path.
    proof fn lemma_reaches_self(self, x: usize)
        ensures
            self.reaches(x, x),
    {
        let p = seq![x];
        assert(p.first() == x && p.last() == x);
        assert(self.is_dep_path(p));
    }

    /// A visited set that contains the target and is closed under taking the
    /// dependent of an edge contains every node that reaches the target.
    proof fn lemma_closed_complete(self, visited: Seq<bool>, start: usize, p: Seq<usize>)
        requires
            self.wf(),
            visited.len() == self.nodes@.len(),
            start < self.nodes@.len(),
            visited[start as int],
            forall|k: int|
                0 <= k < self.edges@.len() && visited[(#[trigger] self.edges@[k]).1 as int]
                    ==> visited[self.edges@[k].0 as int],
            self.is_dep_path(p),
            p.last() == start,
            p.first() < self.nodes@.len(),
        ensures
            visited[p.first() as int],
        decreases p.len(),
    {
        if p.len() == 1 {
            assert(p.first() == start);
        } else {
            let rest = p.subrange(1, p.len() as int);
            assert(self.has_edge(p[0], p[1]));
            let k = choose|k: int|
                0 <= k < self.edges@.len() && #[trigger] self.edges@[k] == (p[0], p[1]);
            assert forall|i: int| 0 <= i < rest.len() - 1 implies self.has_edge(
                #[trigger] rest[i],
                rest[i + 1],
            ) by {
                assert(rest[i] == p[i + 1]);
                assert(rest[i + 1] == p[i + 2]);
            }
            assert(self.is_dep_path(rest));
            assert(rest.last() == start);
            assert(rest.first() == p[1]);
            assert(p[1] < self.nodes@.len());
            self.lemma_closed_complete(visited, start, rest);
            assert(visited[self.edges@[k].1 as int]);
        }
    }

    /// Indices of every package that is `start` itself or depends on it
    /// transitively: the packages to rebuild when `start` changes.
    #[verifier::loop_isolation(false)]
    #[verifier::rlimit(50)]
    pub fn affected_indices(&self, start: usize) -> (r: Vec<usize>)
        requires
            self.wf(),
            start < self.nodes@.len(),
        ensures
            r@.no_duplicates(),
            forall|i: int| 0 <= i < r@.len() ==> #[trigger] r@[i] < self.nodes@.len(),
            forall|x: usize|
                x < self.nodes@.len() ==> (r@.contains(x) <==> self.reaches(x, start)),
    {
        let n = self.nodes.len();
        let mut visited = make_flags(n);
        let mut queue: Vec<usize> = Vec::new();
        visited[start] = true;
        queue.push(start);
        let ghost mut unvisited = vstd::set_lib::set_int_range(0, n as int).remove(start as int);
        proof {
            vstd::set_lib::lemma_int_range(0, n as int);
            self.lemma_reaches_self(start);
            assert(queue@[0] == start);
        }
        let mut i: usize = 0;
        while i < queue.len()
            invariant
                visited@.len() == n,
                i <= queue@.len(),
                unvisited.finite(),
                unvisited.len() == n - queue@.len(),
                forall|x: int| unvisited.contains(x) <==> (0 <= x < n && !visited@[x]),
                queue@.no_duplicates(),
                forall|qi: int| 0 <= qi < queue@.len() ==> #[trigger] queue@[qi] < n,
                forall|x: usize|
                    x < n ==> ((#[trigger] visited@[x as int]) <==> queue@.contains(x)),
                visited@[start as int],
                forall|x: usize|
                    x < n && #[trigger] visited@[x as int] ==> self.reaches(x, start),
                forall|qi: int, k: int|
                    0 <= qi < i && 0 <= k < self.edges@.len() && (#[trigger] self.edges@[k]).1
                        == #[trigger] queue@[qi] ==> visited@[self.edges@[k].0 as int],
            decreases unvisited.len(), queue@.len() - i,
        {
            let u = queue[i];
            proof {
                assert(queue@.contains(u)) by {
                    assert(queue@[i as int] == u);
                }
                assert(visited@[u as int]);
                assert(self.reaches(u, start));
            }
            let ghost entry_len = queue@.len();
            let mut k: usize = 0;
            while k < self.edges.len()
                invariant
                    k <= self.edges@.len(),
                    queue@.len() >= entry_len,
                    visited@.len() == n,
                    unvisited.finite(),
                    unvisited.len() == n - queue@.len(),
                    forall|x: int| unvisited.contains(x) <==> (0 <= x < n && !visited@[x]),
                    queue@.no_duplicates(),
                    forall|qi: int| 0 <= qi < queue@.len() ==> #[trigger] queue@[qi] < n,
                    forall|x: usize|
                        x < n ==> ((#[trigger] visited@[x as int]) <==> queue@.contains(x)),
                    visited@[start as int],
                    forall|x: usize|
                        x < n && #[trigger] visited@[x as int] ==> self.reaches(x, start),
                    queue@.len() > i,
                    queue@[i as int] == u,
                    forall|qi: int, k0: int|
                        0 <= qi < i && 0 <= k0 < self.edges@.len()
                            && (#[trigger] self.edges@[k0]).1 == #[trigger] queue@[qi]
                            ==> visited@[self.edges@[k0].0 as int],
                    forall|k0: int|
                        0 <= k0 < k && (#[trigger] self.edges@[k0]).1 == u
                            ==> visited@[self.edges@[k0].0 as int],
                decreases self.edges@.len() - k,
            {
                let e = self.edges[k];
                if e.1 == u && !visited[e.0] {
                    let ghost pre_visited = visited@;
                    let ghost pre_queue = queue@;
                    visited[e.0] = true;
                    queue.push(e.0);
                    proof {
                        unvisited = unvisited.remove(e.0 as int);
                        assert(visited@ == pre_visited.update(e.0 as int, true));
                        assert(queue@ == pre_queue.push(e.0));
                        assert(self.has_edge(e.0, u)) by {
                            assert(self.edges@[k as int] == (e.0, e.1));
                        }
                        self.lemma_reaches_step(e.0, u, start);
                        assert(!pre_queue.contains(e.0));
                        assert forall|ii: int, jj: int|
                            0 <= ii < queue@.len() && 0 <= jj < queue@.len() && ii
                                != jj implies queue@[ii] != queue@[jj] by {
                            if ii < pre_queue.len() && jj < pre_queue.len() {
                                assert(pre_queue[ii] != pre_queue[jj]);
                            } else if jj == pre_queue.len() && ii < jj {
                                assert(queue@[ii] == pre_queue[ii]);
                                assert(pre_queue.contains(pre_queue[ii]));
                            } else if ii == pre_queue.len() && jj < ii {
                                assert(queue@[jj] == pre_queue[jj]);
                                assert(pre_queue.contains(pre_queue[jj]));
                            }
                        }
                        assert forall|x: usize| x < n implies ((#[trigger] visited@[x as int])
                            <==> queue@.contains(x)) by {
                            if x == e.0 {
                                assert(queue@[queue@.len() - 1] == x);
                            } else {
                                assert(visited@[x as int] == pre_visited[x as int]);
                                if queue@.contains(x) {
                                    let qi = choose|qi: int|
                                        0 <= qi < queue@.len() && queue@[qi] == x;
                                    assert(qi < pre_queue.len());
                                    assert(pre_queue.contains(x));
                                } else {
                                    if pre_queue.contains(x) {
                                        let qi = choose|qi: int|
                                            0 <= qi < pre_queue.len() && pre_queue[qi] == x;
                                        assert(queue@[qi] == x);
                                    }
                                }
                            }
                        }
                    }
                }
                k = k + 1;
            }
            i = i + 1;
        }
        proof {
            assert forall|k: int|
                0 <= k < self.edges@.len() && visited@[(#[trigger] self.edges@[k]).1
                    as int] implies visited@[self.edges@[k].0 as int] by {
                let x = self.edges@[k].1;
                assert(x < n);
                assert(queue@.contains(x));
                let qi = choose|qi: int| 0 <= qi < queue@.len() && queue@[qi] == x;
            }
            assert forall|x: usize|
                x < self.nodes@.len() && self.reaches(x, start) implies queue@.contains(x) by {
                let p = choose|p: Seq<usize>|
                    self.is_dep_path(p) && p.first() == x && p.last() == start;
                self.lemma_closed_complete(visited@, start, p);
                assert(visited@[x as int]);
            }
            assert forall|x: usize|
                x < self.nodes@.len() && queue@.contains(x) implies self.reaches(x, start) by {
                assert(visited@[x as int]);
            }
        }
        queue
    }

    /// Indices of every package affected by a change in the named package:
    /// the package itself and all of its transitive dependents. Empty when no
    /// package carries the name.
    pub fn get_affected(&self, name: &String) -> (r: Vec<usize>)
        requires
            self.wf(),
        ensures
            r@.no_duplicates(),
            forall|i: int| 0 <= i < r@.len() ==> #[trigger] r@[i] < self.nodes@.len(),
            (forall|i: int|
                0 <= i < self.nodes@.len() ==> (#[trigger] self.nodes@[i]).name@ != name@)
                ==> r@.len() == 0,
            (exists|i: int|
                0 <= i < self.nodes@.len() && (#[trigger] self.nodes@[i]).name@ == name@)
                ==> exists|s: usize|
                s < self.nodes@.len() && (#[trigger] self.nodes@[s as int].name@) == name@
                    && (forall|x: usize|
                    x < self.nodes@.len() ==> (r@.contains(x) <==> self.reaches(x, s))),
    {
        match self.find_package(name) {
            Some(s) => {
                let r = self.affected_indices(s);
                proof {
                    self.lemma_reaches_self(s);
                    assert(r@.contains(s));
                    assert(r@.len() > 0);
                }
                r
            },
            None => Vec::new(),
        }
    }

    /// Whether the manifest at `i` declares a dependency carrying `nm`.
    pub open spec fn declares_dep(m: PackageManifest, nm: Seq<char>) -> bool {
        exists|d: int| 0 <= d < m.deps@.len() && (#[trigger] m.deps@[d])@ == nm
    }

    /// Whether a manifest lists the given name among its dependencies.
    fn has_dep_named(m: &PackageManifest, nm: &String) -> (r: bool)
        ensures
            r == Self::declares_dep(*m, nm@),
    {
        let mut d: usize = 0;
        while d < m.deps.len()
            invariant
                d <= m.deps@.len(),
                forall|d0: int| 0 <= d0 < d ==> (#[trigger] m.deps@[d0])@ != nm@,
            decreases m.deps@.len() - d,
        {
            if m.deps[d] == *nm {
                assert(Self::declares_dep(*m, nm@)) by {
                    assert((m.deps@[d as int])@ == nm@);
                }
                return true;
            }
            d = d + 1;
        }
        false
    }

    /// Build the graph from the manifests that discovery read: one node per
    /// manifest, and an edge from a package to every other discovered package
    /// that its dependency maps name. Dependencies on packages outside the
    /// workspace are ignored.
    #[verifier::loop_isolation(false)]
    pub fn from_manifests(manifests: &Vec<PackageManifest>) -> (r: DepGraph)
        ensures
            r.wf(),
            r.nodes@.len() == manifests@.len(),
            forall|i: int|
                0 <= i < manifests@.len() ==> {
                    &&& (#[trigger] r.nodes@[i]).name@ == manifests@[i].name@
                    &&& r.nodes@[i].path@ == manifests@[i].path@
                    &&& r.nodes@[i].package_json_path@ == manifests@[i].manifest_path@
                    &&& r.nodes@[i].scripts@.len() == manifests@[i].scripts@.len()
                },
            forall|d: usize, n: usize|
                d < manifests@.len() && n < manifests@.len() ==> (r.has_edge(d, n)
                    <==> Self::declares_dep(manifests@[d as int], manifests@[n as int].name@)),
    {
        let mut g = DepGraph::new();
        let mut i: usize = 0;
        while i < manifests.len()
            invariant
                g.nodes@.len() == i,
                i <= manifests@.len(),
                g.edges@.len() == 0,
                forall|i0: int|
                    0 <= i0 < i ==> {
                        &&& (#[trigger] g.nodes@[i0]).name@ == manifests@[i0].name@
                        &&& g.nodes@[i0].path@ == manifests@[i0].path@
                        &&& g.nodes@[i0].package_json_path@ == manifests@[i0].manifest_path@
                        &&& g.nodes@[i0].scripts@.len() == manifests@[i0].scripts@.len()
                    },
            decreases manifests@.len() - i,
        {
            let m = &manifests[i];
            let version = match &m.version {
                Some(v) => Some(v.clone()),
                None => None,
            };
            let mut scripts: Vec<String> = Vec::new();
            let mut s: usize = 0;
            while s < m.scripts.len()
                invariant
                    s <= m.scripts@.len(),
                    scripts@.len() == s,
                decreases m.scripts@.len() - s,
            {
                scripts.push(m.scripts[s].clone());
                s = s + 1;
            }
            let node = WorkspaceNode {
                name: m.name.clone(),
                path: m.path.clone(),
                package_json_path: m.manifest_path.clone(),
                version,
                scripts,
            };
            g.add_node(node);
            i = i + 1;
        }
        let mut d: usize = 0;
        while d < manifests.len()
            invariant
                g.wf(),
                g.nodes@.len() == manifests@.len(),
                d <= manifests@.len(),
                forall|i0: int|
                    0 <= i0 < manifests@.len() ==> {
                        &&& (#[trigger] g.nodes@[i0]).name@ == manifests@[i0].name@
                        &&& g.nodes@[i0].path@ == manifests@[i0].path@
                        &&& g.nodes@[i0].package_json_path@ == manifests@[i0].manifest_path@
                        &&& g.nodes@[i0].scripts@.len() == manifests@[i0].scripts@.len()
                    },
                forall|k: int|
                    0 <= k < g.edges@.len() ==> Self::declares_dep(
                        manifests@[(#[trigger] g.edges@[k]).0 as int],
                        manifests@[g.edges@[k].1 as int].name@,
                    ),
                forall|d0: usize, n0: usize|
                    d0 < d && n0 < manifests@.len() && Self::declares_dep(
                        manifests@[d0 as int],
                        manifests@[n0 as int].name@,
                    ) ==> g.has_edge(d0, n0),
                forall|k: int| 0 <= k < g.edges@.len() ==> (#[trigger] g.edges@[k]).0 < d,
            decreases manifests@.len() - d,
        {
            let mut n: usize = 0;
            while n < manifests.len()
                invariant
                    g.wf(),
                    g.nodes@.len() == manifests@.len(),
                    n <= manifests@.len(),
                    forall|i0: int|
                        0 <= i0 < manifests@.len() ==> {
                            &&& (#[trigger] g.nodes@[i0]).name@ == manifests@[i0].name@
                            &&& g.nodes@[i0].path@ == manifests@[i0].path@
                            &&& g.nodes@[i0].package_json_path@ == manifests@[i0].manifest_path@
                            &&& g.nodes@[i0].scripts@.len() == manifests@[i0].scripts@.len()
                        },
                    forall|k: int|
                        0 <= k < g.edges@.len() ==> Self::declares_dep(
                            manifests@[(#[trigger] g.edges@[k]).0 as int],
                            manifests@[g.edges@[k].1 as int].name@,
                        ),
                    forall|d0: usize, n0: usize|
                        d0 < d && n0 < manifests@.len() && Self::declares_dep(
                            manifests@[d0 as int],
                            manifests@[n0 as int].name@,
                        ) ==> g.has_edge(d0, n0),
                    forall|n0: usize|
                        n0 < n && Self::declares_dep(
                            manifests@[d as int],
                            manifests@[n0 as int].name@,
                        ) ==> g.has_edge(d, n0),
                    forall|k: int|
                        0 <= k < g.edges@.len() ==> (#[trigger] g.edges@[k]).0 < d || (
                        g.edges@[k].0 == d && g.edges@[k].1 < n),
                decreases manifests@.len() - n,
            {
                if Self::has_dep_named(&manifests[d], &manifests[n].name) {
                    let ghost pre_g = g;
                    g.add_edge(d, n);
                    proof {
                        assert(g.edges@ == pre_g.edges@.push((d, n)));
                        assert(g.has_edge(d, n)) by {
                            assert(g.edges@[g.edges@.len() - 1] == (d, n));
                        }
                        assert forall|d0: usize, n0: usize|
                            d0 < d && n0 < manifests@.len() && Self::declares_dep(
                                manifests@[d0 as int],
                                manifests@[n0 as int].name@,
                            ) implies g.has_edge(d0, n0) by {
                            assert(pre_g.has_edge(d0, n0));
                            let k = choose|k: int|
                                0 <= k < pre_g.edges@.len() && #[trigger] pre_g.edges@[k] == (
                                d0,
                                n0,
                                );
                            assert(g.edges@[k] == (d0, n0));
                        }
                        assert forall|n0: usize|
                            n0 < n && Self::declares_dep(
                                manifests@[d as int],
                                manifests@[n0 as int].name@,
                            ) implies g.has_edge(d, n0) by {
                            assert(pre_g.has_edge(d, n0));
                            let k = choose|k: int|
                                0 <= k < pre_g.edges@.len() && #[trigger] pre_g.edges@[k] == (
                                d,
                                n0,
                                );
                            assert(g.edges@[k] == (d, n0));
                        }
                    }
                }
                n = n + 1;
            }
            d = d + 1;
        }
        proof {
            assert forall|dd: usize, nn: usize|
                dd < manifests@.len() && nn < manifests@.len() implies (g.has_edge(dd, nn)
                <==> Self::declares_dep(manifests@[dd as int], manifests@[nn as int].name@)) by {
                if g.has_edge(dd, nn) {
                    let k = choose|k: int|
                        0 <= k < g.edges@.len() && #[trigger] g.edges@[k] == (dd, nn);
                    assert(Self::declares_dep(
                        manifests@[g.edges@[k].0 as int],
                        manifests@[g.edges@[k].1 as int].name@,
                    ));
                }
            }
        }
        g
    }

    /// Whether the dependency graph holds a cycle, that is, whether no
    /// dependency-first build order exists.
    pub fn has_cycle(&self) -> (r: bool)
        requires
            self.wf(),
        ensures
            r == !self.sortable(),
    {
        match self.get_build_order() {
            Ok(_) => false,
            Err(_) => true,
        }
    }
}

} // verus!
