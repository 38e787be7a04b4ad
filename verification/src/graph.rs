//! An undirected graph of named vertices with string attributes.
//!
//! Vertices are kept in insertion order with unique names; each undirected
//! edge is stored once, and an unordered pair of vertex keys matches it in
//! either orientation.

use vstd::prelude::*;

use crate::text::str_eq;

verus! {

/// A graph vertex with a unique identifier and attribute string.
#[derive(Debug, Clone)]
pub struct Vertex {
    /// The unique identifier of the vertex.
    pub guid: String,
    /// The name of the vertex.
    pub name: String,
    /// Vertex attribute data as string.
    pub attribute: String,
    /// Position of the vertex in the graph at the time it was added.
    pub index: i32,
}

/// A graph edge with a unique identifier and attribute string.
#[derive(Debug, Clone)]
pub struct Edge {
    /// The unique identifier of the edge.
    pub guid: String,
    /// The name of the edge.
    pub name: String,
    /// The first vertex of the edge.
    pub v0: String,
    /// The second vertex of the edge.
    pub v1: String,
    /// Edge attribute data as string.
    pub attribute: String,
    /// Position of the edge in the graph at the time it was added.
    pub index: i32,
}

/// True when the stored edge joins the unordered pair of keys `u`, `v`.
pub open spec fn edge_joins(e: Edge, u: Seq<char>, v: Seq<char>) -> bool {
    (e.v0@ == u && e.v1@ == v) || (e.v0@ == v && e.v1@ == u)
}

/// An undirected graph keyed by vertex name.
#[derive(Debug, Clone)]
pub struct Graph {
    /// The unique identifier of the graph.
    pub guid: String,
    /// The name of the graph.
    pub name: String,
    /// Number of vertices, kept equal to the vertex list's length.
    pub vertex_count: i32,
    /// Number of edges, kept equal to the edge list's length.
    pub edge_count: i32,
    /// The vertices, in insertion order; names are unique (`wf`).
    pub vertices: Vec<Vertex>,
    /// The edges, in insertion order; each unordered pair appears once (`wf`).
    pub edges: Vec<Edge>,
}

impl Graph {
    /// The vertices in insertion order.
    pub open spec fn vertices_seq(self) -> Seq<Vertex> {
        self.vertices@
    }

    /// The edges in insertion order.
    pub open spec fn edges_seq(self) -> Seq<Edge> {
        self.edges@
    }

    /// Well-formedness: counts mirror the lists, vertex names are unique,
    /// and no unordered pair of keys is joined by two stored edges.
    pub open spec fn wf(self) -> bool {
        &&& self.vertex_count as int == self.vertices_seq().len()
        &&& self.edge_count as int == self.edges_seq().len()
        &&& forall|i: int, j: int|
            0 <= i < j < self.vertices_seq().len() ==> (#[trigger] self.vertices_seq()[i]).name@
                != (#[trigger] self.vertices_seq()[j]).name@
        &&& forall|i: int, j: int|
            0 <= i < j < self.edges_seq().len() ==> !edge_joins(
                #[trigger] self.edges_seq()[i],
                (#[trigger] self.edges_seq()[j]).v0@,
                self.edges_seq()[j].v1@,
            )
    }

    /// True when some vertex is named `key`.
    pub open spec fn has_node_spec(self, key: Seq<char>) -> bool {
        exists|i: int|
            0 <= i < self.vertices_seq().len() && (#[trigger] self.vertices_seq()[i]).name@ == key
    }

    /// True when some stored edge joins the unordered pair `u`, `v`.
    pub open spec fn has_edge_spec(self, u: Seq<char>, v: Seq<char>) -> bool {
        exists|i: int| 0 <= i < self.edges_seq().len() && edge_joins(#[trigger] self.edges_seq()[i], u, v)
    }

    /// Creates a new, empty graph with a specific name.
    pub fn new(name: &str) -> (g: Graph)
        ensures
            g.wf(),
            g.name@ == name@,
            g.guid@.len() == 36,
            g.vertices_seq().len() == 0,
            g.edges_seq().len() == 0,
    {
        Graph {
            guid: crate::guid::new_guid(),
            name: name.to_owned(),
            vertex_count: 0,
            edge_count: 0,
            vertices: Vec::new(),
            edges: Vec::new(),
        }
    }

    /// Position of the vertex named `key`, if any.
    fn find_vertex(&self, key: &str) -> (r: Option<usize>)
        ensures
            match r {
                Some(i) => i < self.vertices_seq().len() && self.vertices_seq()[i as int].name@
                    == key@,
                None => !self.has_node_spec(key@),
            },
    {
        let n = self.vertices.len();
        let mut i: usize = 0;
        while i < n
            invariant
                i <= n,
                n == self.vertices_seq().len(),
                forall|j: int| 0 <= j < i ==> (#[trigger] self.vertices_seq()[j]).name@ != key@,
            decreases n - i,
        {
            if str_eq(self.vertices[i].name.as_str(), key) {
                return Some(i);
            }
            i = i + 1;
        }
        None
    }

    /// Position of the edge joining the unordered pair `u`, `v`, if any.
    fn find_edge(&self, u: &str, v: &str) -> (r: Option<usize>)
        ensures
            match r {
                Some(i) => i < self.edges_seq().len() && edge_joins(
                    self.edges_seq()[i as int],
                    u@,
                    v@,
                ),
                None => !self.has_edge_spec(u@, v@),
            },
    {
        let n = self.edges.len();
        let mut i: usize = 0;
        while i < n
            invariant
                i <= n,
                n == self.edges_seq().len(),
                forall|j: int| 0 <= j < i ==> !edge_joins(#[trigger] self.edges_seq()[j], u@, v@),
            decreases n - i,
        {
            let e = &self.edges[i];
            if (str_eq(e.v0.as_str(), u) && str_eq(e.v1.as_str(), v)) || (str_eq(e.v0.as_str(), v)
                && str_eq(e.v1.as_str(), u)) {
                return Some(i);
            }
            i = i + 1;
        }
        None
    }

    /// Checks if a node exists in the graph.
    pub fn has_node(&self, key: &str) -> (r: bool)
        ensures
            r == self.has_node_spec(key@),
    {
        self.find_vertex(key).is_some()
    }

    /// Checks if an edge exists in the graph, in either orientation.
    pub fn has_edge(&self, edge: (&str, &str)) -> (r: bool)
        ensures
            r == self.has_edge_spec(edge.0@, edge.1@),
    {
        self.find_edge(edge.0, edge.1).is_some()
    }

    /// Adds a node to the graph and returns its name; an existing name is
    /// left untouched.
    pub fn add_node(&mut self, key: &str, attribute: &str) -> (r: String)
        requires
            old(self).wf(),
            old(self).vertices_seq().len() < i32::MAX,
        ensures
            final(self).wf(),
            final(self).guid == old(self).guid,
            final(self).name == old(self).name,
            r@ == key@,
            final(self).has_node_spec(key@),
            final(self).edges_seq() == old(self).edges_seq(),
            old(self).has_node_spec(key@) ==> final(self).vertices_seq() == old(self).vertices_seq(),
            !old(self).has_node_spec(key@) ==> {
                &&& final(self).vertices_seq().len() == old(self).vertices_seq().len() + 1
                &&& forall|j: int|
                    0 <= j < old(self).vertices_seq().len() ==> final(self).vertices_seq()[j]
                        == old(self).vertices_seq()[j]
                &&& final(self).vertices_seq().last().name@ == key@
                &&& final(self).vertices_seq().last().attribute@ == attribute@
                &&& final(self).vertices_seq().last().index as int == old(self).vertices_seq().len()
            },
            forall|k: Seq<char>| k != key@ ==> #[trigger] final(self).has_node_spec(k) == old(self).has_node_spec(k),
    {
        if let Some(i) = self.find_vertex(key) {
            let r = self.vertices[i].name.clone();
            return r;
        }
        let mut vertex = crate::vertex::Vertex::new(
            Some(key.to_owned()),
            Some(attribute.to_owned()),
        );
        let v = Vertex {
            guid: vertex.guid,
            name: vertex.name,
            attribute: vertex.attribute,
            index: self.vertices.len() as i32,
        };
        self.vertices.push(v);
        self.vertex_count = self.vertices.len() as i32;
        proof {
            let n = old(self).vertices_seq().len() as int;
            assert(self.vertices_seq()[n].name@ == key@);
            assert(self.has_node_spec(key@));
            assert forall|k: Seq<char>| k != key@ implies #[trigger] self.has_node_spec(k) == old(self).has_node_spec(k) by {
                if old(self).has_node_spec(k) {
                    let i = choose|i: int|
                        0 <= i < old(self).vertices_seq().len() && (#[trigger] old(self).vertices_seq()[i]).name@ == k;
                    assert(self.vertices_seq()[i].name@ == k);
                }
                if self.has_node_spec(k) {
                    let i = choose|i: int|
                        0 <= i < self.vertices_seq().len() && (#[trigger] self.vertices_seq()[i]).name@
                            == k;
                    assert(i < n);
                }
            }
        }
        key.to_owned()
    }

    /// Adds an edge between `u` and `v`, creating either vertex as needed;
    /// an existing edge is left untouched.
    #[verifier::rlimit(100)]
    pub fn add_edge(&mut self, u: &str, v: &str, attribute: &str) -> (r: (String, String))
        requires
            old(self).wf(),
            old(self).vertices_seq().len() + 2 <= i32::MAX,
            old(self).edges_seq().len() < i32::MAX,
        ensures
            final(self).wf(),
            final(self).guid == old(self).guid,
            final(self).name == old(self).name,
            r.0@ == u@,
            r.1@ == v@,
            final(self).has_node_spec(u@),
            final(self).has_node_spec(v@),
            final(self).has_edge_spec(u@, v@),
            forall|j: int|
                0 <= j < old(self).vertices_seq().len() ==> final(self).vertices_seq()[j] == old(
                    self,
                ).vertices_seq()[j],
            final(self).vertices_seq().len() == old(self).vertices_seq().len() + (
            if old(self).has_node_spec(u@) {
                0int
            } else {
                1int
            }) + (
            if old(self).has_node_spec(v@) || v@ == u@ {
                0int
            } else {
                1int
            }),
            !old(self).has_node_spec(u@) ==> {
                let p = old(self).vertices_seq().len() as int;
                &&& final(self).vertices_seq()[p].name@ == u@
                &&& final(self).vertices_seq()[p].attribute@ == Seq::<char>::empty()
                &&& final(self).vertices_seq()[p].index as int == p
            },
            !(old(self).has_node_spec(v@) || v@ == u@) ==> {
                let p = old(self).vertices_seq().len() + (
                if old(self).has_node_spec(u@) {
                    0int
                } else {
                    1int
                });
                &&& final(self).vertices_seq()[p].name@ == v@
                &&& final(self).vertices_seq()[p].attribute@ == Seq::<char>::empty()
                &&& final(self).vertices_seq()[p].index as int == p
            },
            old(self).has_edge_spec(u@, v@) ==> final(self).edges_seq() == old(self).edges_seq(),
            !old(self).has_edge_spec(u@, v@) ==> {
                &&& final(self).edges_seq().len() == old(self).edges_seq().len() + 1
                &&& forall|j: int|
                    0 <= j < old(self).edges_seq().len() ==> final(self).edges_seq()[j] == old(self).edges_seq()[j]
                &&& final(self).edges_seq().last().v0@ == u@
                &&& final(self).edges_seq().last().v1@ == v@
                &&& final(self).edges_seq().last().attribute@ == attribute@
                &&& final(self).edges_seq().last().index as int == old(self).edges_seq().len()
            },
            forall|a: Seq<char>, b: Seq<char>|
                !(a == u@ && b == v@) && !(a == v@ && b == u@)
                    ==> #[trigger] final(self).has_edge_spec(a, b)
                    == old(self).has_edge_spec(a, b),
    {
        proof {
            reveal_strlit("");
        }
        if !self.has_node(u) {
            self.add_node(u, "");
        }
        let ghost s1 = *self;
        if !self.has_node(v) {
            self.add_node(v, "");
        }
        proof {
            assert(""@ =~= Seq::<char>::empty());
            assert(s1.has_node_spec(u@));
            if v@ == u@ {
                assert(s1.has_node_spec(v@));
            } else {
                assert(s1.has_node_spec(v@) == old(self).has_node_spec(v@));
            }
            if !(old(self).has_node_spec(v@) || v@ == u@) {
                assert(!s1.has_node_spec(v@));
                assert(self.vertices_seq().len() == s1.vertices_seq().len() + 1);
                assert(self.vertices_seq().last().name@ == v@);
            } else {
                assert(self.vertices_seq() == s1.vertices_seq());
            }
            assert(forall|j: int|
                0 <= j < old(self).vertices_seq().len() ==> self.vertices_seq()[j] == old(
                    self,
                ).vertices_seq()[j]);
            if !old(self).has_node_spec(u@) {
                let p = old(self).vertices_seq().len() as int;
                assert(s1.vertices_seq()[p] == s1.vertices_seq().last());
                assert(self.vertices_seq()[p] == s1.vertices_seq()[p]);
                assert(self.vertices_seq()[p].name@ == u@);
                assert(self.vertices_seq()[p].attribute@ == Seq::<char>::empty());
                assert(self.vertices_seq()[p].index as int == p);
            }
            if !(old(self).has_node_spec(v@) || v@ == u@) {
                let p = s1.vertices_seq().len() as int;
                assert(self.vertices_seq()[p] == self.vertices_seq().last());
                assert(self.vertices_seq()[p].name@ == v@);
                assert(self.vertices_seq()[p].attribute@ == Seq::<char>::empty());
                assert(self.vertices_seq()[p].index as int == p);
            }
            if v@ == u@ {
                assert(self.has_node_spec(u@));
            } else {
                assert(self.has_node_spec(u@) == s1.has_node_spec(u@));
            }
            assert(self.has_node_spec(u@));
            assert(self.has_node_spec(v@));
        }
        let ghost s2 = *self;
        if self.has_edge((u, v)) {
            return (u.to_owned(), v.to_owned());
        }
        let edge = crate::edge::Edge::new(
            Some("my_edge".to_owned()),
            Some(u.to_owned()),
            Some(v.to_owned()),
            Some(attribute.to_owned()),
        );
        let e = Edge {
            guid: edge.guid,
            name: edge.name,
            v0: edge.v0,
            v1: edge.v1,
            attribute: edge.attribute,
            index: self.edge_count,
        };
        self.edges.push(e);
        self.edge_count = self.edges.len() as i32;
        proof {
            assert(self.vertices_seq() == s2.vertices_seq());
            let iu = choose|i: int|
                0 <= i < s2.vertices_seq().len() && (#[trigger] s2.vertices_seq()[i]).name@ == u@;
            assert(self.vertices_seq()[iu].name@ == u@);
            assert(self.has_node_spec(u@));
            let iv = choose|i: int|
                0 <= i < s2.vertices_seq().len() && (#[trigger] s2.vertices_seq()[i]).name@ == v@;
            assert(self.vertices_seq()[iv].name@ == v@);
            assert(self.has_node_spec(v@));
            let pre = old(self).edges_seq();
            let n = pre.len() as int;
            assert(edge_joins(self.edges_seq()[n], u@, v@));
            assert(self.has_edge_spec(u@, v@));
            assert forall|a: Seq<char>, b: Seq<char>|
                !(a == u@ && b == v@) && !(a == v@ && b == u@) implies #[trigger] self.has_edge_spec(
                a,
                b,
            ) == old(self).has_edge_spec(a, b) by {
                if old(self).has_edge_spec(a, b) {
                    let i = choose|i: int|
                        0 <= i < pre.len() && edge_joins(#[trigger] pre[i], a, b);
                    assert(edge_joins(self.edges_seq()[i], a, b));
                }
                if self.has_edge_spec(a, b) {
                    let i = choose|i: int|
                        0 <= i < self.edges_seq().len() && edge_joins(
                            #[trigger] self.edges_seq()[i],
                            a,
                            b,
                        );
                    assert(i < n);
                }
            }
        }
        (u.to_owned(), v.to_owned())
    }

    /// Gets the number of vertices in the graph.
    pub fn number_of_vertices(&self) -> (r: usize)
        ensures
            r == self.vertices_seq().len(),
    {
        self.vertices.len()
    }

    /// Gets the number of distinct undirected edges in the graph.
    pub fn number_of_edges(&self) -> (r: usize)
        ensures
            r == self.edges_seq().len(),
    {
        self.edges.len()
    }

    /// Gets all vertices in the graph, in insertion order.
    pub fn get_vertices(&self) -> (r: Vec<Vertex>)
        ensures
            r@ == self.vertices_seq(),
    {
        let n = self.vertices.len();
        let mut out: Vec<Vertex> = Vec::new();
        let mut i: usize = 0;
        while i < n
            invariant
                i <= n,
                n == self.vertices_seq().len(),
                out@ == self.vertices_seq().take(i as int),
            decreases n - i,
        {
            let v = &self.vertices[i];
            out.push(
                Vertex {
                    guid: v.guid.clone(),
                    name: v.name.clone(),
                    attribute: v.attribute.clone(),
                    index: v.index,
                },
            );
            proof {
                assert(out@.last() == self.vertices_seq()[i as int]);
                assert(out@ =~= self.vertices_seq().take(i + 1));
            }
            i = i + 1;
        }
        proof {
            assert(out@ =~= self.vertices_seq());
        }
        out
    }

    /// Gets all edges in the graph as tuples of vertex names, in insertion
    /// order, each edge once in its stored orientation.
    pub fn get_edges(&self) -> (r: Vec<(String, String)>)
        ensures
            r@.len() == self.edges_seq().len(),
            forall|i: int|
                0 <= i < r@.len() ==> (#[trigger] r@[i]).0@ == self.edges_seq()[i].v0@ && r@[i].1@
                    == self.edges_seq()[i].v1@,
    {
        let n = self.edges.len();
        let mut out: Vec<(String, String)> = Vec::new();
        let mut i: usize = 0;
        while i < n
            invariant
                i <= n,
                n == self.edges_seq().len(),
                out@.len() == i,
                forall|j: int|
                    0 <= j < i ==> (#[trigger] out@[j]).0@ == self.edges_seq()[j].v0@ && out@[j].1@
                        == self.edges_seq()[j].v1@,
            decreases n - i,
        {
            let e = &self.edges[i];
            out.push((e.v0.clone(), e.v1.clone()));
            i = i + 1;
        }
        out
    }

    /// The neighbor keys of `node`, one per incident edge, in edge insertion
    /// order.
    pub fn neighbors(&self, node: &str) -> (r: Vec<String>)
        ensures
            r@.map_values(|s: String| s@) == neighbor_keys(self.edges_seq(), node@),
    {
        let n = self.edges.len();
        let mut out: Vec<String> = Vec::new();
        let mut i: usize = 0;
        while i < n
            invariant
                i <= n,
                n == self.edges_seq().len(),
                out@.map_values(|s: String| s@) == neighbor_keys(
                    self.edges_seq().take(i as int),
                    node@,
                ),
            decreases n - i,
        {
            let e = &self.edges[i];
            let ghost prefix = self.edges_seq().take(i as int);
            let ghost prefix1 = self.edges_seq().take(i + 1);
            proof {
                assert(prefix1.drop_last() =~= prefix);
                assert(prefix1.last() == self.edges_seq()[i as int]);
            }
            if str_eq(e.v0.as_str(), node) || str_eq(e.v1.as_str(), node) {
                let other = if str_eq(e.v0.as_str(), node) {
                    e.v1.clone()
                } else {
                    e.v0.clone()
                };
                out.push(other);
                proof {
                    assert(out@.map_values(|s: String| s@) =~= neighbor_keys(prefix1, node@));
                }
            } else {
                proof {
                    assert(out@.map_values(|s: String| s@) =~= neighbor_keys(prefix1, node@));
                }
            }
            i = i + 1;
        }
        proof {
            assert(self.edges_seq().take(n as int) =~= self.edges_seq());
        }
        out
    }

    /// Gets all neighbors of a node (API compatibility method).
    pub fn get_neighbors(&self, node: &str) -> (r: Vec<String>)
        ensures
            r@.map_values(|s: String| s@) == neighbor_keys(self.edges_seq(), node@),
    {
        self.neighbors(node)
    }

    /// Removes a node and all its incident edges from the graph.
    pub fn remove_node(&mut self, key: &str)
        requires
            old(self).wf(),
        ensures
            final(self).wf(),
            final(self).guid == old(self).guid,
            final(self).name == old(self).name,
            !final(self).has_node_spec(key@),
            !old(self).has_node_spec(key@) ==> final(self).vertices_seq() == old(self).vertices_seq() && final(self).edges_seq() == old(self).edges_seq(),
            old(self).has_node_spec(key@) ==> {
                &&& exists|i: int|
                    {
                        &&& 0 <= i < old(self).vertices_seq().len()
                        &&& (#[trigger] old(self).vertices_seq()[i]).name@ == key@
                        &&& final(self).vertices_seq() == old(self).vertices_seq().remove(i)
                    }
                &&& final(self).edges_seq() == edges_avoiding(old(self).edges_seq(), key@)
            },
    {
        let found = self.find_vertex(key);
        if let Some(i) = found {
            self.vertices.remove(i);
            proof {
                assert forall|a: int, b: int|
                    0 <= a < b < self.vertices_seq().len() implies (
                #[trigger] self.vertices_seq()[a]).name@ != (
                #[trigger] self.vertices_seq()[b]).name@ by {
                    let oa = if a < i as int { a } else { a + 1 };
                    let ob = if b < i as int { b } else { b + 1 };
                    assert(self.vertices_seq()[a] == old(self).vertices_seq()[oa]);
                    assert(self.vertices_seq()[b] == old(self).vertices_seq()[ob]);
                }
                assert forall|j: int|
                    0 <= j < self.vertices_seq().len() implies (
                #[trigger] self.vertices_seq()[j]).name@ != key@ by {
                    let oj = if j < i as int { j } else { j + 1 };
                    assert(self.vertices_seq()[j] == old(self).vertices_seq()[oj]);
                }
            }
            let n = self.edges.len();
            let mut kept: Vec<Edge> = Vec::new();
            let mut j: usize = 0;
            while j < n
                invariant
                    j <= n,
                    n == self.edges@.len(),
                    self.edges@ == old(self).edges_seq(),
                    kept@ == edges_avoiding(self.edges@.take(j as int), key@),
                decreases n - j,
            {
                let e = &self.edges[j];
                let ghost prefix = self.edges@.take(j as int);
                let ghost prefix1 = self.edges@.take(j + 1);
                proof {
                    assert(prefix1.drop_last() =~= prefix);
                    assert(prefix1.last() == self.edges@[j as int]);
                }
                if !(str_eq(e.v0.as_str(), key) || str_eq(e.v1.as_str(), key)) {
                    let c = Edge {
                        guid: e.guid.clone(),
                        name: e.name.clone(),
                        v0: e.v0.clone(),
                        v1: e.v1.clone(),
                        attribute: e.attribute.clone(),
                        index: e.index,
                    };
                    proof {
                        assert(c == self.edges@[j as int]);
                    }
                    kept.push(c);
                    proof {
                        assert(kept@ =~= edges_avoiding(prefix1, key@));
                    }
                } else {
                    proof {
                        assert(kept@ =~= edges_avoiding(prefix1, key@));
                    }
                }
                j = j + 1;
            }
            proof {
                assert(self.edges@.take(n as int) =~= self.edges@);
                lemma_edges_avoiding_sub(old(self).edges_seq(), key@);
            }
            self.edges = kept;
            self.vertex_count = self.vertices.len() as i32;
            self.edge_count = self.edges.len() as i32;
        }
    }

    /// Removes the edge joining the unordered pair from the graph, if present.
    pub fn remove_edge(&mut self, edge: (&str, &str))
        requires
            old(self).wf(),
        ensures
            final(self).wf(),
            final(self).guid == old(self).guid,
            final(self).name == old(self).name,
            !final(self).has_edge_spec(edge.0@, edge.1@),
            final(self).vertices_seq() == old(self).vertices_seq(),
            !old(self).has_edge_spec(edge.0@, edge.1@) ==> final(self).edges_seq() == old(self).edges_seq(),
            old(self).has_edge_spec(edge.0@, edge.1@) ==> exists|i: int|
                {
                    &&& 0 <= i < old(self).edges_seq().len()
                    &&& edge_joins(#[trigger] old(self).edges_seq()[i], edge.0@, edge.1@)
                    &&& final(self).edges_seq() == old(self).edges_seq().remove(i)
                },
    {
        let (u, v) = edge;
        let found = self.find_edge(u, v);
        if let Some(i) = found {
            self.edges.remove(i);
            self.edge_count = self.edges.len() as i32;
            proof {
                assert forall|a: int, b: int|
                    0 <= a < b < self.edges_seq().len() implies !edge_joins(
                    #[trigger] self.edges_seq()[a],
                    (#[trigger] self.edges_seq()[b]).v0@,
                    self.edges_seq()[b].v1@,
                ) by {
                    let oa = if a < i as int { a } else { a + 1 };
                    let ob = if b < i as int { b } else { b + 1 };
                    assert(self.edges_seq()[a] == old(self).edges_seq()[oa]);
                    assert(self.edges_seq()[b] == old(self).edges_seq()[ob]);
                }
                assert forall|j: int|
                    0 <= j < self.edges_seq().len() implies !edge_joins(
                    #[trigger] self.edges_seq()[j],
                    u@,
                    v@,
                ) by {
                    let oj = if j < i as int { j } else { j + 1 };
                    assert(self.edges_seq()[j] == old(self).edges_seq()[oj]);
                    if edge_joins(old(self).edges_seq()[oj], u@, v@) {
                        if oj < i as int {
                            assert(!edge_joins(
                                old(self).edges_seq()[oj],
                                old(self).edges_seq()[i as int].v0@,
                                old(self).edges_seq()[i as int].v1@,
                            ));
                        } else {
                            assert(!edge_joins(
                                old(self).edges_seq()[i as int],
                                old(self).edges_seq()[oj].v0@,
                                old(self).edges_seq()[oj].v1@,
                            ));
                        }
                    }
                }
            }
        }
    }

    /// Removes all vertices and edges from the graph.
    pub fn clear(&mut self)
        ensures
            final(self).wf(),
            final(self).vertices_seq().len() == 0,
            final(self).edges_seq().len() == 0,
            final(self).guid == old(self).guid,
            final(self).name == old(self).name,
    {
        self.vertices.clear();
        self.edges.clear();
        self.vertex_count = 0;
        self.edge_count = 0;
    }

    /// Get (with `None`) or set (with `Some`) the attribute of a node;
    /// returns `None` when the node does not exist.
    pub fn node_attribute(&mut self, node: &str, value: Option<&str>) -> (r: Option<String>)
        requires
            old(self).wf(),
        ensures
            final(self).wf(),
            final(self).guid == old(self).guid,
            final(self).name == old(self).name,
            final(self).edges_seq() == old(self).edges_seq(),
            !old(self).has_node_spec(node@) ==> r is None && final(self).vertices_seq() == old(self).vertices_seq(),
            old(self).has_node_spec(node@) ==> match value {
                Some(val) => (r matches Some(s) && s@ == val@) && exists|i: int|
                    {
                        &&& 0 <= i < old(self).vertices_seq().len()
                        &&& (#[trigger] old(self).vertices_seq()[i]).name@ == node@
                        &&& final(self).vertices_seq().len() == old(self).vertices_seq().len()
                        &&& final(self).vertices_seq()[i].name@ == node@
                        &&& final(self).vertices_seq()[i].attribute@ == val@
                        &&& forall|j: int|
                            0 <= j < old(self).vertices_seq().len() && j != i ==> final(self).vertices_seq()[j] == old(self).vertices_seq()[j]
                    },
                None => final(self).vertices_seq() == old(self).vertices_seq() && exists|i: int|
                    {
                        &&& 0 <= i < old(self).vertices_seq().len()
                        &&& (#[trigger] old(self).vertices_seq()[i]).name@ == node@
                        &&& (r matches Some(s) && s@ == old(self).vertices_seq()[i].attribute@)
                    },
            },
    {
        let found = self.find_vertex(node);
        match found {
            None => None,
            Some(i) => {
                match value {
                    Some(val) => {
                        let s = val.to_owned();
                        let v = &self.vertices[i];
                        let updated = Vertex {
                            guid: v.guid.clone(),
                            name: v.name.clone(),
                            attribute: s,
                            index: v.index,
                        };
                        self.vertices.set(i, updated);
                        proof {
                            assert forall|a: int, b: int|
                                0 <= a < b < self.vertices_seq().len() implies (
                            #[trigger] self.vertices_seq()[a]).name@ != (
                            #[trigger] self.vertices_seq()[b]).name@ by {
                                assert(self.vertices_seq()[a].name@ == old(self).vertices_seq()[a].name@);
                                assert(self.vertices_seq()[b].name@ == old(self).vertices_seq()[b].name@);
                            }
                        }
                        Some(val.to_owned())
                    },
                    None => Some(self.vertices[i].attribute.clone()),
                }
            },
        }
    }

    /// Get (with `None`) or set (with `Some`) the attribute of the edge
    /// joining the unordered pair; returns `None` when no such edge exists.
    pub fn edge_attribute(&mut self, u: &str, v: &str, value: Option<&str>) -> (r: Option<String>)
        requires
            old(self).wf(),
        ensures
            final(self).wf(),
            final(self).guid == old(self).guid,
            final(self).name == old(self).name,
            final(self).vertices_seq() == old(self).vertices_seq(),
            !old(self).has_edge_spec(u@, v@) ==> r is None && final(self).edges_seq() == old(self).edges_seq(),
            old(self).has_edge_spec(u@, v@) ==> match value {
                Some(val) => (r matches Some(s) && s@ == val@) && exists|i: int|
                    {
                        &&& 0 <= i < old(self).edges_seq().len()
                        &&& edge_joins(#[trigger] old(self).edges_seq()[i], u@, v@)
                        &&& final(self).edges_seq().len() == old(self).edges_seq().len()
                        &&& edge_joins(final(self).edges_seq()[i], u@, v@)
                        &&& final(self).edges_seq()[i].attribute@ == val@
                        &&& forall|j: int|
                            0 <= j < old(self).edges_seq().len() && j != i ==> final(self).edges_seq()[j] == old(self).edges_seq()[j]
                    },
                None => final(self).edges_seq() == old(self).edges_seq() && exists|i: int|
                    {
                        &&& 0 <= i < old(self).edges_seq().len()
                        &&& edge_joins(#[trigger] old(self).edges_seq()[i], u@, v@)
                        &&& (r matches Some(s) && s@ == old(self).edges_seq()[i].attribute@)
                    },
            },
    {
        let found = self.find_edge(u, v);
        match found {
            None => None,
            Some(i) => {
                match value {
                    Some(val) => {
                        let s = val.to_owned();
                        let e = &self.edges[i];
                        let updated = Edge {
                            guid: e.guid.clone(),
                            name: e.name.clone(),
                            v0: e.v0.clone(),
                            v1: e.v1.clone(),
                            attribute: s,
                            index: e.index,
                        };
                        self.edges.set(i, updated);
                        proof {
                            assert(edge_joins(self.edges_seq()[i as int], u@, v@));
                            assert forall|a: int, b: int|
                                0 <= a < b < self.edges_seq().len() implies !edge_joins(
                                #[trigger] self.edges_seq()[a],
                                (#[trigger] self.edges_seq()[b]).v0@,
                                self.edges_seq()[b].v1@,
                            ) by {
                                assert(edge_joins(
                                    self.edges_seq()[a],
                                    self.edges_seq()[b].v0@,
                                    self.edges_seq()[b].v1@,
                                ) == edge_joins(
                                    old(self).edges_seq()[a],
                                    old(self).edges_seq()[b].v0@,
                                    old(self).edges_seq()[b].v1@,
                                ));
                            }
                        }
                        Some(val.to_owned())
                    },
                    None => Some(self.edges[i].attribute.clone()),
                }
            },
        }
    }
}

/// The keys reachable from `node` over the given edges: for every edge
/// incident to `node`, its other endpoint (the first endpoint for an edge
/// whose second endpoint alone is `node`).
pub open spec fn neighbor_keys(edges: Seq<Edge>, node: Seq<char>) -> Seq<Seq<char>>
    decreases edges.len(),
{
    if edges.len() == 0 {
        Seq::empty()
    } else {
        let rest = neighbor_keys(edges.drop_last(), node);
        let e = edges.last();
        if e.v0@ == node {
            rest.push(e.v1@)
        } else if e.v1@ == node {
            rest.push(e.v0@)
        } else {
            rest
        }
    }
}

/// The given edges with every edge incident to `key` removed.
pub open spec fn edges_avoiding(edges: Seq<Edge>, key: Seq<char>) -> Seq<Edge>
    decreases edges.len(),
{
    if edges.len() == 0 {
        Seq::empty()
    } else {
        let rest = edges_avoiding(edges.drop_last(), key);
        let e = edges.last();
        if e.v0@ == key || e.v1@ == key {
            rest
        } else {
            rest.push(e)
        }
    }
}

/// Removing the edges that touch `key` keeps every kept edge away from
/// `key`, keeps at most as many edges, and keeps distinct unordered pairs
/// distinct.
proof fn lemma_edges_avoiding_sub(edges: Seq<Edge>, key: Seq<char>)
    requires
        forall|i: int, j: int|
            0 <= i < j < edges.len() ==> !edge_joins(
                #[trigger] edges[i],
                (#[trigger] edges[j]).v0@,
                edges[j].v1@,
            ),
    ensures
        forall|i: int|
            0 <= i < edges_avoiding(edges, key).len() ==> (#[trigger] edges_avoiding(
                edges,
                key,
            )[i]).v0@ != key && edges_avoiding(edges, key)[i].v1@ != key,
        forall|i: int, j: int|
            0 <= i < j < edges_avoiding(edges, key).len() ==> !edge_joins(
                #[trigger] edges_avoiding(edges, key)[i],
                (#[trigger] edges_avoiding(edges, key)[j]).v0@,
                edges_avoiding(edges, key)[j].v1@,
            ),
        edges_avoiding(edges, key).len() <= edges.len(),
    decreases edges.len(),
{
    if edges.len() > 0 {
        let prev = edges.drop_last();
        assert(forall|a: int| 0 <= a < prev.len() ==> prev[a] == edges[a]);
        lemma_edges_avoiding_sub(prev, key);
        let rest = edges_avoiding(prev, key);
        let whole = edges_avoiding(edges, key);
        let e = edges.last();
        assert forall|i: int, j: int|
            0 <= i < j < whole.len() implies !edge_joins(
            #[trigger] whole[i],
            (#[trigger] whole[j]).v0@,
            whole[j].v1@,
        ) by {
            if j < rest.len() {
                assert(whole[i] == rest[i] && whole[j] == rest[j]);
            } else {
                // j names the appended last edge; i lies in rest.
                let a0 = lemma_avoiding_member(prev, key, i);
                assert(whole[i] == rest[i]);
                assert(whole[j] == e);
                assert(edges[a0] == whole[i]);
                assert(!edge_joins(edges[a0], edges[edges.len() - 1].v0@, edges[
                    edges.len() - 1
                ].v1@));
            }
        }
    }
}

/// Every element of `edges_avoiding` comes from a position of the original
/// sequence, in order; returns such a position for index `i`.
proof fn lemma_avoiding_member(edges: Seq<Edge>, key: Seq<char>, i: int) -> (a: int)
    requires
        0 <= i < edges_avoiding(edges, key).len(),
    ensures
        0 <= a < edges.len(),
        edges[a] == edges_avoiding(edges, key)[i],
    decreases edges.len(),
{
    let rest = edges_avoiding(edges.drop_last(), key);
    if i < rest.len() {
        let a = lemma_avoiding_member(edges.drop_last(), key, i);
        a
    } else {
        edges.len() - 1
    }
}

} // verus!
