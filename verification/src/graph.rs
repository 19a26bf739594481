//! The graph data provider: vertices, directed edges, and the lookups the
//! search engine needs (title to id, id to title, neighbors of a node).
//!
//! The whole graph is held as two vectors.  Well-formedness (`Graph::wf`)
//! asks that ids are unique, titles are unique and non-empty, and every edge
//! joins two existing vertices; the constructors below refuse anything that
//! would break it.

use vstd::prelude::*;

use crate::error::SearchError;

verus! {

/// One article: a stable numeric identifier and a human-readable title.
pub struct Vertex {
    pub id: u32,
    pub title: String,
}

/// One directed hyperlink from a source article to a destination article.
pub struct Edge {
    pub source_vertex_id: u32,
    pub dest_vertex_id: u32,
}

/// Direction of neighbor enumeration: `Forward` follows edges out of a node,
/// `Reverse` follows edges into it.
#[derive(Clone, Copy, PartialEq, Eq, Structural)]
pub enum Direction {
    Forward,
    Reverse,
}

/// A directed graph of titled vertices.
pub struct Graph {
    pub vertices: Vec<Vertex>,
    pub edges: Vec<Edge>,
}

impl Graph {
    /// A vertex with this id exists.
    pub open spec fn has_vertex(self, id: u32) -> bool {
        exists|i: int| 0 <= i < self.vertices@.len() && (#[trigger] self.vertices@[i]).id == id
    }

    /// A vertex with this title exists.
    pub open spec fn has_title(self, title: Seq<char>) -> bool {
        exists|i: int|
            0 <= i < self.vertices@.len() && (#[trigger] self.vertices@[i]).title@ == title
    }

    /// The vertex with this id carries this title.
    pub open spec fn titled(self, id: u32, title: Seq<char>) -> bool {
        exists|i: int|
            0 <= i < self.vertices@.len() && (#[trigger] self.vertices@[i]).id == id
                && self.vertices@[i].title@ == title
    }

    /// An edge from `a` to `b` exists.
    pub open spec fn has_edge(self, a: u32, b: u32) -> bool {
        exists|k: int|
            0 <= k < self.edges@.len() && (#[trigger] self.edges@[k]).source_vertex_id == a
                && self.edges@[k].dest_vertex_id == b
    }

    /// Well-formedness: ids unique, titles unique and non-empty, and every
    /// edge endpoint is an existing vertex.
    pub open spec fn wf(self) -> bool {
        &&& forall|i: int, j: int|
            #![trigger self.vertices@[i].id, self.vertices@[j].id]
            0 <= i < j < self.vertices@.len() ==> self.vertices@[i].id != self.vertices@[j].id
        &&& forall|i: int, j: int|
            #![trigger self.vertices@[i].title, self.vertices@[j].title]
            0 <= i < j < self.vertices@.len() ==> self.vertices@[i].title@
                != self.vertices@[j].title@
        &&& forall|i: int|
            0 <= i < self.vertices@.len() ==> (#[trigger] self.vertices@[i]).title@.len() > 0
        &&& forall|k: int|
            0 <= k < self.edges@.len() ==> self.has_vertex(
                (#[trigger] self.edges@[k]).source_vertex_id,
            ) && self.has_vertex(self.edges@[k].dest_vertex_id)
    }

    /// The id of the vertex carrying `title` (meaningful when one exists).
    pub open spec fn title_id(self, title: Seq<char>) -> u32 {
        choose|id: u32| self.titled(id, title)
    }

    /// An empty, well-formed graph.
    pub fn new() -> (g: Graph)
        ensures
            g.wf(),
            g.vertices@.len() == 0,
            g.edges@.len() == 0,
    {
        Graph { vertices: Vec::new(), edges: Vec::new() }
    }

    /// Whether a vertex with this id is stored.
    pub fn contains_vertex(&self, id: u32) -> (b: bool)
        ensures
            b == self.has_vertex(id),
    {
        let mut i: usize = 0;
        while i < self.vertices.len()
            invariant
                i <= self.vertices@.len(),
                forall|j: int| 0 <= j < i ==> (#[trigger] self.vertices@[j]).id != id,
            decreases self.vertices@.len() - i,
        {
            if self.vertices[i].id == id {
                return true;
            }
            i = i + 1;
        }
        false
    }

    /// Add a vertex.  Refused (returning `false`, graph unchanged) when the
    /// id or the title is already stored, or the title is empty.
    pub fn add_vertex(&mut self, id: u32, title: String) -> (ok: bool)
        requires
            old(self).wf(),
        ensures
            final(self).wf(),
            ok == (!old(self).has_vertex(id) && !old(self).has_title(title@) && title@.len() > 0),
            ok ==> final(self).vertices@ == old(self).vertices@.push(Vertex { id, title }),
            !ok ==> *final(self) == *old(self),
            final(self).edges@ == old(self).edges@,
    {
        if title.as_str().is_empty() {
            return false;
        }
        let mut i: usize = 0;
        while i < self.vertices.len()
            invariant
                *self == *old(self),
                self.wf(),
                i <= self.vertices@.len(),
                forall|j: int|
                    0 <= j < i ==> (#[trigger] self.vertices@[j]).id != id
                        && self.vertices@[j].title@ != title@,
            decreases self.vertices@.len() - i,
        {
            if self.vertices[i].id == id || self.vertices[i].title == title {
                return false;
            }
            i = i + 1;
        }
        let ghost old_g = *self;
        self.vertices.push(Vertex { id, title });
        proof {
            let n = old_g.vertices@.len() as int;
            assert forall|k: int|
                0 <= k < self.edges@.len() implies self.has_vertex(
                (#[trigger] self.edges@[k]).source_vertex_id,
            ) && self.has_vertex(self.edges@[k].dest_vertex_id) by {
                let a = self.edges@[k].source_vertex_id;
                let b = self.edges@[k].dest_vertex_id;
                let ia = choose|i: int|
                    0 <= i < old_g.vertices@.len() && (#[trigger] old_g.vertices@[i]).id == a;
                let ib = choose|i: int|
                    0 <= i < old_g.vertices@.len() && (#[trigger] old_g.vertices@[i]).id == b;
                assert(self.vertices@[ia].id == a);
                assert(self.vertices@[ib].id == b);
            }
        }
        true
    }

    /// Add a directed edge.  Refused (returning `false`, graph unchanged)
    /// when either endpoint is not a stored vertex.  Parallel edges are
    /// tolerated: the search treats a repeated neighbor as a no-op.
    pub fn add_edge(&mut self, source: u32, dest: u32) -> (ok: bool)
        requires
            old(self).wf(),
        ensures
            final(self).wf(),
            ok == (old(self).has_vertex(source) && old(self).has_vertex(dest)),
            ok ==> final(self).edges@ == old(self).edges@.push(
                Edge { source_vertex_id: source, dest_vertex_id: dest },
            ),
            !ok ==> *final(self) == *old(self),
            final(self).vertices@ == old(self).vertices@,
    {
        if !self.contains_vertex(source) || !self.contains_vertex(dest) {
            return false;
        }
        let ghost old_g = *self;
        self.edges.push(Edge { source_vertex_id: source, dest_vertex_id: dest });
        proof {
            assert forall|k: int|
                0 <= k < self.edges@.len() implies self.has_vertex(
                (#[trigger] self.edges@[k]).source_vertex_id,
            ) && self.has_vertex(self.edges@[k].dest_vertex_id) by {
                let a = self.edges@[k].source_vertex_id;
                let b = self.edges@[k].dest_vertex_id;
                if k < old_g.edges@.len() {
                    assert(self.edges@[k] == old_g.edges@[k]);
                    assert(old_g.has_vertex(a) && old_g.has_vertex(b));
                } else {
                    assert(old_g.has_vertex(a) && old_g.has_vertex(b));
                }
                let ia = choose|i: int|
                    0 <= i < old_g.vertices@.len() && (#[trigger] old_g.vertices@[i]).id == a;
                let ib = choose|i: int|
                    0 <= i < old_g.vertices@.len() && (#[trigger] old_g.vertices@[i]).id == b;
                assert(self.vertices@[ia].id == a);
                assert(self.vertices@[ib].id == b);
            }
        }
        true
    }

    /// Map a title to the id of the vertex that carries it; `NotFound` when
    /// no vertex does.  Titles match exactly, character for character.
    pub fn resolve_title(&self, title: &str) -> (r: Result<u32, SearchError>)
        ensures
            r is Ok <==> self.has_title(title@),
            match r {
                Ok(id) => self.titled(id, title@),
                Err(e) => e == SearchError::NotFound,
            },
    {
        let owned: String = title.to_owned();
        let mut i: usize = 0;
        while i < self.vertices.len()
            invariant
                owned@ == title@,
                i <= self.vertices@.len(),
                forall|j: int| 0 <= j < i ==> (#[trigger] self.vertices@[j]).title@ != title@,
            decreases self.vertices@.len() - i,
        {
            if self.vertices[i].title == owned {
                return Ok(self.vertices[i].id);
            }
            i = i + 1;
        }
        Err(SearchError::NotFound)
    }

    /// Map an id back to the title of the vertex that carries it; `NotFound`
    /// when no vertex has that id.
    pub fn title_of(&self, id: u32) -> (r: Result<String, SearchError>)
        ensures
            r is Ok <==> self.has_vertex(id),
            match r {
                Ok(t) => self.titled(id, t@),
                Err(e) => e == SearchError::NotFound,
            },
    {
        let mut i: usize = 0;
        while i < self.vertices.len()
            invariant
                i <= self.vertices@.len(),
                forall|j: int| 0 <= j < i ==> (#[trigger] self.vertices@[j]).id != id,
            decreases self.vertices@.len() - i,
        {
            if self.vertices[i].id == id {
                return Ok(self.vertices[i].title.clone());
            }
            i = i + 1;
        }
        Err(SearchError::NotFound)
    }

    /// Enumerate the neighbors of `node`: the targets of edges out of it
    /// (`Forward`), or the sources of edges into it (`Reverse`).  The result
    /// holds exactly the neighbors, in no guaranteed order, possibly with
    /// repeats when parallel edges are stored.
    pub fn neighbors(&self, node: u32, dir: Direction) -> (ns: Vec<u32>)
        ensures
            forall|m: u32|
                #[trigger] ns@.contains(m) <==> if dir == Direction::Forward {
                    self.has_edge(node, m)
                } else {
                    self.has_edge(m, node)
                },
            self.wf() ==> forall|i: int| 0 <= i < ns@.len() ==> self.has_vertex(#[trigger] ns@[i]),
    {
        let mut ns: Vec<u32> = Vec::new();
        let mut k: usize = 0;
        let forward = matches!(dir, Direction::Forward);
        while k < self.edges.len()
            invariant
                forward == (dir == Direction::Forward),
                k <= self.edges@.len(),
                forward ==> forall|i: int|
                    0 <= i < ns@.len() ==> self.has_edge(node, #[trigger] ns@[i]),
                !forward ==> forall|i: int|
                    0 <= i < ns@.len() ==> self.has_edge(#[trigger] ns@[i], node),
                forall|e: int|
                    #![trigger self.edges@[e]]
                    0 <= e < k ==> {
                        if forward {
                            self.edges@[e].source_vertex_id == node ==> ns@.contains(
                                self.edges@[e].dest_vertex_id,
                            )
                        } else {
                            self.edges@[e].dest_vertex_id == node ==> ns@.contains(
                                self.edges@[e].source_vertex_id,
                            )
                        }
                    },
            decreases self.edges@.len() - k,
        {
            let hit = if forward {
                self.edges[k].source_vertex_id == node
            } else {
                self.edges[k].dest_vertex_id == node
            };
            if hit {
                let m = if forward {
                    self.edges[k].dest_vertex_id
                } else {
                    self.edges[k].source_vertex_id
                };
                let ghost old_ns = ns@;
                ns.push(m);
                proof {
                    assert(ns@ == old_ns.push(m));
                    assert forall|x: u32| old_ns.contains(x) implies ns@.contains(x) by {
                        let i = choose|i: int| 0 <= i < old_ns.len() && old_ns[i] == x;
                        assert(ns@[i] == x);
                    }
                    assert(ns@[ns@.len() - 1] == m);
                    assert(ns@.contains(m));
                }
            }
            k = k + 1;
        }
        proof {
            if forward {
                assert forall|m: u32| #[trigger] ns@.contains(m) implies self.has_edge(node, m) by {
                    let i = choose|i: int| 0 <= i < ns@.len() && ns@[i] == m;
                    assert(self.has_edge(node, ns@[i]));
                }
                assert forall|m: u32| self.has_edge(node, m) implies ns@.contains(m) by {
                    let e = choose|e: int|
                        0 <= e < self.edges@.len() && (#[trigger] self.edges@[e]).source_vertex_id
                            == node && self.edges@[e].dest_vertex_id == m;
                    assert(self.edges@[e].source_vertex_id == node);
                }
            } else {
                assert forall|m: u32| #[trigger] ns@.contains(m) implies self.has_edge(m, node) by {
                    let i = choose|i: int| 0 <= i < ns@.len() && ns@[i] == m;
                    assert(self.has_edge(ns@[i], node));
                }
                assert forall|m: u32| self.has_edge(m, node) implies ns@.contains(m) by {
                    let e = choose|e: int|
                        0 <= e < self.edges@.len() && (#[trigger] self.edges@[e]).source_vertex_id
                            == m && self.edges@[e].dest_vertex_id == node;
                    assert(self.edges@[e].dest_vertex_id == node);
                }
            }
            if self.wf() {
                assert forall|i: int| 0 <= i < ns@.len() implies self.has_vertex(
                    #[trigger] ns@[i],
                ) by {
                    assert(ns@.contains(ns@[i]));
                    if forward {
                        let e = choose|e: int|
                            0 <= e < self.edges@.len() && (#[trigger] self.edges@[e]).source_vertex_id
                                == node && self.edges@[e].dest_vertex_id == ns@[i];
                        assert(self.has_vertex(self.edges@[e].dest_vertex_id));
                    } else {
                        let e = choose|e: int|
                            0 <= e < self.edges@.len() && (#[trigger] self.edges@[e]).source_vertex_id
                                == ns@[i] && self.edges@[e].dest_vertex_id == node;
                        assert(self.has_vertex(self.edges@[e].source_vertex_id));
                    }
                }
            }
        }
        ns
    }
}

/// A stored title names one vertex: `title_id` picks it.
pub proof fn lemma_title_id(g: Graph, t: Seq<char>)
    requires
        g.has_title(t),
    ensures
        g.titled(g.title_id(t), t),
{
    let i = choose|i: int| 0 <= i < g.vertices@.len() && (#[trigger] g.vertices@[i]).title@ == t;
    assert(g.titled(g.vertices@[i].id, t));
}

/// In a well-formed graph a title belongs to at most one vertex.
pub proof fn lemma_titled_unique(g: Graph, t: Seq<char>, a: u32, b: u32)
    requires
        g.wf(),
        g.titled(a, t),
        g.titled(b, t),
    ensures
        a == b,
{
    let ia = choose|i: int|
        0 <= i < g.vertices@.len() && (#[trigger] g.vertices@[i]).id == a && g.vertices@[i].title@
            == t;
    let ib = choose|i: int|
        0 <= i < g.vertices@.len() && (#[trigger] g.vertices@[i]).id == b && g.vertices@[i].title@
            == t;
    if ia != ib {
        assert(g.vertices@[ia].title@ != g.vertices@[ib].title@);
    }
}

/// Round trip: resolving a stored title to its id and looking the title of
/// that id back up returns the original title, in any well-formed graph.
pub proof fn lemma_title_round_trip(g: Graph, t: Seq<char>, id: u32, t2: Seq<char>)
    requires
        g.wf(),
        g.titled(id, t),
        g.titled(id, t2),
    ensures
        t2 == t,
{
    let ia = choose|i: int|
        0 <= i < g.vertices@.len() && (#[trigger] g.vertices@[i]).id == id && g.vertices@[i].title@
            == t;
    let ib = choose|i: int|
        0 <= i < g.vertices@.len() && (#[trigger] g.vertices@[i]).id == id && g.vertices@[i].title@
            == t2;
    if ia != ib {
        assert(g.vertices@[ia].id != g.vertices@[ib].id);
    }
}

} // verus!
