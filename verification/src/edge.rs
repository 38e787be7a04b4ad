//! A standalone graph edge record.

use vstd::prelude::*;

use crate::text::str_eq;

verus! {

/// A graph edge between two vertices named by their keys.
#[derive(Debug, Clone)]
pub struct Edge {
    /// The unique identifier of the edge.
    pub guid: String,
    /// The name of the edge.
    pub name: String,
    /// The first vertex of the edge.
    pub v0: String,
    /// The second vertex of the edge.
    pub v1: String,
    /// Edge attribute data as string.
    pub attribute: String,
    /// Integer index for the edge; -1 when unset.
    pub index: i32,
}

impl Edge {
    /// Initialize a new edge; every missing field becomes empty.
    pub fn new(
        name: Option<String>,
        v0: Option<String>,
        v1: Option<String>,
        attribute: Option<String>,
    ) -> (e: Edge)
        ensures
            match name {
                Some(n) => e.name@ == n@,
                None => e.name@ == Seq::<char>::empty(),
            },
            match v0 {
                Some(s) => e.v0@ == s@,
                None => e.v0@ == Seq::<char>::empty(),
            },
            match v1 {
                Some(s) => e.v1@ == s@,
                None => e.v1@ == Seq::<char>::empty(),
            },
            match attribute {
                Some(a) => e.attribute@ == a@,
                None => e.attribute@ == Seq::<char>::empty(),
            },
            e.index == -1,
            e.guid@.len() == 36,
    {
        let n = match name {
            Some(n) => n,
            None => String::new(),
        };
        let a = match v0 {
            Some(s) => s,
            None => String::new(),
        };
        let b = match v1 {
            Some(s) => s,
            None => String::new(),
        };
        let t = match attribute {
            Some(a) => a,
            None => String::new(),
        };
        Edge { guid: crate::guid::new_guid(), name: n, v0: a, v1: b, attribute: t, index: -1 }
    }

    /// Get the edge vertices as a tuple.
    pub fn vertices(&self) -> (r: (String, String))
        ensures
            r.0@ == self.v0@,
            r.1@ == self.v1@,
    {
        (self.v0.clone(), self.v1.clone())
    }

    /// Check if this edge connects to a given vertex.
    pub fn connects(&self, vertex_id: &str) -> (r: bool)
        ensures
            r == (self.v0@ == vertex_id@ || self.v1@ == vertex_id@),
    {
        str_eq(self.v0.as_str(), vertex_id) || str_eq(self.v1.as_str(), vertex_id)
    }

    /// Get the other vertex of the edge: the second vertex when the given key
    /// names the first, otherwise the first vertex.
    pub fn other_vertex(&self, vertex_id: &str) -> (r: String)
        ensures
            self.v0@ == vertex_id@ ==> r@ == self.v1@,
            self.v0@ != vertex_id@ ==> r@ == self.v0@,
    {
        if str_eq(self.v0.as_str(), vertex_id) {
            self.v1.clone()
        } else {
            self.v0.clone()
        }
    }
}

} // verus!
