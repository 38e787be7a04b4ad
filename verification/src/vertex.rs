//! A standalone graph vertex record.

use vstd::prelude::*;

verus! {

/// A graph vertex with a unique identifier and attribute string.
#[derive(Debug, Clone)]
pub struct Vertex {
    /// The unique identifier of the vertex.
    pub guid: String,
    /// The name of the vertex.
    pub name: String,
    /// Vertex attribute data as string.
    pub attribute: String,
    /// Integer index for the vertex, set by the owning graph; -1 when unset.
    pub index: i32,
}

impl Vertex {
    /// Initialize a new vertex; a missing name or attribute becomes empty.
    pub fn new(name: Option<String>, attribute: Option<String>) -> (v: Vertex)
        ensures
            match name {
                Some(n) => v.name@ == n@,
                None => v.name@ == Seq::<char>::empty(),
            },
            match attribute {
                Some(a) => v.attribute@ == a@,
                None => v.attribute@ == Seq::<char>::empty(),
            },
            v.index == -1,
            v.guid@.len() == 36,
    {
        let n = match name {
            Some(n) => n,
            None => String::new(),
        };
        let a = match attribute {
            Some(a) => a,
            None => String::new(),
        };
        Vertex { guid: crate::guid::new_guid(), name: n, attribute: a, index: -1 }
    }
}

} // verus!
