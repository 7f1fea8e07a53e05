use vstd::prelude::*;

use crate::paths::{Path, Segment, segments};

verus! {

/// Mathematical model of an indexed node.  `parent` is the position of the
/// nearest enclosing node in the index, `path` the key path from the
/// document root and `route` the positions taken among children along it.
pub struct NodeView {
    pub id: Seq<char>,
    pub node_type: Seq<char>,
    pub parent: Option<int>,
    pub path: Seq<Segment>,
    pub route: Seq<int>,
}

/// A point of the document that carries both an `id` and a `type`.
pub struct Node {
    id: String,
    node_type: String,
    parent: Option<usize>,
    path: Vec<Path>,
    route: Vec<usize>,
}

pub open spec fn opt_int(p: Option<usize>) -> Option<int> {
    match p {
        Some(k) => Some(k as int),
        None => None,
    }
}

pub open spec fn route_model(route: Seq<usize>) -> Seq<int> {
    route.map_values(|x: usize| x as int)
}

impl View for Node {
    type V = NodeView;

    closed spec fn view(&self) -> NodeView {
        NodeView {
            id: self.id@,
            node_type: self.node_type@,
            parent: opt_int(self.parent),
            path: segments(self.path@),
            route: route_model(self.route@),
        }
    }
}

impl Node {
    pub fn new(
        id: String,
        node_type: String,
        parent: Option<usize>,
        path: Vec<Path>,
        route: Vec<usize>,
    ) -> (r: Node)
        ensures
            r@ == (NodeView {
                id: id@,
                node_type: node_type@,
                parent: opt_int(parent),
                path: segments(path@),
                route: route_model(route@),
            }),
    {
        Node { id, node_type, parent, path, route }
    }

    /// The key path from the document root to this node.
    pub fn get_path(&self) -> (r: &Vec<Path>)
        ensures
            segments(r@) == self@.path,
    {
        &self.path
    }

    /// The positions taken among children from the document root to this
    /// node.
    pub fn get_route(&self) -> (r: &Vec<usize>)
        ensures
            route_model(r@) == self@.route,
    {
        &self.route
    }

    pub fn get_id(&self) -> (r: &str)
        ensures
            r@ == self@.id,
    {
        self.id.as_str()
    }

    pub fn get_type(&self) -> (r: &str)
        ensures
            r@ == self@.node_type,
    {
        self.node_type.as_str()
    }

    /// Position in the index of the nearest enclosing node.
    pub fn get_parent(&self) -> (r: Option<usize>)
        ensures
            opt_int(r) == self@.parent,
    {
        self.parent
    }

    pub(crate) fn id_ref(&self) -> (r: &String)
        ensures
            r@ == self@.id,
    {
        &self.id
    }
}

} // verus!
