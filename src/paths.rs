use vstd::prelude::*;

use crate::lemmas::{lemma_nodes_ok, node_ok};
use crate::node::{Node, NodeView, opt_int, route_model};
use crate::value::{RawValue, Value, items_model, property, props_model};

verus! {

/// Mathematical model of a key-path segment.
pub enum Segment {
    Name(Seq<char>),
    Index(int),
}

/// One step of a key path: a property name or an array index.
#[derive(Debug, Clone, PartialEq, Eq)]
pub enum Path {
    Text(String),
    Numeric(usize),
}

impl View for Path {
    type V = Segment;

    open spec fn view(&self) -> Segment {
        match self {
            Path::Text(s) => Segment::Name(s@),
            Path::Numeric(i) => Segment::Index(*i as int),
        }
    }
}

pub open spec fn segments(p: Seq<Path>) -> Seq<Segment> {
    p.map_values(|x: Path| x@)
}

pub open spec fn child_count(v: Value) -> int {
    match v {
        Value::Array(xs) => xs.len() as int,
        Value::Object(ps) => ps.len() as int,
        _ => 0,
    }
}

/// The `i`-th child of `v`: an array element or the value of a property.
pub open spec fn child_at(v: Value, i: int) -> Value {
    match v {
        Value::Array(xs) => xs[i],
        Value::Object(ps) => ps[i].1,
        _ => Value::Undefined,
    }
}

/// The key-path segment that leads from `v` to its `i`-th child.
pub open spec fn child_seg(v: Value, i: int) -> Segment {
    match v {
        Value::Object(ps) => Segment::Name(ps[i].0),
        _ => Segment::Index(i),
    }
}

pub open spec fn is_container(v: Value) -> bool {
    v is Array || v is Object
}

pub open spec fn id_key() -> Seq<char> {
    seq!['i', 'd']
}

pub open spec fn type_key() -> Seq<char> {
    seq!['t', 'y', 'p', 'e']
}

/// The string held by property `key` of `v`, if it is a string.
pub open spec fn text_of(v: Value, key: Seq<char>) -> Option<Seq<char>> {
    match property(v, key) {
        Some(Value::Str(s)) => Some(s),
        _ => None,
    }
}

/// `v` carries a string `id` and a string `type`.
pub open spec fn is_node(v: Value) -> bool {
    text_of(v, id_key()) is Some && text_of(v, type_key()) is Some
}

pub open spec fn node_at(v: Value, path: Seq<Segment>, route: Seq<int>, parent: Option<int>) -> NodeView {
    NodeView {
        id: text_of(v, id_key())->0,
        node_type: text_of(v, type_key())->0,
        parent,
        path,
        route,
    }
}

/// The nodes found by a depth-first walk of `v`, appended to `acc` in the
/// order they are reached: `v` itself first when it is a node, then the
/// containers among its children, in order.  `parent` is the nearest node
/// above `v`; a value that is not a node passes it on to its children.
pub open spec fn discover(
    v: Value,
    path: Seq<Segment>,
    route: Seq<int>,
    parent: Option<int>,
    acc: Seq<NodeView>,
) -> Seq<NodeView>
    decreases v, child_count(v) + 1,
{
    if is_node(v) {
        walk_children(
            v,
            0,
            path,
            route,
            Some(acc.len() as int),
            acc.push(node_at(v, path, route, parent)),
        )
    } else {
        walk_children(v, 0, path, route, parent, acc)
    }
}

/// The walk of the children of `v` from the `i`-th on.
pub open spec fn walk_children(
    v: Value,
    i: int,
    path: Seq<Segment>,
    route: Seq<int>,
    parent: Option<int>,
    acc: Seq<NodeView>,
) -> Seq<NodeView>
    decreases v, child_count(v) - i,
{
    if i < 0 || i >= child_count(v) {
        acc
    } else {
        let c = child_at(v, i);
        let next = if is_container(c) {
            discover(c, path.push(child_seg(v, i)), route.push(i), parent, acc)
        } else {
            acc
        };
        walk_children(v, i + 1, path, route, parent, next)
    }
}

/// The nodes of a document, in the order of the walk.
pub open spec fn nodes_of(doc: Value) -> Seq<NodeView> {
    discover(doc, Seq::empty(), Seq::empty(), None, Seq::empty())
}


pub open spec fn node_views(nodes: Seq<Node>) -> Seq<NodeView> {
    nodes.map_values(|n: Node| n@)
}

impl Path {
    /// A copy of this segment.
    pub fn duplicate(&self) -> (r: Path)
        ensures
            r@ == self@,
    {
        match self {
            Path::Text(s) => Path::Text(s.clone()),
            Path::Numeric(i) => Path::Numeric(*i),
        }
    }
}

fn copy_path(path: &Vec<Path>) -> (r: Vec<Path>)
    ensures
        segments(r@) == segments(path@),
{
    let mut r: Vec<Path> = Vec::new();
    let mut i: usize = 0;
    while i < path.len()
        invariant
            i <= path@.len(),
            r@.len() == i,
            forall|j: int| 0 <= j < i ==> #[trigger] r@[j]@ == path@[j]@,
        decreases path@.len() - i,
    {
        r.push(path[i].duplicate());
        i = i + 1;
    }
    assert(segments(r@) =~= segments(path@));
    r
}

fn copy_route(route: &Vec<usize>) -> (r: Vec<usize>)
    ensures
        r@ == route@,
{
    let mut r: Vec<usize> = Vec::new();
    let mut i: usize = 0;
    while i < route.len()
        invariant
            i <= route@.len(),
            r@ == route@.take(i as int),
        decreases route@.len() - i,
    {
        r.push(route[i]);
        i = i + 1;
        assert(r@ =~= route@.take(i as int));
    }
    assert(route@.take(i as int) =~= route@);
    r
}

/// The string held by property `key` of `v`, if it is a string.
fn text_prop<'a>(v: &'a RawValue, key: &str) -> (r: Option<&'a String>)
    ensures
        match r {
            Some(s) => text_of(v@, key@) == Some(s@),
            None => text_of(v@, key@) is None,
        },
{
    let k = key.to_owned();
    match v.get(&k) {
        Some(RawValue::Str(s)) => Some(s),
        _ => None,
    }
}

/// The node that `v` makes at the given place, if it carries a string `id`
/// and a string `type`.
fn make_node(v: &RawValue, path: &Vec<Path>, route: &Vec<usize>, parent: Option<usize>) -> (r:
    Option<Node>)
    ensures
        is_node(v@) ==> r is Some && r->0@ == node_at(
            v@,
            segments(path@),
            route_model(route@),
            opt_int(parent),
        ),
        !is_node(v@) ==> r is None,
{
    proof {
        reveal_strlit("id");
        reveal_strlit("type");
    }
    let id = text_prop(v, "id");
    let node_type = text_prop(v, "type");
    match (id, node_type) {
        (Some(id), Some(node_type)) => {
            assert(id_key() =~= "id"@);
            assert(type_key() =~= "type"@);
            Some(Node::new(id.clone(), node_type.clone(), parent, copy_path(path), copy_route(route)))
        },
        _ => {
            assert(id_key() =~= "id"@);
            assert(type_key() =~= "type"@);
            None
        },
    }
}

/// Appends to `nodes` the nodes of `v`, reached at `path` and `route` below
/// the node at `parent`, in the order `discover` states.
fn walk(
    v: &RawValue,
    path: &mut Vec<Path>,
    route: &mut Vec<usize>,
    parent: Option<usize>,
    nodes: &mut Vec<Node>,
)
    ensures
        node_views(final(nodes)@) == discover(
            v@,
            segments(old(path)@),
            route_model(old(route)@),
            opt_int(parent),
            node_views(old(nodes)@),
        ),
        final(path)@ == old(path)@,
        final(route)@ == old(route)@,
    decreases v,
{
    let ghost base_path = segments(path@);
    let ghost base_route = route_model(route@);
    let ghost acc0 = node_views(nodes@);
    let ghost path0 = path@;
    let ghost route0 = route@;
    let here = make_node(v, path, route, parent);
    let inherited = match here {
        Some(node) => {
            let k = nodes.len();
            nodes.push(node);
            assert(node_views(nodes@) =~= acc0.push(node_at(v@, base_path, base_route, opt_int(parent))));
            Some(k)
        },
        None => parent,
    };
    let ghost acc1 = node_views(nodes@);
    let ghost par1 = opt_int(inherited);
    assert(discover(v@, base_path, base_route, opt_int(parent), acc0) == walk_children(v@, 0, base_path, base_route, par1, acc1));
    match v {
        RawValue::Array(items) => {
            let ghost m = items_model(items@);
            assert(v@ == Value::Array(m));
            let mut i: usize = 0;
            while i < items.len()
                invariant
                    *v == RawValue::Array(*items),
                    v@ == Value::Array(m),
                    m == items_model(items@),
                    i <= items@.len(),
                    path@ == path0,
                    route@ == route0,
                    base_path == segments(path0),
                    par1 == opt_int(inherited),
                    base_route == route_model(route0),
                    walk_children(v@, 0, base_path, base_route, par1, acc1) == walk_children(
                        v@,
                        i as int,
                        base_path,
                        base_route,
                        par1,
                        node_views(nodes@),
                    ),
                decreases items@.len() - i,
            {
                let item = &items[i];
                assert(item@ == child_at(v@, i as int));
                match item {
                    RawValue::Array(_) | RawValue::Object(_) => {
                        path.push(Path::Numeric(i));
                        route.push(i);
                        assert(segments(path@) =~= base_path.push(child_seg(v@, i as int)));
                        assert(route_model(route@) =~= base_route.push(i as int));
                        proof {
                            assert(decreases_to!(items => items[i as int]));
                        }
                        walk(item, path, route, inherited, nodes);
                        path.pop();
                        route.pop();
                        assert(path@ =~= path0);
                        assert(route@ =~= route0);
                    },
                    _ => {},
                }

                i = i + 1;
            }
        },
        RawValue::Object(props) => {
            let ghost m = props_model(props@);
            assert(v@ == Value::Object(m));
            let mut i: usize = 0;
            while i < props.len()
                invariant
                    *v == RawValue::Object(*props),
                    v@ == Value::Object(m),
                    m == props_model(props@),
                    i <= props@.len(),
                    path@ == path0,
                    route@ == route0,
                    base_path == segments(path0),
                    par1 == opt_int(inherited),
                    base_route == route_model(route0),
                    walk_children(v@, 0, base_path, base_route, par1, acc1) == walk_children(
                        v@,
                        i as int,
                        base_path,
                        base_route,
                        par1,
                        node_views(nodes@),
                    ),
                decreases props@.len() - i,
            {
                let item = &props[i].1;
                assert(item@ == child_at(v@, i as int));
                match item {
                    RawValue::Array(_) | RawValue::Object(_) => {
                        path.push(Path::Text(props[i].0.clone()));
                        route.push(i);
                        assert(segments(path@) =~= base_path.push(child_seg(v@, i as int)));
                        assert(route_model(route@) =~= base_route.push(i as int));
                        proof {
                            assert(decreases_to!(props => props[i as int]));
                        }
                        walk(item, path, route, inherited, nodes);
                        path.pop();
                        route.pop();
                        assert(path@ =~= path0);
                        assert(route@ =~= route0);
                    },
                    _ => {},
                }

                i = i + 1;
            }
        },
        _ => {},
    }
}


/// Position of the last node in `nodes` whose id is `id`.
pub open spec fn last_with_id(nodes: Seq<NodeView>, id: Seq<char>) -> Option<int>
    decreases nodes.len(),
{
    if nodes.len() == 0 {
        None
    } else if nodes.last().id == id {
        Some(nodes.len() - 1)
    } else {
        last_with_id(nodes.drop_last(), id)
    }
}

/// The value reached from `v` by taking, at each level, the child at the
/// next position of `route`.
pub open spec fn at(v: Value, route: Seq<int>) -> Option<Value>
    decreases route.len(),
{
    if route.len() == 0 {
        Some(v)
    } else {
        match at(v, route.drop_last()) {
            Some(u) => if 0 <= route.last() < child_count(u) {
                Some(child_at(u, route.last()))
            } else {
                None
            },
            None => None,
        }
    }
}

/// The value one key-path segment leads to from `v`: a property by name,
/// an array element by index.
pub open spec fn step(v: Value, s: Segment) -> Option<Value> {
    match s {
        Segment::Name(k) => property(v, k),
        Segment::Index(i) => match v {
            Value::Array(xs) => if 0 <= i < xs.len() {
                Some(xs[i])
            } else {
                None
            },
            _ => None,
        },
    }
}

/// The value that following `path` from `v` reaches.
pub open spec fn follow(v: Value, path: Seq<Segment>) -> Option<Value>
    decreases path.len(),
{
    if path.len() == 0 {
        Some(v)
    } else {
        match follow(v, path.drop_last()) {
            Some(u) => step(u, path.last()),
            None => None,
        }
    }
}

/// The index of a document: every node found in it, in the order of the
/// walk.  A node refers to its value by its route in the document, which
/// the index owns.
pub struct Paths {
    root: RawValue,
    nodes: Vec<Node>,
}

impl Paths {
    /// The indexed document.
    pub closed spec fn doc(&self) -> Value {
        self.root@
    }

    /// The indexed nodes.
    pub closed spec fn nodes(&self) -> Seq<NodeView> {
        node_views(self.nodes@)
    }

    /// The index holds exactly the nodes of its document.
    #[verifier::type_invariant]
    pub open spec fn indexes_its_document(&self) -> bool {
        self.nodes() == nodes_of(self.doc())
    }

    /// An index of an undefined document, which has no nodes.
    pub fn new() -> (r: Paths)
        ensures
            r.doc() == Value::Undefined,
            r.nodes().len() == 0,
    {
        let nodes: Vec<Node> = Vec::new();
        assert(node_views(nodes@) =~= Seq::<NodeView>::empty());
        Paths { root: RawValue::Undefined, nodes }
    }

    /// Replaces the index with that of `root`.
    pub fn parse(&mut self, root: RawValue)
        ensures
            final(self).doc() == root@,
            final(self).nodes() == nodes_of(root@),
    {
        let mut nodes: Vec<Node> = Vec::new();
        let mut path: Vec<Path> = Vec::new();
        let mut route: Vec<usize> = Vec::new();
        walk(&root, &mut path, &mut route, None, &mut nodes);
        assert(segments(Seq::<Path>::empty()) =~= Seq::<Segment>::empty());
        assert(route_model(Seq::<usize>::empty()) =~= Seq::<int>::empty());
        assert(node_views(Seq::<Node>::empty()) =~= Seq::<NodeView>::empty());
        *self = Paths { root, nodes };
    }

    /// Number of indexed nodes.
    pub fn len(&self) -> (r: usize)
        ensures
            r == self.nodes().len(),
    {
        self.nodes.len()
    }

    /// The indexed node at position `k`.
    pub fn node(&self, k: usize) -> (r: &Node)
        requires
            k < self.nodes().len(),
        ensures
            r@ == self.nodes()[k as int],
    {
        &self.nodes[k]
    }

    /// The value of the node at position `k`: what its route reaches in the
    /// document.
    pub fn get_raw_node(&self, k: usize) -> (r: &RawValue)
        requires
            k < self.nodes().len(),
        ensures
            at(self.doc(), self.nodes()[k as int].route) == Some(r@),
    {
        let ghost doc = self.doc();
        proof {
            use_type_invariant(self);
            lemma_nodes_ok(doc);
            assert(node_ok(doc, self.nodes(), k as int));
        }
        let route = self.nodes[k].get_route();
        let ghost rm = route_model(route@);
        assert(rm == self.nodes()[k as int].route);
        let mut cur: &RawValue = &self.root;
        let mut j: usize = 0;
        assert(rm.take(0) =~= Seq::<int>::empty());
        while j < route.len()
            invariant
                j <= route@.len(),
                rm == route_model(route@),
                doc == self.root@,
                crate::lemmas::path_ok(doc, self.nodes()[k as int].path, rm),
                at(doc, rm.take(j as int)) == Some(cur@),
            decreases route@.len() - j,
        {
            let r = route[j];
            let ghost u = cur@;
            assert(rm.take(j + 1).drop_last() =~= rm.take(j as int));
            assert(match at(doc, rm.take(j as int)) {
                Some(u) => 0 <= rm[j as int] < crate::paths::child_count(u),
                None => false,
            });
            match cur {
                RawValue::Array(items) => {
                    assert(u == Value::Array(items_model(items@)));
                    cur = &items[r];
                },
                RawValue::Object(props) => {
                    assert(u == Value::Object(props_model(props@)));
                    cur = &props[r].1;
                },
                _ => {
                    assert(false);
                },
            }
            j = j + 1;
        }
        assert(rm.take(j as int) =~= rm);
        cur
    }

    /// Position of the node indexed under `id`: the last one found with that
    /// id.
    pub fn get_node(&self, id: &str) -> (r: Option<usize>)
        ensures
            opt_int(r) == last_with_id(self.nodes(), id@),
    {
        let key = id.to_owned();
        let ghost all = self.nodes();
        let mut i: usize = self.nodes.len();
        assert(all.take(i as int) =~= all);
        while i > 0
            invariant
                i <= all.len(),
                all == node_views(self.nodes@),
                key@ == id@,
                last_with_id(all, key@) == last_with_id(all.take(i as int), key@),
            decreases i,
        {
            let ghost pre = all.take(i as int);
            assert(pre.drop_last() =~= all.take(i - 1));
            assert(pre.last() == self.nodes@[i - 1]@);
            if *self.nodes[i - 1].id_ref() == key {
                assert(pre.len() == i);
                return Some(i - 1);
            }
            i = i - 1;
        }
        None
    }
}

} // verus!
