use vstd::prelude::*;

use crate::node::NodeView;
use crate::paths::{
    last_with_id,
    Segment, at, child_at, child_count, child_seg, discover, id_key, is_container, is_node,
    node_at, nodes_of, text_of, type_key, walk_children,
};
use crate::value::Value;

verus! {

/// `a` is a proper prefix of `b`.
pub open spec fn strict_prefix<A>(a: Seq<A>, b: Seq<A>) -> bool {
    a.len() < b.len() && b.take(a.len() as int) == a
}

/// `a` is a prefix of `b`.
pub open spec fn prefix<A>(a: Seq<A>, b: Seq<A>) -> bool {
    a.len() <= b.len() && b.take(a.len() as int) == a
}

/// `path` names, level by level, the children that `route` takes from
/// `doc`.
pub open spec fn path_ok(doc: Value, path: Seq<Segment>, route: Seq<int>) -> bool {
    &&& path.len() == route.len()
    &&& forall|j: int|
        0 <= j < route.len() ==> match #[trigger] at(doc, route.take(j)) {
            Some(u) => 0 <= route[j] < child_count(u) && path[j] == child_seg(u, route[j]),
            None => false,
        }
}

/// The `k`-th node of `nodes` is well placed in `doc`: its route reaches a
/// value carrying its id and type, its path names that route, and its
/// parent comes before it, strictly above it.
pub open spec fn node_ok(doc: Value, nodes: Seq<NodeView>, k: int) -> bool {
    let n = nodes[k];
    &&& at(doc, n.route) matches Some(w) && is_node(w) && text_of(w, id_key()) == Some(n.id)
        && text_of(w, type_key()) == Some(n.node_type)
    &&& path_ok(doc, n.path, n.route)
    &&& n.parent matches Some(p) ==> 0 <= p < k && strict_prefix(nodes[p].route, n.route)
        && strict_prefix(nodes[p].path, n.path)
}

pub open spec fn nodes_ok(doc: Value, nodes: Seq<NodeView>) -> bool {
    forall|k: int| 0 <= k < nodes.len() ==> #[trigger] node_ok(doc, nodes, k)
}

/// `parent` is a node of `nodes` strictly above the place `path`/`route`.
pub open spec fn above(nodes: Seq<NodeView>, parent: Option<int>, path: Seq<Segment>, route: Seq<int>) -> bool {
    parent matches Some(p) ==> 0 <= p < nodes.len() && strict_prefix(nodes[p].route, route)
        && strict_prefix(nodes[p].path, path)
}

/// `parent` is a node of `nodes` at or above the place `path`/`route`.
pub open spec fn at_or_above(
    nodes: Seq<NodeView>,
    parent: Option<int>,
    path: Seq<Segment>,
    route: Seq<int>,
) -> bool {
    parent matches Some(p) ==> 0 <= p < nodes.len() && prefix(nodes[p].route, route) && prefix(
        nodes[p].path,
        path,
    )
}

pub open spec fn extends<A>(b: Seq<A>, a: Seq<A>) -> bool {
    a.len() <= b.len() && forall|j: int| 0 <= j < a.len() ==> #[trigger] b[j] == a[j]
}

pub proof fn lemma_extend(doc: Value, a: Seq<NodeView>, b: Seq<NodeView>)
    requires
        nodes_ok(doc, a),
        extends(b, a),
    ensures
        forall|k: int| 0 <= k < a.len() ==> #[trigger] node_ok(doc, b, k),
{
    assert forall|k: int| 0 <= k < a.len() implies #[trigger] node_ok(doc, b, k) by {
        assert(node_ok(doc, a, k));
        assert(b[k] == a[k]);
        if let Some(p) = a[k].parent {
            assert(b[p] == a[p]);
        }
    }
}

pub proof fn lemma_at_push(doc: Value, route: Seq<int>, i: int)
    requires
        at(doc, route) is Some,
        0 <= i < child_count(at(doc, route)->0),
    ensures
        at(doc, route.push(i)) == Some(child_at(at(doc, route)->0, i)),
{
    assert(route.push(i).drop_last() =~= route);
}

pub proof fn lemma_path_push(doc: Value, path: Seq<Segment>, route: Seq<int>, i: int)
    requires
        path_ok(doc, path, route),
        at(doc, route) is Some,
        0 <= i < child_count(at(doc, route)->0),
    ensures
        path_ok(doc, path.push(child_seg(at(doc, route)->0, i)), route.push(i)),
{
    let longer_path = path.push(child_seg(at(doc, route)->0, i));
    let longer_route = route.push(i);
    assert forall|j: int| 0 <= j < longer_route.len() implies match #[trigger] at(doc, longer_route.take(j)) {
        Some(u) => 0 <= longer_route[j] < child_count(u) && longer_path[j] == child_seg(u, longer_route[j]),
        None => false,
    } by {
        assert(longer_route.take(j) =~= route.take(j));
        if j == route.len() {
            assert(route.take(j) =~= route);
        } else {
            assert(match at(doc, route.take(j)) {
                Some(u) => 0 <= route[j] < child_count(u) && path[j] == child_seg(u, route[j]),
                None => false,
            });
        }
    }
}

pub proof fn lemma_discover(
    doc: Value,
    v: Value,
    path: Seq<Segment>,
    route: Seq<int>,
    parent: Option<int>,
    acc: Seq<NodeView>,
)
    requires
        nodes_ok(doc, acc),
        at(doc, route) == Some(v),
        path_ok(doc, path, route),
        above(acc, parent, path, route),
    ensures
        nodes_ok(doc, discover(v, path, route, parent, acc)),
        extends(discover(v, path, route, parent, acc), acc),
    decreases v, child_count(v) + 1,
{
    if is_node(v) {
        let n = node_at(v, path, route, parent);
        let acc1 = acc.push(n);
        lemma_extend(doc, acc, acc1);
        assert(node_ok(doc, acc1, acc.len() as int));
        assert(nodes_ok(doc, acc1)) by {
            assert forall|k: int| 0 <= k < acc1.len() implies #[trigger] node_ok(doc, acc1, k) by {
                if k < acc.len() {
                } else {
                    assert(k == acc.len());
                }
            }
        }
        assert(route.take(route.len() as int) =~= route);
        assert(path.take(path.len() as int) =~= path);
        lemma_children(doc, v, 0, path, route, Some(acc.len() as int), acc1);
    } else {
        lemma_children(doc, v, 0, path, route, parent, acc);
    }
}

pub proof fn lemma_children(
    doc: Value,
    v: Value,
    i: int,
    path: Seq<Segment>,
    route: Seq<int>,
    parent: Option<int>,
    acc: Seq<NodeView>,
)
    requires
        nodes_ok(doc, acc),
        at(doc, route) == Some(v),
        path_ok(doc, path, route),
        at_or_above(acc, parent, path, route),
        0 <= i,
    ensures
        nodes_ok(doc, walk_children(v, i, path, route, parent, acc)),
        extends(walk_children(v, i, path, route, parent, acc), acc),
    decreases v, child_count(v) - i,
{
    if i >= child_count(v) {
    } else {
        let c = child_at(v, i);
        if is_container(c) {
            let s = child_seg(v, i);
            lemma_at_push(doc, route, i);
            lemma_path_push(doc, path, route, i);
            if let Some(p) = parent {
                let pr = acc[p].route;
                let pp = acc[p].path;
                assert(route.push(i).take(pr.len() as int) =~= route.take(pr.len() as int));
                assert(path.push(s).take(pp.len() as int) =~= path.take(pp.len() as int));
            }
            lemma_discover(doc, c, path.push(s), route.push(i), parent, acc);
            let next = discover(c, path.push(s), route.push(i), parent, acc);
            if let Some(p) = parent {
                assert(next[p] == acc[p]);
            }
            lemma_children(doc, v, i + 1, path, route, parent, next);
            let r = walk_children(v, i + 1, path, route, parent, next);
            assert(extends(r, acc)) by {
                assert forall|j: int| 0 <= j < acc.len() implies #[trigger] r[j] == acc[j] by {
                    assert(next[j] == acc[j]);
                }
            }
        } else {
            lemma_children(doc, v, i + 1, path, route, parent, acc);
        }
    }
}

/// Every node of a document is well placed in it.
pub proof fn lemma_nodes_ok(doc: Value)
    ensures
        nodes_ok(doc, nodes_of(doc)),
{
    let e = Seq::<Segment>::empty();
    let r = Seq::<int>::empty();
    assert(path_ok(doc, e, r));
    lemma_discover(doc, doc, e, r, None, Seq::empty());
}


/// `last_with_id` gives the last position holding the id, and is absent
/// only when no position holds it.
pub proof fn lemma_last_with_id(nodes: Seq<NodeView>, id: Seq<char>)
    ensures
        last_with_id(nodes, id) matches Some(k) ==> {
            &&& 0 <= k < nodes.len()
            &&& nodes[k].id == id
            &&& forall|j: int| k < j < nodes.len() ==> #[trigger] nodes[j].id != id
        },
        last_with_id(nodes, id) is None ==> forall|j: int|
            0 <= j < nodes.len() ==> #[trigger] nodes[j].id != id,
    decreases nodes.len(),
{
    if nodes.len() > 0 && nodes.last().id != id {
        let pre = nodes.drop_last();
        lemma_last_with_id(pre, id);
        assert forall|j: int| 0 <= j < pre.len() implies #[trigger] nodes[j] == pre[j] by {}
    }
}

} // verus!
