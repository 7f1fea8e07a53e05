use vstd::prelude::*;

use crate::lemmas::{lemma_last_with_id, lemma_nodes_ok, node_ok, nodes_ok, path_ok};
use crate::node::NodeView;
use crate::paths::{
    Segment, at, child_count, child_seg, follow, id_key, last_with_id, nodes_of, step,
    text_of,
};
use crate::plugin::{asset, climb, context, parent_lookup, parent_prop, path_lookup, resolve, search_from, value_of};
use crate::queries::{Predicate, QueryError, eval};
use crate::value::{Value, first_key, property, same, well_keyed, within};

verus! {

/// What a route reaches inside a well-keyed document is well keyed.
proof fn lemma_well_keyed_at(doc: Value, route: Seq<int>)
    requires
        well_keyed(doc),
        at(doc, route) is Some,
    ensures
        well_keyed(at(doc, route)->0),
    decreases route.len(),
{
    if route.len() > 0 {
        lemma_well_keyed_at(doc, route.drop_last());
        let u = at(doc, route.drop_last())->0;
        let i = route.last();
        match u {
            Value::Object(ps) => assert(well_keyed(ps[i].1)),
            Value::Array(xs) => assert(well_keyed(xs[i])),
            _ => {},
        }
    }
}

/// In a well-keyed document, a key path that names a route leads where the
/// route does.
proof fn lemma_follow(doc: Value, path: Seq<Segment>, route: Seq<int>)
    requires
        well_keyed(doc),
        path_ok(doc, path, route),
    ensures
        follow(doc, path) == at(doc, route),
    decreases route.len(),
{
    if route.len() > 0 {
        let n = route.len() - 1;
        let shorter_path = path.drop_last();
        let shorter_route = route.drop_last();
        assert(shorter_route =~= route.take(n));
        assert(path_ok(doc, shorter_path, shorter_route)) by {
            assert forall|j: int| 0 <= j < shorter_route.len() implies match #[trigger] at(doc, shorter_route.take(j)) {
                Some(u) => 0 <= shorter_route[j] < child_count(u) && shorter_path[j] == child_seg(u, shorter_route[j]),
                None => false,
            } by {
                assert(shorter_route.take(j) =~= route.take(j));
                assert(match at(doc, route.take(j)) {
                    Some(u) => 0 <= route[j] < child_count(u) && path[j] == child_seg(u, route[j]),
                    None => false,
                });
            }
        }
        lemma_follow(doc, shorter_path, shorter_route);
        assert(match at(doc, route.take(n)) {
            Some(u) => 0 <= route[n] < child_count(u) && path[n] == child_seg(u, route[n]),
            None => false,
        });
        let u = at(doc, shorter_route)->0;
        let i = route[n];
        lemma_well_keyed_at(doc, shorter_route);
        if let Value::Object(ps) = u {
            assert(first_key(ps, ps[i].0, i));
            let c = choose|c: int| first_key(ps, ps[i].0, c);
            assert(c == i) by {
                if c < i {
                    assert(ps[c].0 != ps[i].0);
                } else if c > i {
                    assert(ps[i].0 != ps[c].0);
                }
            }
            assert(step(u, path.last()) == Some(ps[i].1));
        }
    }
}

/// Round trip: every node of a document is found again.  When it is the
/// node indexed under its id, a lookup of that id without a query gives its
/// full key path; and in a document whose objects have distinct property
/// names, following that key path from the root reaches the node's value.
pub proof fn law_round_trip(doc: Value, k: int)
    requires
        0 <= k < nodes_of(doc).len(),
    ensures
        at(doc, nodes_of(doc)[k].route) is Some,
        last_with_id(nodes_of(doc), nodes_of(doc)[k].id) == Some(k) ==> path_lookup(
            nodes_of(doc),
            doc,
            nodes_of(doc)[k].id,
            Seq::empty(),
        ) == Ok::<Option<Seq<Segment>>, QueryError>(Some(nodes_of(doc)[k].path)),
        well_keyed(doc) ==> follow(doc, nodes_of(doc)[k].path) == Some(
            value_of(doc, nodes_of(doc)[k]),
        ),
{
    let nodes = nodes_of(doc);
    lemma_nodes_ok(doc);
    assert(node_ok(doc, nodes, k));
    if well_keyed(doc) {
        lemma_follow(doc, nodes[k].path, nodes[k].route);
    }
}

/// Rebuilding from an unchanged document gives the same mapping from ids
/// to paths: the nodes of an index are those of its document, whatever the
/// index held before.
pub proof fn law_rebuild_idempotent(
    first: Seq<NodeView>,
    second: Seq<NodeView>,
    doc: Value,
    id: Seq<char>,
)
    requires
        first == nodes_of(doc),
        second == nodes_of(doc),
    ensures
        path_lookup(first, doc, id, Seq::empty()) == path_lookup(second, doc, id, Seq::empty()),
        last_with_id(first, id) == last_with_id(second, id),
{
}

/// Parent consistency: for the node indexed under its id, with a parent,
/// the parent property is the segment of its path at the length of the
/// parent's path, and the parent lookup gives the parent's value.
pub proof fn law_parent_consistency(doc: Value, k: int)
    requires
        0 <= k < nodes_of(doc).len(),
        last_with_id(nodes_of(doc), nodes_of(doc)[k].id) == Some(k),
        nodes_of(doc)[k].parent is Some,
    ensures
        ({
            let nodes = nodes_of(doc);
            let p = nodes[k].parent->0;
            &&& 0 <= p < k
            &&& nodes[p].path.len() < nodes[k].path.len()
            &&& parent_prop(nodes, nodes[k].id) == Some(nodes[k].path[nodes[p].path.len() as int])
            &&& parent_lookup(nodes, doc, nodes[k].id) == Some(value_of(doc, nodes[p]))
        }),
{
    lemma_nodes_ok(doc);
    assert(node_ok(doc, nodes_of(doc), k));
}

/// No node up the chain from `k` matches a query for an id that no node
/// carries.
proof fn lemma_climb_absent(nodes: Seq<NodeView>, doc: Value, absent: Seq<char>, k: int)
    requires
        nodes_ok(doc, nodes),
        forall|j: int| 0 <= j < nodes.len() ==> #[trigger] nodes[j].id != absent,
    ensures
        climb(nodes, doc, Predicate::Object(seq![(id_key(), Value::Str(absent))]), k) == Ok::<
            Option<int>,
            QueryError,
        >(None),
    decreases k,
{
    let p = Predicate::Object(seq![(id_key(), Value::Str(absent))]);
    if 0 <= k < nodes.len() {
        assert(node_ok(doc, nodes, k));
        let w = value_of(doc, nodes[k]);
        assert(text_of(w, id_key()) == Some(nodes[k].id));
        let props = seq![(id_key(), Value::Str(absent))];
        assert(property(w, id_key()) == Some(Value::Str(nodes[k].id)));
        assert(nodes[k].id != absent);
        assert(!same(Value::Str(absent), Value::Str(nodes[k].id)));
        assert(props[0].0 == id_key());
        assert(!within(props, w));
        assert(eval(p, w) == Ok::<bool, QueryError>(false));
        if let Some(q) = nodes[k].parent {
            lemma_climb_absent(nodes, doc, absent, q);
        }
    }
}

/// Search failure: a query for an id that no node carries gives no path
/// and no context, from any node.
pub proof fn law_search_failure(doc: Value, id: Seq<char>, absent: Seq<char>)
    requires
        forall|j: int|
            0 <= j < nodes_of(doc).len() ==> #[trigger] nodes_of(doc)[j].id != absent,
    ensures
        path_lookup(
            nodes_of(doc),
            doc,
            id,
            seq![Predicate::Object(seq![(id_key(), Value::Str(absent))])],
        ) == Ok::<Option<Seq<Segment>>, QueryError>(None),
        context(
            nodes_of(doc),
            doc,
            id,
            seq![Predicate::Object(seq![(id_key(), Value::Str(absent))])],
        ) == Ok::<bool, QueryError>(false),
{
    let nodes = nodes_of(doc);
    let ps = seq![Predicate::Object(seq![(id_key(), Value::Str(absent))])];
    lemma_nodes_ok(doc);
    lemma_last_with_id(nodes, id);
    if let Some(k) = last_with_id(nodes, id) {
        lemma_climb_absent(nodes, doc, absent, k);
        assert(resolve(nodes, doc, ps, 0, k) == Ok::<Option<int>, QueryError>(None));
        assert(search_from(nodes, doc, ps, k) == Ok::<Option<int>, QueryError>(
            None,
        ));
    }
}

/// Duplicate ids: the index keeps, under an id, the node with that id that
/// the walk found last.
pub proof fn law_duplicate_ids(doc: Value, id: Seq<char>)
    ensures
        last_with_id(nodes_of(doc), id) matches Some(k) ==> {
            &&& 0 <= k < nodes_of(doc).len()
            &&& nodes_of(doc)[k].id == id
            &&& forall|j: int|
                k < j < nodes_of(doc).len() ==> #[trigger] nodes_of(doc)[j].id != id
        },
        last_with_id(nodes_of(doc), id) is None <==> forall|j: int|
            0 <= j < nodes_of(doc).len() ==> #[trigger] nodes_of(doc)[j].id != id,
{
    lemma_last_with_id(nodes_of(doc), id);
}

/// Unknown id: every lookup of an id that no node carries gives the absent
/// result, never an error.
pub proof fn law_unknown_id(doc: Value, id: Seq<char>, ps: Seq<Predicate>)
    requires
        forall|j: int| 0 <= j < nodes_of(doc).len() ==> #[trigger] nodes_of(doc)[j].id != id,
    ensures
        path_lookup(nodes_of(doc), doc, id, ps) == Ok::<
            Option<Seq<Segment>>,
            QueryError,
        >(None),
        parent_lookup(nodes_of(doc), doc, id) is None,
        parent_prop(nodes_of(doc), id) is None,
        context(nodes_of(doc), doc, id, ps) == Ok::<bool, QueryError>(false),
        asset(nodes_of(doc), doc, id) is None,
{
    lemma_last_with_id(nodes_of(doc), id);
}

} // verus!
