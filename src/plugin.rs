use vstd::prelude::*;

use crate::lemmas::{lemma_last_with_id, lemma_nodes_ok, node_ok, nodes_ok, prefix};
use crate::node::{NodeView, opt_int};
use crate::paths::{Path, Paths, Segment, at, last_with_id, nodes_of, segments};
use crate::queries::{Predicate, Queries, Query, QueryError, eval, expand, parse};
use crate::value::{RawValue, Value, opt_model};

verus! {

/// The value of node `n` in `doc`.
pub open spec fn value_of(doc: Value, n: NodeView) -> Value {
    match at(doc, n.route) {
        Some(w) => w,
        None => Value::Undefined,
    }
}

/// The nearest node, from the `k`-th up its chain of parents, that `p`
/// matches; absent when the chain runs out first.
pub open spec fn climb(nodes: Seq<NodeView>, doc: Value, p: Predicate, k: int) -> Result<
    Option<int>,
    QueryError,
>
    decreases k,
{
    if !(0 <= k < nodes.len()) {
        Ok(None)
    } else {
        match eval(p, value_of(doc, nodes[k])) {
            Err(e) => Err(e),
            Ok(true) => Ok(Some(k)),
            Ok(false) => match nodes[k].parent {
                Some(q) => if 0 <= q < k {
                    climb(nodes, doc, p, q)
                } else {
                    Ok(None)
                },
                None => Ok(None),
            },
        }
    }
}

/// Resolves the chain `ps` from its `i`-th query on, starting at node `k`:
/// each query is searched for from the node the previous one matched, then
/// upward from that node's parent.
pub open spec fn resolve(nodes: Seq<NodeView>, doc: Value, ps: Seq<Predicate>, i: int, k: int) -> Result<
    Option<int>,
    QueryError,
>
    decreases ps.len() - i,
{
    if !(0 <= i < ps.len()) {
        Ok(None)
    } else {
        match climb(nodes, doc, ps[i], k) {
            Err(e) => Err(e),
            Ok(None) => Ok(None),
            Ok(Some(m)) => if i + 1 == ps.len() {
                Ok(Some(m))
            } else {
                match nodes[m].parent {
                    Some(q) => resolve(nodes, doc, ps, i + 1, q),
                    None => Ok(None),
                }
            },
        }
    }
}

/// The node that the chain `ps` resolves to from node `start`; an empty
/// chain resolves to nothing.
pub open spec fn search_from(nodes: Seq<NodeView>, doc: Value, ps: Seq<Predicate>, start: int) -> Result<
    Option<int>,
    QueryError,
> {
    if ps.len() == 0 {
        Ok(None)
    } else {
        resolve(nodes, doc, ps, 0, start)
    }
}

/// The key path of the node indexed under `id`: in full without a chain,
/// otherwise relative to the node the chain resolves to.
pub open spec fn path_lookup(nodes: Seq<NodeView>, doc: Value, id: Seq<char>, ps: Seq<Predicate>) -> Result<
    Option<Seq<Segment>>,
    QueryError,
> {
    match last_with_id(nodes, id) {
        None => Ok(None),
        Some(k) => if ps.len() == 0 {
            Ok(Some(nodes[k].path))
        } else {
            match search_from(nodes, doc, ps, k) {
                Err(e) => Err(e),
                Ok(None) => Ok(None),
                Ok(Some(m)) => Ok(Some(nodes[k].path.skip(nodes[m].path.len() as int))),
            }
        },
    }
}

/// The value of the parent of the node indexed under `id`.
pub open spec fn parent_lookup(nodes: Seq<NodeView>, doc: Value, id: Seq<char>) -> Option<Value> {
    match last_with_id(nodes, id) {
        Some(k) => match nodes[k].parent {
            Some(p) => Some(value_of(doc, nodes[p])),
            None => None,
        },
        None => None,
    }
}

/// The segment under which the node indexed under `id` hangs off its
/// parent: the one of its path at the length of its parent's path.
pub open spec fn parent_prop(nodes: Seq<NodeView>, id: Seq<char>) -> Option<Segment> {
    match last_with_id(nodes, id) {
        Some(k) => match nodes[k].parent {
            Some(p) => if nodes[p].path.len() < nodes[k].path.len() {
                Some(nodes[k].path[nodes[p].path.len() as int])
            } else {
                None
            },
            None => None,
        },
        None => None,
    }
}

/// Whether the chain `ps` resolves from the node indexed under `id`.
pub open spec fn context(nodes: Seq<NodeView>, doc: Value, id: Seq<char>, ps: Seq<Predicate>) -> Result<
    bool,
    QueryError,
> {
    match last_with_id(nodes, id) {
        None => Ok(false),
        Some(k) => match search_from(nodes, doc, ps, k) {
            Err(e) => Err(e),
            Ok(r) => Ok(r is Some),
        },
    }
}

/// The value of the node indexed under `id`.
pub open spec fn asset(nodes: Seq<NodeView>, doc: Value, id: Seq<char>) -> Option<Value> {
    match last_with_id(nodes, id) {
        Some(k) => Some(value_of(doc, nodes[k])),
        None => None,
    }
}

pub open spec fn found_model(r: Result<Option<usize>, QueryError>) -> Result<Option<int>, QueryError> {
    match r {
        Ok(o) => Ok(opt_int(o)),
        Err(e) => Err(e),
    }
}

pub open spec fn path_model(r: Result<Option<Vec<Path>>, QueryError>) -> Result<
    Option<Seq<Segment>>,
    QueryError,
> {
    match r {
        Ok(Some(p)) => Ok(Some(segments(p@))),
        Ok(None) => Ok(None),
        Err(e) => Err(e),
    }
}

pub open spec fn segment_model(r: Option<Path>) -> Option<Segment> {
    match r {
        Some(p) => Some(p@),
        None => None,
    }
}

/// A node that `climb` reaches lies on the chain of parents of `k`, so its
/// path is a prefix of that of `k`.
pub proof fn lemma_climb_prefix(nodes: Seq<NodeView>, doc: Value, p: Predicate, k: int)
    requires
        nodes_ok(doc, nodes),
        0 <= k < nodes.len(),
    ensures
        climb(nodes, doc, p, k) matches Ok(Some(m)) ==> 0 <= m < nodes.len() && prefix(
            nodes[m].path,
            nodes[k].path,
        ),
    decreases k,
{
    assert(node_ok(doc, nodes, k));
    assert(nodes[k].path.take(nodes[k].path.len() as int) =~= nodes[k].path);
    if let Ok(false) = eval(p, value_of(doc, nodes[k])) {
        if let Some(q) = nodes[k].parent {
            lemma_climb_prefix(nodes, doc, p, q);
            if let Ok(Some(m)) = climb(nodes, doc, p, q) {
                let a = nodes[m].path;
                let b = nodes[q].path;
                let c = nodes[k].path;
                assert(c.take(a.len() as int) =~= c.take(b.len() as int).take(a.len() as int));
            }
        }
    }
}

/// The node that `resolve` reaches lies on the chain of parents of `k`.
pub proof fn lemma_resolve_prefix(nodes: Seq<NodeView>, doc: Value, ps: Seq<Predicate>, i: int, k: int)
    requires
        nodes_ok(doc, nodes),
        0 <= k < nodes.len(),
    ensures
        resolve(nodes, doc, ps, i, k) matches Ok(Some(m)) ==> 0 <= m < nodes.len() && prefix(
            nodes[m].path,
            nodes[k].path,
        ),
    decreases ps.len() - i,
{
    if 0 <= i < ps.len() {
        lemma_climb_prefix(nodes, doc, ps[i], k);
        if let Ok(Some(m1)) = climb(nodes, doc, ps[i], k) {
            if i + 1 != ps.len() {
                assert(node_ok(doc, nodes, m1));
                if let Some(q) = nodes[m1].parent {
                    lemma_resolve_prefix(nodes, doc, ps, i + 1, q);
                    if let Ok(Some(m)) = resolve(nodes, doc, ps, i + 1, q) {
                        let a = nodes[m].path;
                        let b = nodes[q].path;
                        let b1 = nodes[m1].path;
                        let c = nodes[k].path;
                        assert(c.take(b1.len() as int).take(b.len() as int) =~= c.take(
                            b.len() as int,
                        ));
                        assert(c.take(a.len() as int) =~= c.take(b.len() as int).take(
                            a.len() as int,
                        ));
                    }
                }
            }
        }
    }
}

/// The structural lookups over the index of the current document.
pub struct CheckPathPlugin {
    paths: Paths,
}

impl CheckPathPlugin {
    /// The indexed document.
    pub closed spec fn doc(&self) -> Value {
        self.paths.doc()
    }

    /// The indexed nodes.
    pub closed spec fn nodes(&self) -> Seq<NodeView> {
        self.paths.nodes()
    }

    /// A plugin with the index of an undefined document.
    pub fn new() -> (r: CheckPathPlugin)
        ensures
            r.doc() == Value::Undefined,
            r.nodes().len() == 0,
    {
        CheckPathPlugin { paths: Paths::new() }
    }

    /// The index of the current document.
    pub fn paths(&self) -> (r: &Paths)
        ensures
            r.doc() == self.doc(),
            r.nodes() == self.nodes(),
    {
        &self.paths
    }

    /// The name under which the plugin registers with its host.
    pub fn name(&self) -> (r: String)
        ensures
            r@ == "check-path-plugin"@,
    {
        "check-path-plugin".to_owned()
    }

    /// Takes a new document snapshot: the index is rebuilt from it.
    pub fn update(&mut self, view: RawValue)
        ensures
            final(self).doc() == view@,
            final(self).nodes() == nodes_of(view@),
    {
        self.paths.parse(view);
    }

    /// The nearest node from `start` up its chain of parents that `query`
    /// matches.
    fn climb(&self, query: &Query, start: usize) -> (r: Result<Option<usize>, QueryError>)
        requires
            start < self.nodes().len(),
        ensures
            found_model(r) == climb(self.nodes(), self.doc(), query@, start as int),
    {
        proof {
            use_type_invariant(&self.paths);
            lemma_nodes_ok(self.doc());
        }
        let ghost nodes = self.nodes();
        let ghost doc = self.doc();
        let mut c: usize = start;
        loop
            invariant
                nodes == self.nodes(),
                doc == self.doc(),
                nodes_ok(doc, nodes),
                c < nodes.len(),
                climb(nodes, doc, query@, start as int) == climb(nodes, doc, query@, c as int),
            decreases c,
        {
            let raw = self.paths.get_raw_node(c);
            assert(value_of(doc, nodes[c as int]) == raw@);
            assert(node_ok(doc, nodes, c as int));
            match query.equals(raw) {
                Err(e) => {
                    return Err(e);
                },
                Ok(true) => {
                    return Ok(Some(c));
                },
                Ok(false) => {
                    match self.paths.node(c).get_parent() {
                        Some(p) => {
                            c = p;
                        },
                        None => {
                            return Ok(None);
                        },
                    }
                },
            }
        }
    }

    /// The node that the chain `queries` resolves to from node `start_at`.
    /// Each query is looked for from the node the previous one matched,
    /// going up from that node's parent; the search fails when a chain of
    /// parents runs out.
    pub fn search(&self, start_at: usize, queries: &Queries) -> (r: Result<Option<usize>, QueryError>)
        requires
            start_at < self.nodes().len(),
        ensures
            found_model(r) == search_from(self.nodes(), self.doc(), queries@, start_at as int),
    {
        proof {
            use_type_invariant(&self.paths);
            lemma_nodes_ok(self.doc());
        }
        let ghost nodes = self.nodes();
        let ghost doc = self.doc();
        let n = queries.values.len();
        if n == 0 {
            return Ok(None);
        }
        let mut cur: usize = start_at;
        let mut i: usize = 0;
        loop
            invariant
                nodes == self.nodes(),
                doc == self.doc(),
                nodes_ok(doc, nodes),
                n == queries@.len(),
                n == queries.values@.len(),
                i < n,
                cur < nodes.len(),
                search_from(nodes, doc, queries@, start_at as int) == resolve(
                    nodes,
                    doc,
                    queries@,
                    i as int,
                    cur as int,
                ),
            decreases n - i,
        {
            let query = &queries.values[i];
            assert(query@ == queries@[i as int]);
            proof {
                lemma_climb_prefix(nodes, doc, queries@[i as int], cur as int);
            }
            match self.climb(query, cur) {
                Err(e) => {
                    return Err(e);
                },
                Ok(None) => {
                    return Ok(None);
                },
                Ok(Some(m)) => {
                    if i + 1 == n {
                        return Ok(Some(m));
                    }
                    assert(node_ok(doc, nodes, m as int));
                    match self.paths.node(m).get_parent() {
                        Some(p) => {
                            cur = p;
                            i = i + 1;
                        },
                        None => {
                            return Ok(None);
                        },
                    }
                },
            }
        }
    }

    /// The key path of the node `id`: in full when `query` gives no chain,
    /// relative to the node the chain resolves to otherwise; absent for an
    /// unknown id or a chain that does not resolve.
    pub fn get_path(&self, id: &str, query: RawValue) -> (r: Result<Option<Vec<Path>>, QueryError>)
        ensures
            path_model(r) == path_lookup(self.nodes(), self.doc(), id@, expand(parse(query@))),
    {
        proof {
            use_type_invariant(&self.paths);
            lemma_nodes_ok(self.doc());
        }
        let queries = Queries::from(query);
        proof {
            lemma_last_with_id(self.nodes(), id@);
        }
        match self.paths.get_node(id) {
            None => Ok(None),
            Some(k) => {
                let full = self.paths.node(k).get_path();
                let skip: usize = if queries.len() == 0 {
                    0
                } else {
                    match self.search(k, &queries) {
                        Err(e) => {
                            return Err(e);
                        },
                        Ok(None) => {
                            return Ok(None);
                        },
                        Ok(Some(m)) => {
                            proof {
                                lemma_resolve_prefix(self.nodes(), self.doc(), queries@, 0, k as int);
                            }
                            self.paths.node(m).get_path().len()
                        },
                    }
                };
                let ghost fm = segments(full@);
                let mut rel: Vec<Path> = Vec::new();
                let mut j: usize = skip;
                while j < full.len()
                    invariant
                        skip <= j <= full@.len(),
                        fm == segments(full@),
                        rel@.len() == j - skip,
                        forall|t: int| 0 <= t < rel@.len() ==> #[trigger] rel@[t]@ == fm[skip + t],
                    decreases full@.len() - j,
                {
                    rel.push(full[j].duplicate());
                    j = j + 1;
                }
                assert(segments(rel@) =~= fm.skip(skip as int));
                assert(fm.skip(0) =~= fm);
                Ok(Some(rel))
            },
        }
    }

    /// The value of the parent of node `id`.  The query is read but does not
    /// change which parent is given.
    pub fn get_parent(&self, id: &str, query: RawValue) -> (r: Option<&RawValue>)
        ensures
            opt_model(r) == parent_lookup(self.nodes(), self.doc(), id@),
    {
        proof {
            use_type_invariant(&self.paths);
            lemma_nodes_ok(self.doc());
        }
        let _query = Queries::from(query);
        proof {
            lemma_last_with_id(self.nodes(), id@);
        }
        match self.paths.get_node(id) {
            None => None,
            Some(k) => {
                assert(node_ok(self.doc(), self.nodes(), k as int));
                match self.paths.node(k).get_parent() {
                    Some(p) => Some(self.paths.get_raw_node(p)),
                    None => None,
                }
            },
        }
    }

    /// The segment under which node `id` hangs off its parent.
    pub fn get_parent_prop(&self, id: &str) -> (r: Option<Path>)
        ensures
            segment_model(r) == parent_prop(self.nodes(), id@),
    {
        proof {
            use_type_invariant(&self.paths);
            lemma_nodes_ok(self.doc());
        }
        proof {
            lemma_last_with_id(self.nodes(), id@);
        }
        match self.paths.get_node(id) {
            None => None,
            Some(k) => {
                assert(node_ok(self.doc(), self.nodes(), k as int));
                match self.paths.node(k).get_parent() {
                    None => None,
                    Some(p) => {
                        let parent_len = self.paths.node(p).get_path().len();
                        let path = self.paths.node(k).get_path();
                        if parent_len < path.len() {
                            Some(path[parent_len].duplicate())
                        } else {
                            None
                        }
                    },
                }
            },
        }
    }

    /// Search among descendants is not provided: always false.
    pub fn has_child_context(&self) -> (r: bool)
        ensures
            !r,
    {
        false
    }

    /// Whether the chain that `query` gives resolves from node `id`.
    pub fn has_parent_context(&self, id: &str, query: RawValue) -> (r: Result<bool, QueryError>)
        ensures
            r == context(self.nodes(), self.doc(), id@, expand(parse(query@))),
    {
        let queries = Queries::from(query);
        proof {
            lemma_last_with_id(self.nodes(), id@);
        }
        match self.paths.get_node(id) {
            None => Ok(false),
            Some(k) => match self.search(k, &queries) {
                Err(e) => Err(e),
                Ok(found) => Ok(found.is_some()),
            },
        }
    }

    /// The value of node `id`.
    pub fn get_asset(&self, id: &str) -> (r: Option<&RawValue>)
        ensures
            opt_model(r) == asset(self.nodes(), self.doc(), id@),
    {
        proof {
            use_type_invariant(&self.paths);
        }
        proof {
            lemma_last_with_id(self.nodes(), id@);
        }
        match self.paths.get_node(id) {
            None => None,
            Some(k) => Some(self.paths.get_raw_node(k)),
        }
    }
}

} // verus!
