use vstd::prelude::*;

use crate::value::{
    RawValue, Value, items_model, model_of, props_model, within, within_props,
};

verus! {

/// Mathematical model of a query.
pub enum Predicate {
    Any,
    Text(Seq<char>),
    Object(Seq<(Seq<char>, Value)>),
    List(Seq<Predicate>),
    Function,
}

/// A query that selects document values.
#[derive(Debug, PartialEq)]
pub enum Query {
    /// Matches every value.
    Any,
    /// Matches a value one of whose own properties is this string.
    Text(String),
    /// Matches a value that has each of these properties with a deeply
    /// equal value.
    Object(Vec<(String, RawValue)>),
    /// An ordered chain of queries, consumed by the ancestor search.
    List(Vec<Query>),
    /// A callable query; evaluating it is not supported.
    Function,
}

/// Evaluating a query that cannot be evaluated directly.
#[derive(Debug, Clone, Copy, PartialEq, Eq, Structural)]
pub enum QueryError {
    UnsupportedPredicate,
}

pub open spec fn query_model(q: Query) -> Predicate
    decreases q,
{
    match q {
        Query::Any => Predicate::Any,
        Query::Text(s) => Predicate::Text(s@),
        Query::Object(props) => Predicate::Object(props_model(props@)),
        Query::List(qs) => Predicate::List(queries_model(qs@)),
        Query::Function => Predicate::Function,
    }
}

/// Model of a sequence of queries.
pub open spec fn queries_model(qs: Seq<Query>) -> Seq<Predicate>
    decreases qs,
{
    Seq::new(
        qs.len(),
        |i: int|
            if 0 <= i < qs.len() {
                query_model(qs[i])
            } else {
                Predicate::Any
            },
    )
}

impl View for Query {
    type V = Predicate;

    open spec fn view(&self) -> Predicate {
        query_model(*self)
    }
}

/// How a value given as a query is read: nothing (undefined) or a value that
/// is no object matches anything, a string is a text query, an array is a
/// chain of the queries its elements give, any other object is an object
/// query.
pub open spec fn parse(v: Value) -> Predicate
    decreases v,
{
    match v {
        Value::Function => Predicate::Function,
        Value::Str(s) => Predicate::Text(s),
        Value::Array(items) => Predicate::List(
            Seq::new(
                items.len(),
                |i: int|
                    if 0 <= i < items.len() {
                        parse(items[i])
                    } else {
                        Predicate::Any
                    },
            ),
        ),
        Value::Object(props) => Predicate::Object(props),
        _ => Predicate::Any,
    }
}

/// Some own property (or element) of `v` is the string `s`.
pub open spec fn mentions(v: Value, s: Seq<char>) -> bool {
    match v {
        Value::Object(props) => exists|i: int|
            0 <= i < props.len() && #[trigger] props[i].1 == Value::Str(s),
        Value::Array(items) => exists|i: int|
            0 <= i < items.len() && #[trigger] items[i] == Value::Str(s),
        _ => false,
    }
}

/// Whether `p` matches `v`.  A chain or a callable cannot be evaluated on
/// a single value.
pub open spec fn eval(p: Predicate, v: Value) -> Result<bool, QueryError> {
    match p {
        Predicate::Any => Ok(true),
        Predicate::Text(s) => Ok(mentions(v, s)),
        Predicate::Object(props) => Ok(within(props, v)),
        Predicate::List(_) => Err(QueryError::UnsupportedPredicate),
        Predicate::Function => Err(QueryError::UnsupportedPredicate),
    }
}

impl Query {
    /// Reads a value given as a query.
    pub fn parse(js_value: RawValue) -> (r: Query)
        ensures
            r@ == parse(js_value@),
        decreases js_value,
    {
        let ghost v = js_value;
        match js_value {
            RawValue::Function => Query::Function,
            RawValue::Str(s) => Query::Text(s),
            RawValue::Object(props) => Query::Object(props),
            RawValue::Array(items) => {
                let ghost all = items;
                let ghost m = items_model(all@);
                let mut rest = items;
                let mut out: Vec<Query> = Vec::new();
                while rest.len() > 0
                    invariant
                        v == RawValue::Array(all),
                        v == js_value,
                        m == items_model(all@),
                        out@.len() + rest@.len() == all@.len(),
                        rest@ == all@.skip(out@.len() as int),
                        forall|j: int| 0 <= j < out@.len() ==> #[trigger] out@[j]@ == parse(m[j]),
                    decreases rest@.len(),
                {
                    let ghost n = out@.len() as int;
                    let item = rest.remove(0);
                    assert(item == all@[n]);
                    assert(rest@ =~= all@.skip(n + 1));
                    assert(m[n] == item@);
                    proof {
                        assert(decreases_to!(v => v->Array_0));
                        assert(decreases_to!(all => all[n]));
                        assert(decreases_to!(v => item));
                    }
                    let q = Query::parse(item);
                    out.push(q);
                }
                let r = Query::List(out);
                assert(v@ == Value::Array(m));
                assert forall|j: int| 0 <= j < out@.len() implies queries_model(out@)[j] == parse(
                    v@,
                )->List_0[j] by {
                    assert(queries_model(out@)[j] == out@[j]@);
                }
                assert(queries_model(out@) =~= parse(v@)->List_0);
                r
            },
            _ => Query::Any,
        }
    }

    /// Whether this query matches `obj`; a chain or a callable query is
    /// refused.
    pub fn equals(&self, obj: &RawValue) -> (r: Result<bool, QueryError>)
        ensures
            r == eval(self@, obj@),
    {
        match self {
            Query::Any => Ok(true),
            Query::Text(text) => {
                match obj {
                    RawValue::Object(props) => {
                        let ghost m = props_model(props@);
                        let mut i: usize = 0;
                        while i < props.len()
                            invariant
                                i <= props@.len(),
                                obj@ == Value::Object(m),
                                self@ == Predicate::Text(text@),
                                m == props_model(props@),
                                forall|j: int| 0 <= j < i ==> #[trigger] m[j].1 != Value::Str(text@),
                            decreases props@.len() - i,
                        {
                            assert(m[i as int].1 == props@[i as int].1@);
                            match &props[i].1 {
                                RawValue::Str(s) => {
                                    if *s == *text {
                                        assert(s@ == text@);
                                        assert(model_of(RawValue::Str(*s)) == Value::Str(s@));
                                        assert(mentions(obj@, text@));
                                        return Ok(true);
                                    }
                                },
                                _ => {},
                            }
                            i = i + 1;
                        }
                        Ok(false)
                    },
                    RawValue::Array(items) => {
                        let ghost m = items_model(items@);
                        let mut i: usize = 0;
                        while i < items.len()
                            invariant
                                i <= items@.len(),
                                obj@ == Value::Array(m),
                                self@ == Predicate::Text(text@),
                                m == items_model(items@),
                                forall|j: int| 0 <= j < i ==> #[trigger] m[j] != Value::Str(text@),
                            decreases items@.len() - i,
                        {
                            assert(m[i as int] == items@[i as int]@);
                            match &items[i] {
                                RawValue::Str(s) => {
                                    if *s == *text {
                                        assert(s@ == text@);
                                        assert(model_of(RawValue::Str(*s)) == Value::Str(s@));
                                        assert(mentions(obj@, text@));
                                        return Ok(true);
                                    }
                                },
                                _ => {},
                            }
                            i = i + 1;
                        }
                        Ok(false)
                    },
                    _ => Ok(false),
                }
            },
            Query::Object(props) => Ok(within_props(props, obj)),
            Query::List(_) => Err(QueryError::UnsupportedPredicate),
            Query::Function => Err(QueryError::UnsupportedPredicate),
        }
    }
}

/// The ordered chain of queries that one query value stands for.
pub struct Queries {
    pub values: Vec<Query>,
}

impl View for Queries {
    type V = Seq<Predicate>;

    open spec fn view(&self) -> Seq<Predicate> {
        queries_model(self.values@)
    }
}

/// The chain a query stands for: the elements of a list, nothing for a
/// query that matches anything, the query alone otherwise.
pub open spec fn expand(p: Predicate) -> Seq<Predicate> {
    match p {
        Predicate::List(ps) => ps,
        Predicate::Any => Seq::empty(),
        _ => seq![p],
    }
}

impl Queries {
    /// Reads a value given as a query into the chain it stands for.
    pub fn from(js_value: RawValue) -> (r: Queries)
        ensures
            r@ == expand(parse(js_value@)),
    {
        let query = Query::parse(js_value);
        let values = match query {
            Query::List(list) => list,
            Query::Any => Vec::new(),
            q => {
                let mut one: Vec<Query> = Vec::new();
                one.push(q);
                one
            },
        };
        let r = Queries { values };
        assert(r@ =~= expand(parse(js_value@)));
        r
    }

    pub fn len(&self) -> (r: usize)
        ensures
            r == self@.len(),
    {
        self.values.len()
    }
}

} // verus!
