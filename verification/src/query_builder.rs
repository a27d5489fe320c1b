//! A fluent constructor for queries: criteria accumulate and are ANDed
//! together.

use vstd::prelude::*;

use crate::object::{IntoPropValue, PropV};
use crate::query::{QnV, QueryNode};

verus! {

broadcast use vstd::seq::axiom_seq_index_decreases, vstd::std_specs::vec::axiom_vec_index_decreases;

/// A convenience type for creating [`QueryNode`] values. Use it by calling
/// methods on [`Q`] rather than by constructing a [`QueryBuilder`] yourself.
///
/// A builder starts out empty. Each call to [`id`](QueryBuilder::id),
/// [`equal`](QueryBuilder::equal) or [`like`](QueryBuilder::like) adds one
/// criterion; [`build`](QueryBuilder::build) emits the query that requires
/// them all.
pub enum QueryBuilder {
    Empty,
    Single(QueryNode),
    And(Vec<QueryNode>),
}

/// The mathematical value of a [`QueryBuilder`].
pub ghost enum QbV {
    Empty,
    Single(QnV),
    And(Seq<QnV>),
}

impl View for QueryBuilder {
    type V = QbV;

    open spec fn view(&self) -> QbV {
        match self {
            QueryBuilder::Empty => QbV::Empty,
            QueryBuilder::Single(node) => QbV::Single(node@),
            QueryBuilder::And(nodes) => QbV::And(
                Seq::new(
                    nodes@.len(),
                    |i: int|
                        if 0 <= i < nodes@.len() {
                            nodes@[i].view()
                        } else {
                            QnV::Empty
                        },
                ),
            ),
        }
    }
}

/// A blank [`QueryBuilder`] value, to be used instead of constructing new
/// [`QueryBuilder`] values.
pub const Q: QueryBuilder = QueryBuilder::Empty;

/// A builder with one more criterion appended.
pub open spec fn qb_add(b: QbV, n: QnV) -> QbV {
    match b {
        QbV::Empty => QbV::Single(n),
        QbV::Single(prev) => QbV::And(seq![prev, n]),
        QbV::And(nodes) => QbV::And(nodes.push(n)),
    }
}

/// The query a builder emits: nothing, its single criterion, or the
/// conjunction of all its criteria.
pub open spec fn qb_build(b: QbV) -> QnV {
    match b {
        QbV::Empty => QnV::Empty,
        QbV::Single(n) => n,
        QbV::And(nodes) => QnV::And(nodes),
    }
}

impl QueryBuilder {
    fn add(self, node: QueryNode) -> (r: Self)
        ensures
            r@ == qb_add(self@, node@),
    {
        match self {
            QueryBuilder::Empty => QueryBuilder::Single(node),
            QueryBuilder::Single(prev_node) => {
                let mut nodes: Vec<QueryNode> = Vec::new();
                nodes.push(prev_node);
                nodes.push(node);
                let r = QueryBuilder::And(nodes);
                proof {
                    assert(r@->And_0 =~= seq![prev_node@, node@]);
                }
                r
            },
            QueryBuilder::And(nodes) => {
                let ghost old_v = QueryBuilder::And(nodes)@->And_0;
                let mut nodes = nodes;
                nodes.push(node);
                let r = QueryBuilder::And(nodes);
                proof {
                    assert(r@->And_0 =~= old_v.push(node@));
                }
                r
            },
        }
    }

    /// Add the criterion that the object have the given ID.
    pub fn id(self, value: i64) -> (r: Self)
        ensures
            r@ == qb_add(self@, QnV::PropEqual("object_id"@, PropV::Num(value as int))),
    {
        self.add(
            QueryNode::PropEqual {
                name: String::from_str("object_id"),
                value: crate::object::PropValue::Number(value),
            },
        )
    }

    /// Add the criterion that the given property have exactly the given value.
    pub fn equal<V: IntoPropValue>(self, name: &str, value: V) -> (r: Self)
        ensures
            r@ == qb_add(self@, QnV::PropEqual(name@, value.prop_view())),
    {
        let v = value.into_prop();
        self.add(QueryNode::PropEqual { name: name.to_owned(), value: v })
    }

    /// Add the criterion that the given property have contents matching the
    /// given pattern; see [`crate::like`] for the supported syntax.
    pub fn like(self, name: &str, pattern: &str) -> (r: Self)
        ensures
            r@ == qb_add(self@, QnV::PropLike(name@, pattern@)),
    {
        self.add(QueryNode::PropLike { name: name.to_owned(), pattern: pattern.to_owned() })
    }

    /// Consume this builder and emit the query it describes.
    pub fn build(self) -> (r: QueryNode)
        ensures
            r@ == qb_build(self@),
    {
        match self {
            QueryBuilder::Single(node) => node,
            QueryBuilder::And(nodes) => {
                let ghost old_v = QueryBuilder::And(nodes)@->And_0;
                let r = QueryNode::And(nodes);
                proof {
                    assert(r@->And_0 =~= old_v);
                }
                r
            },
            QueryBuilder::Empty => QueryNode::Empty,
        }
    }
}

/// A value that describes a query: a [`QueryNode`] itself, or a
/// [`QueryBuilder`] that still has to be built.
pub trait IntoQueryNode: Sized {
    /// The query this value describes.
    spec fn query_view(&self) -> QnV;

    fn into_query(self) -> (r: QueryNode)
        ensures
            r@ == self.query_view(),
    ;
}

impl IntoQueryNode for QueryNode {
    open spec fn query_view(&self) -> QnV {
        self@
    }

    fn into_query(self) -> (r: QueryNode) {
        self
    }
}

impl IntoQueryNode for QueryBuilder {
    open spec fn query_view(&self) -> QnV {
        qb_build(self@)
    }

    fn into_query(self) -> (r: QueryNode) {
        self.build()
    }
}

} // verus!
