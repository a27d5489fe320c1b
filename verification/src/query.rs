//! Query trees: what they match, and how they compile to a backing
//! where-clause with its parameter list.

use vstd::prelude::*;

use crate::like::{like_match, like_matches};
use crate::object::{prop_value_eq, Object, PropV, PropValue};
use crate::text::{chars_to_string, dec_seq, i64_chars, push_char, str_eq};

verus! {

broadcast use vstd::seq::axiom_seq_index_decreases, vstd::seq::axiom_seq_subrange_decreases, vstd::std_specs::vec::axiom_vec_index_decreases;

/// A node within a query tree.
///
/// For all but advanced cases, [`QueryBuilder`](crate::query_builder::QueryBuilder)
/// should be used (via [`Q`](crate::query_builder::Q)) rather than creating
/// `QueryNode` values directly.
#[derive(Debug)]
pub enum QueryNode {
    /// Will match all objects.
    Empty,
    /// Will match objects that have the given property with exactly the given value.
    PropEqual { name: String, value: PropValue },
    /// Will match objects whose given property has contents matching the given
    /// pattern; see [`crate::like`] for the pattern syntax.
    PropLike { name: String, pattern: String },
    /// Will match all objects that match each of the contained criteria.
    And(Vec<QueryNode>),
}

/// The mathematical value of a [`QueryNode`].
pub ghost enum QnV {
    Empty,
    PropEqual(Seq<char>, PropV),
    PropLike(Seq<char>, Seq<char>),
    And(Seq<QnV>),
}

impl View for QueryNode {
    type V = QnV;

    open spec fn view(&self) -> QnV
        decreases self,
    {
        match self {
            QueryNode::Empty => QnV::Empty,
            QueryNode::PropEqual { name, value } => QnV::PropEqual(name@, value@),
            QueryNode::PropLike { name, pattern } => QnV::PropLike(name@, pattern@),
            QueryNode::And(nodes) => QnV::And(
                Seq::new(
                    nodes@.len(),
                    |i: int|
                        if 0 <= i < nodes@.len() {
                            nodes@[i].view()
                        } else {
                            QnV::Empty
                        },
                ),
            ),
        }
    }
}

/// The reserved property name that addresses an object's identity.
pub open spec fn id_key() -> Seq<char> {
    "object_id"@
}

/// The text form of a property value: the string itself, or the decimal
/// rendering of a number.
pub open spec fn prop_text(v: PropV) -> Seq<char> {
    match v {
        PropV::Str(s) => s,
        PropV::Num(n) => dec_seq(n),
    }
}

/// Whether an object with the given identity and properties matches a query.
pub open spec fn query_matches(q: QnV, id: int, props: Map<Seq<char>, PropV>) -> bool
    decreases q,
{
    match q {
        QnV::Empty => true,
        QnV::PropEqual(name, value) => if name == id_key() {
            value == PropV::Num(id)
        } else {
            props.contains_key(name) && props[name] == value
        },
        QnV::PropLike(name, pattern) => props.contains_key(name) && like_matches(
            pattern,
            prop_text(props[name]),
        ),
        QnV::And(nodes) => forall|i: int| 0 <= i < nodes.len() ==> query_matches(nodes[i], id, props),
    }
}

impl QueryNode {
    /// Whether the object with the given identity and properties matches this query.
    #[verifier::loop_isolation(false)]
    pub fn matches_object(&self, id: i64, props: &Object) -> (r: bool)
        ensures
            r == query_matches(self@, id as int, props@),
        decreases *self,
    {
        match self {
            QueryNode::Empty => true,
            QueryNode::PropEqual { name, value } => {
                if str_eq(name.as_str(), "object_id") {
                    prop_value_eq(value, &PropValue::Number(id))
                } else {
                    match props.get(name.as_str()) {
                        Some(v) => prop_value_eq(v, value),
                        None => false,
                    }
                }
            },
            QueryNode::PropLike { name, pattern } => {
                match props.get(name.as_str()) {
                    Some(v) => {
                        match v {
                            PropValue::String(s) => like_match(pattern.as_str(), s.as_str()),
                            PropValue::Number(n) => {
                                let chars = i64_chars(*n);
                                let text = chars_to_string(&chars);
                                like_match(pattern.as_str(), text.as_str())
                            },
                        }
                    },
                    None => false,
                }
            },
            QueryNode::And(nodes) => {
                let ghost nodes_v = self@->And_0;
                let len = nodes.len();
                proof {
                    assert(nodes_v.len() == nodes@.len());
                    assert(forall|k: int| 0 <= k < nodes@.len() ==> nodes_v[k] == nodes@[k]@);
                }
                let mut i: usize = 0;
                while i < len
                    invariant
                        i <= len,
                        len == nodes@.len(),
                        nodes_v == self@->And_0,
                        nodes_v.len() == nodes@.len(),
                        forall|k: int| 0 <= k < nodes@.len() ==> nodes_v[k] == nodes@[k]@,
                        self@ == QnV::And(nodes_v),
                        forall|k: int|
                            0 <= k < i ==> #[trigger] query_matches(nodes_v[k], id as int, props@),
                    decreases len - i,
                {
                    if !nodes[i].matches_object(id, props) {
                        proof {
                            assert(nodes_v[i as int] == nodes@[i as int]@);
                            assert(!query_matches(nodes_v[i as int], id as int, props@));
                        }
                        return false;
                    }
                    proof {
                        assert(nodes_v[i as int] == nodes@[i as int]@);
                    }
                    i = i + 1;
                }
                proof {
                    assert forall|j: int| 0 <= j < nodes_v.len() implies query_matches(
                        nodes_v[j],
                        id as int,
                        props@,
                    ) by {}
                    assert(query_matches(QnV::And(nodes_v), id as int, props@));
                }
                true
            },
        }
    }
}

impl Clone for QueryNode {
    #[verifier::loop_isolation(false)]
    fn clone(&self) -> (r: Self)
        ensures
            r@ == self@,
        decreases *self,
    {
        match self {
            QueryNode::Empty => QueryNode::Empty,
            QueryNode::PropEqual { name, value } => QueryNode::PropEqual {
                name: name.clone(),
                value: value.clone(),
            },
            QueryNode::PropLike { name, pattern } => QueryNode::PropLike {
                name: name.clone(),
                pattern: pattern.clone(),
            },
            QueryNode::And(nodes) => {
                let len = nodes.len();
                let mut copies: Vec<QueryNode> = Vec::new();
                let mut i: usize = 0;
                while i < len
                    invariant
                        i <= len,
                        len == nodes@.len(),
                        copies@.len() == i,
                        forall|k: int| 0 <= k < i ==> copies@[k]@ == nodes@[k]@,
                    decreases len - i,
                {
                    copies.push(nodes[i].clone());
                    i = i + 1;
                }
                let r = QueryNode::And(copies);
                proof {
                    assert(r@->And_0 =~= self@->And_0);
                    assert(r@ == self@);
                }
                r
            },
        }
    }
}

/// The regular-expression metacharacters that are escaped when a pattern
/// piece is taken literally.
pub open spec fn is_regex_meta(c: char) -> bool {
    c == '\\' || c == '.' || c == '+' || c == '*' || c == '?' || c == '(' || c == ')' || c == '|'
        || c == '[' || c == ']' || c == '{' || c == '}' || c == '^' || c == '$' || c == '#'
        || c == '&' || c == '-' || c == '~'
}

/// One character of literal text, escaped for a regular-expression engine.
pub open spec fn escaped_char(c: char) -> Seq<char> {
    if is_regex_meta(c) {
        seq!['\\', c]
    } else {
        seq![c]
    }
}

/// A literal piece of text, escaped so that a regular-expression engine reads
/// it verbatim.
pub open spec fn regex_escaped(s: Seq<char>) -> Seq<char>
    decreases s.len(),
{
    if s.len() == 0 {
        Seq::empty()
    } else {
        regex_escaped(s.drop_last()) + escaped_char(s.last())
    }
}

/// The body of the expression one token compiles to: its pieces escaped and
/// joined with `\w*`.
pub open spec fn token_regex(pieces: Seq<Seq<char>>) -> Seq<char>
    decreases pieces.len(),
{
    if pieces.len() == 0 {
        Seq::empty()
    } else if pieces.len() == 1 {
        regex_escaped(pieces[0])
    } else {
        token_regex(pieces.drop_last()) + "\\w*"@ + regex_escaped(pieces.last())
    }
}

/// The expressions all tokens compile to, each wrapped in `\b...\b`, joined
/// with `.*?`.
pub open spec fn tokens_regex(toks: Seq<Seq<Seq<char>>>) -> Seq<char>
    decreases toks.len(),
{
    if toks.len() == 0 {
        Seq::empty()
    } else if toks.len() == 1 {
        "\\b"@ + token_regex(toks[0]) + "\\b"@
    } else {
        tokens_regex(toks.drop_last()) + ".*?"@ + "\\b"@ + token_regex(toks.last()) + "\\b"@
    }
}

/// The regular expression a `like` pattern compiles to: case-insensitive mode,
/// then each token's expression in pattern order.
pub open spec fn like_regex(pattern: Seq<char>) -> Seq<char> {
    "(?i)"@ + tokens_regex(crate::like::parse_like(pattern))
}

/// The where-clause a query compiles to. `And` joins its children's clauses
/// with ` AND `.
pub open spec fn sql_clause(q: QnV) -> Seq<char>
    decreases q,
{
    match q {
        QnV::Empty => "1=1"@,
        QnV::PropEqual(name, value) => if name == id_key() {
            "object_id = ?"@
        } else {
            let cast = if value is Str {
                "TEXT"@
            } else {
                "NUMBER"@
            };
            "CAST(json_extract(properties, \"$."@ + name + "\") AS "@ + cast + ") = ?"@
        },
        QnV::PropLike(name, pattern) => "CAST(json_extract(properties, \"$."@ + name
            + "\") AS TEXT) REGEXP ?"@,
        QnV::And(nodes) => sql_clause_join(nodes),
    }
}

/// The where-clauses of several queries, joined with ` AND `; a conjunction
/// of nothing matches everything, so it compiles as the empty query does.
pub open spec fn sql_clause_join(nodes: Seq<QnV>) -> Seq<char>
    decreases nodes,
{
    if nodes.len() == 0 {
        "1=1"@
    } else if nodes.len() == 1 {
        sql_clause(nodes[0])
    } else {
        sql_clause_join(nodes.subrange(0, nodes.len() - 1)) + " AND "@ + sql_clause(
            nodes[nodes.len() - 1],
        )
    }
}

/// The parameters a query compiles to, in clause order. An equality match
/// passes its value through; a `like` match passes the compiled regular
/// expression as a string; `And` concatenates its children's parameters in
/// child order.
pub open spec fn sql_params(q: QnV) -> Seq<PropV>
    decreases q,
{
    match q {
        QnV::Empty => Seq::empty(),
        QnV::PropEqual(name, value) => seq![value],
        QnV::PropLike(name, pattern) => seq![PropV::Str(like_regex(pattern))],
        QnV::And(nodes) => sql_params_join(nodes),
    }
}

/// The parameters of several queries, concatenated in child order.
pub open spec fn sql_params_join(nodes: Seq<QnV>) -> Seq<PropV>
    decreases nodes,
{
    if nodes.len() == 0 {
        Seq::empty()
    } else {
        sql_params_join(nodes.subrange(0, nodes.len() - 1)) + sql_params(nodes[nodes.len() - 1])
    }
}

/// Escape a literal piece for the regular-expression engine.
fn regex_escape_exec(piece: &Vec<char>, out: &mut String)
    ensures
        final(out)@ == old(out)@ + regex_escaped(piece@),
{
    let len = piece.len();
    let mut i: usize = 0;
    while i < len
        invariant
            i <= len,
            len == piece@.len(),
            out@ == old(out)@ + regex_escaped(piece@.take(i as int)),
        decreases len - i,
    {
        let c = piece[i];
        let meta = c == '\\' || c == '.' || c == '+' || c == '*' || c == '?' || c == '(' || c
            == ')' || c == '|' || c == '[' || c == ']' || c == '{' || c == '}' || c == '^' || c
            == '$' || c == '#' || c == '&' || c == '-' || c == '~';
        if meta {
            push_char(out, '\\');
        }
        push_char(out, c);
        i = i + 1;
        proof {
            assert(piece@.take(i as int).drop_last() =~= piece@.take(i - 1));
            assert(piece@.take(i as int).last() == piece@[i - 1]);
            assert(out@ =~= old(out)@ + regex_escaped(piece@.take(i as int)));
        }
    }
    proof {
        assert(piece@.take(len as int) =~= piece@);
    }
}

/// Build the regular expression a `like` pattern compiles to.
pub fn like_regex_exec(pattern: &str) -> (r: String)
    ensures
        r@ == like_regex(pattern@),
{
    let toks = crate::like::parse_like_exec(pattern);
    let mut out = String::from_str("(?i)");
    proof {
        reveal_strlit("(?i)");
    }
    let n = toks.len();
    let mut t: usize = 0;
    while t < n
        invariant
            t <= n,
            n == toks.deep_view().len(),
            toks.deep_view() == crate::like::parse_like(pattern@),
            out@ == "(?i)"@ + tokens_regex(toks.deep_view().take(t as int)),
        decreases n - t,
    {
        if t > 0 {
            out.append(".*?");
            proof {
                reveal_strlit(".*?");
            }
        }
        out.append("\\b");
        proof {
            reveal_strlit("\\b");
        }
        let pieces = &toks[t];
        let m = pieces.len();
        let ghost pieces_v = toks.deep_view()[t as int];
        proof {
            assert(pieces_v == pieces.deep_view());
        }
        let mut p: usize = 0;
        let ghost out_base = out@;
        while p < m
            invariant
                p <= m,
                m == pieces.deep_view().len(),
                pieces_v == pieces.deep_view(),
                out@ == out_base + token_regex(pieces_v.take(p as int)),
            decreases m - p,
        {
            if p > 0 {
                out.append("\\w*");
                proof {
                    reveal_strlit("\\w*");
                }
            }
            regex_escape_exec(&pieces[p], &mut out);
            proof {
                assert(pieces.deep_view()[p as int] == pieces@[p as int]@);
            }
            p = p + 1;
            proof {
                let pre = pieces_v.take(p as int);
                assert(pre.drop_last() =~= pieces_v.take(p - 1));
                assert(pre.last() == pieces_v[p - 1]);
                assert(out@ =~= out_base + token_regex(pre));
            }
        }
        out.append("\\b");
        proof {
            assert(pieces_v.take(m as int) =~= pieces_v);
        }
        t = t + 1;
        proof {
            let pre = toks.deep_view().take(t as int);
            assert(pre.drop_last() =~= toks.deep_view().take(t - 1));
            assert(pre.last() == toks.deep_view()[t - 1]);
            assert(out@ =~= "(?i)"@ + tokens_regex(pre));
        }
    }
    proof {
        assert(toks.deep_view().take(n as int) =~= toks.deep_view());
    }
    out
}

impl QueryNode {
    /// Compile this query to a where-clause and its parameter list. An
    /// equality criterion passes its value through as a parameter; a `like`
    /// criterion passes the compiled regular expression.
    #[verifier::loop_isolation(false)]
    pub fn to_sql_clause(&self) -> (r: (String, Vec<PropValue>))
        ensures
            r.0@ == sql_clause(self@),
            r.1@.map_values(|p: PropValue| p@) == sql_params(self@),
        decreases *self,
    {
        match self {
            QueryNode::Empty => {
                let clause = String::from_str("1=1");
                let params: Vec<PropValue> = Vec::new();
                proof {
                    reveal_strlit("1=1");
                    assert(params@.map_values(|p: PropValue| p@) =~= Seq::<PropV>::empty());
                }
                (clause, params)
            },
            QueryNode::PropEqual { name, value } => {
                let mut params: Vec<PropValue> = Vec::new();
                params.push(value.clone());
                proof {
                    assert(params@.map_values(|p: PropValue| p@) =~= seq![value@]);
                }
                if str_eq(name.as_str(), "object_id") {
                    let clause = String::from_str("object_id = ?");
                    proof {
                        reveal_strlit("object_id = ?");
                    }
                    (clause, params)
                } else {
                    let mut clause = String::from_str("CAST(json_extract(properties, \"$.");
                    clause.append(name.as_str());
                    clause.append("\") AS ");
                    let is_str = match value {
                        PropValue::String(_) => true,
                        PropValue::Number(_) => false,
                    };
                    if is_str {
                        clause.append("TEXT");
                    } else {
                        clause.append("NUMBER");
                    }
                    clause.append(") = ?");
                    proof {
                        reveal_strlit("CAST(json_extract(properties, \"$.");
                        reveal_strlit("\") AS ");
                        reveal_strlit("TEXT");
                        reveal_strlit("NUMBER");
                        reveal_strlit(") = ?");
                        assert(clause@ =~= sql_clause(self@));
                    }
                    (clause, params)
                }
            },
            QueryNode::PropLike { name, pattern } => {
                let mut clause = String::from_str("CAST(json_extract(properties, \"$.");
                clause.append(name.as_str());
                clause.append("\") AS TEXT) REGEXP ?");
                let regex = like_regex_exec(pattern.as_str());
                let mut params: Vec<PropValue> = Vec::new();
                params.push(PropValue::String(regex));
                proof {
                    reveal_strlit("CAST(json_extract(properties, \"$.");
                    reveal_strlit("\") AS TEXT) REGEXP ?");
                    assert(clause@ =~= sql_clause(self@));
                    assert(params@.map_values(|p: PropValue| p@) =~= sql_params(self@));
                }
                (clause, params)
            },
            QueryNode::And(nodes) => {
                let ghost nodes_v = self@->And_0;
                proof {
                    assert(nodes_v.len() == nodes@.len());
                    assert(forall|k: int| 0 <= k < nodes@.len() ==> nodes_v[k] == nodes@[k]@);
                }
                if nodes.len() == 0 {
                    let clause = String::from_str("1=1");
                    let params: Vec<PropValue> = Vec::new();
                    proof {
                        reveal_strlit("1=1");
                        assert(params@.map_values(|p: PropValue| p@) =~= Seq::<PropV>::empty());
                        assert(sql_params_join(nodes_v) =~= Seq::<PropV>::empty());
                    }
                    return (clause, params);
                }
                let mut clause = String::new();
                let mut params: Vec<PropValue> = Vec::new();
                let len = nodes.len();
                let mut i: usize = 0;
                proof {
                    assert(params@.map_values(|p: PropValue| p@) =~= Seq::<PropV>::empty());
                }
                while i < len
                    invariant
                        i <= len,
                        len == nodes@.len(),
                        len > 0,
                        nodes_v == self@->And_0,
                        nodes_v.len() == nodes@.len(),
                        forall|k: int| 0 <= k < nodes@.len() ==> nodes_v[k] == nodes@[k]@,
                        i == 0 ==> clause@ == Seq::<char>::empty(),
                        i > 0 ==> clause@ == sql_clause_join(nodes_v.take(i as int)),
                        params@.map_values(|p: PropValue| p@) == sql_params_join(
                            nodes_v.take(i as int),
                        ),
                    decreases len - i,
                {
                    if i > 0 {
                        clause.append(" AND ");
                        proof {
                            reveal_strlit(" AND ");
                        }
                    }
                    let (sub_clause, mut sub_params) = nodes[i].to_sql_clause();
                    clause.append(sub_clause.as_str());
                    let ghost old_params = params@;
                    let ghost sub_params_v = sub_params@;
                    params.append(&mut sub_params);
                    proof {
                        assert(nodes_v[i as int] == nodes@[i as int]@);
                    }
                    i = i + 1;
                    proof {
                        let pre = nodes_v.take(i as int);
                        assert(pre.subrange(0, pre.len() - 1) =~= nodes_v.take(i - 1));
                        assert(pre[pre.len() - 1] == nodes_v[i - 1]);
                        assert(clause@ =~= sql_clause_join(pre));
                        assert(params@ =~= old_params + sub_params_v);
                        assert(params@.map_values(|p: PropValue| p@) =~= old_params.map_values(
                            |p: PropValue| p@,
                        ) + sub_params_v.map_values(|p: PropValue| p@));
                        assert(params@.map_values(|p: PropValue| p@) =~= sql_params_join(pre));
                    }
                }
                proof {
                    assert(nodes_v.take(len as int) =~= nodes_v);
                    assert(self@ is And && self@->And_0 == nodes_v);
                }
                (clause, params)
            },
        }
    }
}

impl PartialEq for QueryNode {
    #[verifier::loop_isolation(false)]
    fn eq(&self, other: &Self) -> (r: bool)
        decreases *self,
    {
        match (self, other) {
            (QueryNode::Empty, QueryNode::Empty) => true,
            (
                QueryNode::PropEqual { name: n1, value: v1 },
                QueryNode::PropEqual { name: n2, value: v2 },
            ) => *n1 == *n2 && prop_value_eq(v1, v2),
            (
                QueryNode::PropLike { name: n1, pattern: p1 },
                QueryNode::PropLike { name: n2, pattern: p2 },
            ) => *n1 == *n2 && *p1 == *p2,
            (QueryNode::And(xs), QueryNode::And(ys)) => {
                let ghost xv = self@->And_0;
                let ghost yv = other@->And_0;
                if xs.len() != ys.len() {
                    proof {
                        assert(xv.len() != yv.len());
                    }
                    return false;
                }
                let len = xs.len();
                let mut i: usize = 0;
                while i < len
                    invariant
                        i <= len,
                        forall|k: int| 0 <= k < i ==> xv[k] == yv[k],
                    decreases len - i,
                {
                    proof {
                        assert(xv[i as int] == xs@[i as int]@);
                        assert(yv[i as int] == ys@[i as int]@);
                    }
                    if !(xs[i] == ys[i]) {
                        proof {
                            if self@ == other@ {
                                assert(xv == yv);
                            }
                        }
                        return false;
                    }
                    i = i + 1;
                }
                proof {
                    assert(xv =~= yv);
                }
                true
            },
            _ => false,
        }
    }
}

impl Eq for QueryNode {}

impl vstd::std_specs::cmp::PartialEqSpecImpl for QueryNode {
    open spec fn obeys_eq_spec() -> bool {
        true
    }

    open spec fn eq_spec(&self, other: &Self) -> bool {
        self@ == other@
    }
}

} // verus!
