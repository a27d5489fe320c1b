use qualia::{PropValue, Q, QueryNode};
use qualia::QueryNode::{And, Empty, PropEqual, PropLike};

fn str_value(s: &str) -> PropValue {
    PropValue::String(s.to_string())
}

#[test]
fn queries_build_correctly() {
    let tests = [
        ("empty query", Q.build(), Empty {}),
        (
            "string equal",
            Q.equal("name", "value").build(),
            PropEqual { name: "name".to_string(), value: str_value("value") },
        ),
        (
            "number equal",
            Q.equal("name", 42).build(),
            PropEqual { name: "name".to_string(), value: PropValue::Number(42) },
        ),
        (
            "object-id equal",
            Q.id(42).build(),
            PropEqual { name: "object_id".to_string(), value: PropValue::Number(42) },
        ),
        (
            "simple word like",
            Q.like("name", "phrase").build(),
            PropLike { name: "name".to_string(), pattern: "phrase".to_string() },
        ),
        (
            "anded queries",
            Q.equal("name1", "value1").equal("name2", "value2").equal("name3", "value3").build(),
            And(vec![
                PropEqual { name: "name1".to_string(), value: str_value("value1") },
                PropEqual { name: "name2".to_string(), value: str_value("value2") },
                PropEqual { name: "name3".to_string(), value: str_value("value3") },
            ]),
        ),
    ];

    for (description, actual_query, expected_query) in &tests {
        assert_eq!(expected_query, actual_query, "{}", description);
    }
}

#[test]
fn queries_convert_correctly() {
    let tests = [
        ("empty query", Empty {}, "1=1".to_string(), vec![]),
        (
            "string equal",
            PropEqual { name: "name".to_string(), value: str_value("value") },
            "CAST(json_extract(properties, \"$.name\") AS TEXT) = ?".to_string(),
            vec![str_value("value")],
        ),
        (
            "number equal",
            PropEqual { name: "name".to_string(), value: PropValue::Number(42) },
            "CAST(json_extract(properties, \"$.name\") AS NUMBER) = ?".to_string(),
            vec![PropValue::Number(42)],
        ),
        (
            "object-id equal",
            PropEqual { name: "object_id".to_string(), value: PropValue::Number(42) },
            "object_id = ?".to_string(),
            vec![PropValue::Number(42)],
        ),
        (
            "simple word like",
            PropLike { name: "name".to_string(), pattern: "phrase".to_string() },
            "CAST(json_extract(properties, \"$.name\") AS TEXT) REGEXP ?".to_string(),
            vec![str_value(r"(?i)\bphrase\b")],
        ),
        (
            "prefix word like",
            PropLike { name: "name".to_string(), pattern: "phr*".to_string() },
            "CAST(json_extract(properties, \"$.name\") AS TEXT) REGEXP ?".to_string(),
            vec![str_value(r"(?i)\bphr\w*\b")],
        ),
        (
            "suffix word like",
            PropLike { name: "name".to_string(), pattern: "*ase".to_string() },
            "CAST(json_extract(properties, \"$.name\") AS TEXT) REGEXP ?".to_string(),
            vec![str_value(r"(?i)\b\w*ase\b")],
        ),
        (
            "mid-word like",
            PropLike { name: "name".to_string(), pattern: "*ras*".to_string() },
            "CAST(json_extract(properties, \"$.name\") AS TEXT) REGEXP ?".to_string(),
            vec![str_value(r"(?i)\b\w*ras\w*\b")],
        ),
        (
            "multi-word like",
            PropLike { name: "name".to_string(), pattern: "lon* *hrase".to_string() },
            "CAST(json_extract(properties, \"$.name\") AS TEXT) REGEXP ?".to_string(),
            vec![str_value(r"(?i)\blon\w*\b.*?\b\w*hrase\b")],
        ),
        (
            "anded queries",
            And(vec![
                PropEqual { name: "name1".to_string(), value: str_value("value1") },
                PropEqual { name: "name2".to_string(), value: str_value("value2") },
                PropEqual { name: "name3".to_string(), value: str_value("value3") },
            ]),
            "CAST(json_extract(properties, \"$.name1\") AS TEXT) = ? AND CAST(json_extract(properties, \"$.name2\") AS TEXT) = ? AND CAST(json_extract(properties, \"$.name3\") AS TEXT) = ?".to_string(),
            vec![str_value("value1"), str_value("value2"), str_value("value3")],
        ),
    ];

    for (description, query, expected_where_clause, expected_params) in &tests {
        let (actual_where_clause, actual_params) = query.to_sql_clause();

        assert_eq!(expected_where_clause, &actual_where_clause, "{} where clause", description);
        assert_eq!(expected_params, &actual_params, "{} params", description);
    }
}

#[test]
fn query_nodes_compare_structurally() {
    let a = QueryNode::PropEqual { name: "x".to_string(), value: PropValue::Number(1) };
    let b = QueryNode::PropEqual { name: "x".to_string(), value: PropValue::Number(1) };
    let c = QueryNode::PropEqual { name: "x".to_string(), value: PropValue::Number(2) };
    assert_eq!(a, b);
    assert_ne!(a, c);
    assert_ne!(a, QueryNode::Empty);
}

#[test]
fn empty_conjunction_compiles_like_empty_query() {
    let (clause, params) = And(vec![]).to_sql_clause();
    assert_eq!(clause, "1=1".to_string());
    assert_eq!(params, vec![]);
}
