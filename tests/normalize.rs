use slowlog::normalize::{fingerprint, normalize_node, render_statements, LiteralKind, NodeKind, SqlNode};

fn text(s: &str) -> SqlNode {
    SqlNode::Text(s.to_string())
}

fn lit(k: LiteralKind, s: &str) -> SqlNode {
    SqlNode::Literal(k, s.to_string())
}

fn node(kind: NodeKind, parts: Vec<SqlNode>) -> SqlNode {
    SqlNode::Node { kind, parts }
}

/// `SELECT * FROM t WHERE id = <n>`, with the kinds a parse gives it.
fn where_id(n: &str) -> Vec<SqlNode> {
    vec![node(
        NodeKind::Query,
        vec![
            text("SELECT * FROM t WHERE "),
            node(
                NodeKind::Select,
                vec![node(
                    NodeKind::Where,
                    vec![node(
                        NodeKind::Binary,
                        vec![node(NodeKind::Other, vec![text("id")]), text(" = "), lit(LiteralKind::Number, n)],
                    )],
                )],
            ),
        ],
    )]
}

fn in_list(items: &[&str]) -> Vec<SqlNode> {
    let list = items.iter().map(|i| lit(LiteralKind::Number, i)).collect();
    vec![node(
        NodeKind::Query,
        vec![
            text("SELECT * FROM t WHERE "),
            node(
                NodeKind::Select,
                vec![node(
                    NodeKind::Where,
                    vec![SqlNode::InList { expr: Box::new(text("id")), list, negated: false }],
                )],
            ),
        ],
    )]
}

#[test]
fn literal_values_are_erased() {
    let a = fingerprint("", &Ok(where_id("1")));
    let b = fingerprint("", &Ok(where_id("2")));
    assert_eq!("SELECT * FROM t WHERE id = 0;", a);
    assert_eq!(a, b);
}

#[test]
fn different_structure_gives_different_fingerprints() {
    let a = fingerprint("", &Ok(where_id("1")));
    let other = vec![node(
        NodeKind::Query,
        vec![text("SELECT * FROM t WHERE name = "), lit(LiteralKind::Number, "1")],
    )];
    assert_ne!(a, fingerprint("", &Ok(other)));
    let string_literal = vec![node(
        NodeKind::Query,
        vec![text("SELECT * FROM t WHERE id = "), lit(LiteralKind::String, "'1'")],
    )];
    assert_ne!(a, fingerprint("", &Ok(string_literal)));
}

#[test]
fn in_lists_collapse_to_one_element() {
    let three = fingerprint("", &Ok(in_list(&["1", "2", "3"])));
    let one = fingerprint("", &Ok(in_list(&["1"])));
    let none = fingerprint("", &Ok(in_list(&[])));
    assert_eq!("SELECT * FROM t WHERE id IN (0);", three);
    assert_eq!(three, one);
    assert_eq!("SELECT * FROM t WHERE id IN ();", none);
    assert_ne!(none, one);
}

#[test]
fn unlisted_constructs_pass_through() {
    let stmt = vec![node(
        NodeKind::Query,
        vec![
            text("SELECT "),
            node(
                NodeKind::Select,
                vec![node(
                    NodeKind::Projection,
                    vec![node(
                        NodeKind::Other,
                        vec![text("f("), lit(LiteralKind::Number, "7"), text(", "),
                            SqlNode::InList { expr: Box::new(text("x")), list: vec![lit(LiteralKind::Number, "1"), lit(LiteralKind::Number, "2")], negated: false },
                            text(")")],
                    )],
                )],
            ),
            text(" FROM t LIMIT "),
            node(NodeKind::Limit, vec![lit(LiteralKind::Number, "10")]),
        ],
    )];
    assert_eq!("SELECT f(7, x IN (1, 2)) FROM t LIMIT 10;", render_statements(&stmt));
}

#[test]
fn negated_in_list_renders() {
    let stmt = vec![SqlNode::InList {
        expr: Box::new(text("x")),
        list: vec![lit(LiteralKind::String, "'a'"), lit(LiteralKind::String, "'b'")],
        negated: true,
    }];
    assert_eq!("x NOT IN ('');", render_statements(&stmt));
}

#[test]
fn placeholders_by_kind() {
    let stmt = vec![node(
        NodeKind::Values,
        vec![
            text("SELECT "),
            lit(LiteralKind::NationalString, "N'x'"),
            text(", "),
            lit(LiteralKind::HexString, "X'ff'"),
            text(", "),
            lit(LiteralKind::Boolean, "false"),
            text(", "),
            lit(LiteralKind::Null, "NULL"),
            text(", "),
            lit(LiteralKind::Date, "DATE '2020-02-02'"),
            text(", "),
            lit(LiteralKind::Interval, "INTERVAL '3' DAY"),
        ],
    )];
    assert_eq!(
        "SELECT N'', X'', true, NULL, DATE '1970-01-01', INTERVAL '1' SECOND;",
        render_statements(&stmt)
    );
}

#[test]
fn statements_are_joined_with_a_space() {
    let mut stmts = where_id("5");
    stmts.push(text("COMMIT"));
    assert_eq!("SELECT * FROM t WHERE id = 0; COMMIT;", render_statements(&stmts));
}

#[test]
fn unparseable_queries_keep_their_text() {
    let f = fingerprint("SELEC x", &Err("Expected an SQL statement".to_string()));
    assert_eq!("Unparseable statement: SELEC x (Expected an SQL statement)", f);
    let g = fingerprint("SELEC y", &Err("Expected an SQL statement".to_string()));
    assert_ne!(f, g);
}

#[test]
fn normalizing_twice_changes_nothing() {
    let stmts = in_list(&["7", "8"]);
    let once: Vec<SqlNode> = stmts.iter().map(normalize_node).collect();
    let twice: Vec<SqlNode> = once.iter().map(normalize_node).collect();
    assert_eq!(render_statements(&once), render_statements(&twice));
    assert_eq!(fingerprint("", &Ok(stmts)), fingerprint("", &Ok(once)));
}
