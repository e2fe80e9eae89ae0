use codegraph::cypher::to_sql;

#[test]
fn one_hop_with_where() {
    let sql = to_sql("MATCH (a:Function)-[:Calls]->(b) WHERE b.name = 'save' RETURN a.name, a.file LIMIT 5").unwrap();
    assert!(sql.contains("e0.relation = 'Calls'"));
    assert!(sql.contains("b.name = 'save'"));
    assert!(sql.contains("LIMIT 5"));
    assert_eq!(
        sql,
        "SELECT DISTINCT a.name, a.file_path FROM nodes a, edges e0, nodes b WHERE e0.src = a.id AND e0.dst = b.id AND e0.relation = 'Calls' AND a.label = 'Function' AND (b.name = 'save') LIMIT 5"
    );
}

#[test]
fn two_hop_and_contains() {
    let sql = to_sql("MATCH (a)-[:Calls]->(b)-[:Calls]->(c) WHERE a.file CONTAINS 'auth' RETURN c.name").unwrap();
    assert!(sql.contains("e1.src = b.id"));
    assert!(sql.contains("LIKE '%auth%'"));
    assert!(sql.ends_with(" LIMIT 50"));
}

#[test]
fn injection_rejected() {
    assert!(to_sql("MATCH (a:Fn'; DROP TABLE nodes;--)-->(b) RETURN a.name").is_err());
}

#[test]
fn lowercase_and_splits() {
    let sql = to_sql("MATCH (a)-->(b) WHERE a.name = 'x' and b.name = 'y' RETURN a.name").unwrap();
    assert!(sql.contains("a.name = 'x'") && sql.contains("b.name = 'y'"), "{sql}");
}

#[test]
fn and_inside_quoted_value_not_split() {
    let sql = to_sql("MATCH (a)-->(b) WHERE a.name = 'salt and pepper' RETURN a.name").unwrap();
    assert!(sql.contains("'salt and pepper'"), "{sql}");
}

#[test]
fn like_wildcards_escaped() {
    let sql = to_sql("MATCH (a)-->(b) WHERE a.file CONTAINS '100%_x' RETURN a.name").unwrap();
    assert!(sql.contains("LIKE '%100\\%\\_x%' ESCAPE '\\'"), "{sql}");
}

#[test]
fn every_refusal_says_why() {
    let err = |q: &str| to_sql(q).unwrap_err();
    assert_eq!(err("DELETE x"), "only MATCH … [WHERE …] RETURN … [LIMIT n] is supported");
    assert_eq!(err("MATCH (a)"), "missing RETURN");
    assert_eq!(err("MATCH (a) RETURN a.name LIMIT many"), "bad LIMIT");
    assert_eq!(err("MATCH a RETURN a.name"), "expected '(' at: a");
    assert_eq!(err("MATCH (a RETURN a.name"), "unclosed node pattern");
    assert_eq!(err("MATCH (:X) RETURN a.name"), "node variables are required, e.g. (a:Function)");
    assert_eq!(err("MATCH (a b) RETURN a.name"), "bad variable: a b");
    assert_eq!(err("MATCH (a)-[:R]-(b) RETURN a.name"), "only outgoing -[:REL]-> supported");
    assert_eq!(err("MATCH (a)<--(b) RETURN a.name"), "expected -[:REL]-> at: <--(b)");
    assert_eq!(
        err("MATCH (a)-->(b)-->(c)-->(d) RETURN a.name"),
        "max 2 hops (3 nodes) in cypher-lite"
    );
    assert_eq!(err("MATCH (a) RETURN name"), "use var.prop, got: name");
    assert_eq!(
        err("MATCH (a) RETURN a.size"),
        "unknown property: size (name/file/line/label/language/id/pagerank)"
    );
    assert_eq!(
        err("MATCH (a) WHERE a.name RETURN a.name"),
        "unsupported WHERE clause: a.name (use =, CONTAINS, STARTS WITH, AND)"
    );
}

#[test]
fn limit_is_capped() {
    assert!(to_sql("match (a) return a.id limit 9999").unwrap().ends_with(" LIMIT 500"));
    assert!(to_sql("match (a) return a.id limit +7").unwrap().ends_with(" LIMIT 7"));
}

#[test]
fn quotes_are_doubled() {
    let sql = to_sql("MATCH (a) WHERE a.name = \"it's\" RETURN a.kind").unwrap();
    assert_eq!(sql, "SELECT DISTINCT a.label FROM nodes a WHERE (a.name = 'it''s') LIMIT 50");
    let sql = to_sql("MATCH (a) WHERE a.name STARTS WITH 'a_' RETURN a.line").unwrap();
    assert_eq!(
        sql,
        "SELECT DISTINCT a.line_start FROM nodes a WHERE (a.name LIKE 'a\\_%' ESCAPE '\\') LIMIT 50"
    );
}

#[test]
fn what_is_no_single_value_is_refused() {
    let refused = |w: &str| {
        let e = to_sql(&format!("MATCH (a)-->(b) WHERE {w} RETURN a.name")).unwrap_err();
        assert_eq!(e, format!("unsupported WHERE clause: {w} (use =, CONTAINS, STARTS WITH, AND)"));
    };
    refused("a.name = 'x' OR b.name = 'y'");
    refused("a.name = x OR b.name = y");
    refused("a.name CONTAINS 'x' XOR b.name = 'y'");
    refused("a.name = 'open");
    refused("a.name = 'it''s'");
    refused("a.name =");
    refused("a.name == x");
    refused("a.name =~ 'x.*'");
    refused("a.name STARTS WITH 'a' + 'b'");
    let sql = to_sql("MATCH (a) WHERE a.line = 12 RETURN a.name").unwrap();
    assert!(sql.contains("a.line_start = '12'"), "{sql}");
    let sql = to_sql("MATCH (a) WHERE a.name = '' RETURN a.name").unwrap();
    assert!(sql.contains("a.name = ''"), "{sql}");
    // what looks like a keyword in a value ends the query there
    assert!(to_sql("MATCH (a) WHERE a.name = 'x return y' RETURN a.name").is_err());
}

#[test]
fn keywords_in_any_case() {
    let want = to_sql(
        "MATCH (a:Function)-[:Calls]->(b) WHERE b.name STARTS WITH 'Save' AND a.file CONTAINS 'X' RETURN a.name LIMIT 5",
    );
    assert!(want.as_ref().unwrap().starts_with("SELECT DISTINCT "));
    assert_eq!(
        to_sql(
            " \n match (a:Function)-[:Calls]->(b) wHere b.name starts With 'Save' aNd a.file contains 'X' return a.name Limit 5\t",
        ),
        want
    );
    assert!(to_sql("match (a) wHere a.name = 'x' OR a.name = 'y' return a.name").is_err());
    assert!(to_sql("MATCH (a) WHERE a.name = 'x' OR a.name = 'y' RETURN a.name").is_err());
}
