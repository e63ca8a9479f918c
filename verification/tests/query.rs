use factstore::ast::AstNode;
use factstore::data::{Datum, Db, Ref};
use factstore::filter::Filter;

fn exec(datums: Vec<Datum>, ast: AstNode) -> Vec<Datum> {
    let offset = datums.len();
    let db = Db { datums, refs: vec![], offset };
    Filter::new(&db)
        .execute(&ast)
        .datums
        .into_iter()
        .cloned()
        .collect()
}

#[test]
fn execute_truthy() {
    let data = vec![Datum::new(1, "foo/bar", "baz", 1)];
    assert_eq!(data, exec(data.clone(), AstNode::True))
}

#[test]
fn execute_id_equality() {
    let ast = AstNode::parse("e=1").unwrap();
    let data = vec![
        Datum::new(1, "foo/bar", "baz", 1),
        Datum::new(2, "foo/bar", "baz", 2),
    ];
    assert_eq!(data[..1], exec(data.clone(), ast)[..])
}

#[test]
fn execute_multiple_predicates() {
    let ast = AstNode::parse("e=1 a=foo v=baz t=1").unwrap();
    let data = vec![Datum::new(1, "foo", "baz", 1), Datum::new(1, "bar", "baz", 2)];
    assert_eq!(data[..1], exec(data.clone(), ast)[..])
}

#[test]
fn execute_operators() {
    let ast = AstNode::parse("a:foo t>=2").unwrap();
    let data = vec![
        Datum::new(1, "foobar", "baz", 3),
        Datum::new(1, "barfoo", "baz", 2),
        Datum::new(1, "foobar", "baz", 1),
    ];
    assert_eq!(data[..2], exec(data.clone(), ast)[..])
}

#[test]
fn empty_query_selects_whole_store() {
    let ast = AstNode::parse(" ").unwrap();
    let data = vec![
        Datum::new(1, "x/a", "u", 1),
        Datum::new(2, "x/a", "v", 2),
    ];
    assert_eq!(data, exec(data.clone(), ast))
}

#[test]
fn id_equality_scenario() {
    let ast = AstNode::parse("e=1").unwrap();
    let data = vec![
        Datum::new(1, "x/a", "u", 1),
        Datum::new(2, "x/a", "v", 2),
    ];
    assert_eq!(vec![Datum::new(1, "x/a", "u", 1)], exec(data, ast))
}

#[test]
fn contains_and_time_scenario() {
    let ast = AstNode::parse("a:x t>=2").unwrap();
    let data = vec![
        Datum::new(1, "xyz", "v", 3),
        Datum::new(2, "x", "v", 2),
        Datum::new(3, "y", "v", 1),
    ];
    assert_eq!(data[..2], exec(data.clone(), ast)[..])
}

#[test]
fn disjunction_selects_both() {
    let ast = AstNode::parse("e=1 | e=2").unwrap();
    let data = vec![
        Datum::new(1, "x/a", "u", 1),
        Datum::new(2, "x/a", "v", 2),
    ];
    assert_eq!(data, exec(data.clone(), ast))
}

#[test]
fn execute_preserves_store_order() {
    let ast = AstNode::parse("e=1 | e=3").unwrap();
    let data = vec![
        Datum::new(3, "x/a", "c", 1),
        Datum::new(2, "x/a", "b", 2),
        Datum::new(1, "x/a", "a", 3),
    ];
    let got = exec(data.clone(), ast);
    assert_eq!(
        vec![Datum::new(3, "x/a", "c", 1), Datum::new(1, "x/a", "a", 3)],
        got
    )
}

#[test]
fn time_contains_matches_nothing() {
    // A "contains" comparator on the integer time field is a structural
    // marker only: it never holds at runtime.
    let ast = AstNode::parse("t:5").unwrap();
    let data = vec![Datum::new(1, "x/a", "u", 5)];
    assert!(exec(data, ast).is_empty())
}

#[test]
fn join_with_extra_predicates() {
    let db = Db {
        datums: vec![
            Datum::new(0, "artist/name", "X", 1),
            Datum::new(1, "album/name", "A", 2),
            Datum::new(2, "album/name", "B", 9),
        ],
        refs: vec![
            Ref::new(1, "album/artist".to_owned(), 0, 2),
            Ref::new(2, "album/artist".to_owned(), 0, 9),
        ],
        offset: 3,
    };
    let ast = AstNode::parse("e:(a=artist/name) t>=5").unwrap();
    let got: Vec<Datum> = Filter::new(&db)
        .execute(&ast)
        .datums
        .into_iter()
        .cloned()
        .collect();
    assert_eq!(vec![Datum::new(2, "album/name", "B", 9)], got)
}

#[test]
fn join_translates_through_refs() {

    let db = Db {
        datums: vec![
            Datum::new(0, "artist/name", "X", 1),
            Datum::new(1, "album/name", "A", 2),
        ],
        refs: vec![Ref::new(1, "album/artist".to_owned(), 0, 2)],
        offset: 2,
    };
    let ast = AstNode::parse("e:(a=artist/name)").unwrap();
    let got: Vec<Datum> = Filter::new(&db)
        .execute(&ast)
        .datums
        .into_iter()
        .cloned()
        .collect();
    assert_eq!(vec![Datum::new(1, "album/name", "A", 2)], got)
}
