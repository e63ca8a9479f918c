use factstore::ast::{AstNode, Comparator, Predicates};

#[test]
fn parse_truthy() {
    let qs = [" ", "", "   "];
    let ast = AstNode::True;

    for q in &qs {
        assert_eq!(ast, AstNode::parse(q).unwrap());
    }
}

#[test]
fn parse_id_equality() {
    let qs = ["e=1", "   e=1 ", "e=1  "];
    let ast = AstNode::Expression(Predicates {
        e: Some((1, Comparator::Equal)),
        a: None,
        v: None,
        t: None,
    });

    for q in &qs {
        assert_eq!(ast, AstNode::parse(q).unwrap());
    }
}

#[test]
fn parse_multiple_predicates() {
    let qs = ["a=foo e=3 t=1  v=bar", " v=bar  t=1 ", "e=1 a=foo"];
    let asts = [
        AstNode::Expression(Predicates {
            e: Some((3, Comparator::Equal)),
            a: Some(("foo".to_owned(), Comparator::Equal)),
            v: Some(("bar".to_owned(), Comparator::Equal)),
            t: Some((1, Comparator::Equal)),
        }),
        AstNode::Expression(Predicates {
            e: None,
            a: None,
            v: Some(("bar".to_owned(), Comparator::Equal)),
            t: Some((1, Comparator::Equal)),
        }),
        AstNode::Expression(Predicates {
            e: Some((1, Comparator::Equal)),
            a: Some(("foo".to_owned(), Comparator::Equal)),
            v: None,
            t: None,
        }),
    ];

    for (i, q) in qs.iter().enumerate() {
        assert_eq!(asts[i], AstNode::parse(q).unwrap());
    }
}

#[test]
fn parse_operators() {
    let qs = ["  a:foo e>=3 t<1 v<=bar ", "t>=1   e<1", "v:bar a>=foo "];
    let asts = [
        AstNode::Expression(Predicates {
            e: Some((3, Comparator::GreaterOrEqual)),
            a: Some(("foo".to_owned(), Comparator::Contains)),
            v: Some(("bar".to_owned(), Comparator::LessOrEqual)),
            t: Some((1, Comparator::Less)),
        }),
        AstNode::Expression(Predicates {
            e: Some((1, Comparator::Less)),
            a: None,
            v: None,
            t: Some((1, Comparator::GreaterOrEqual)),
        }),
        AstNode::Expression(Predicates {
            e: None,
            a: Some(("foo".to_owned(), Comparator::GreaterOrEqual)),
            v: Some(("bar".to_owned(), Comparator::Contains)),
            t: None,
        }),
    ];

    for (i, q) in qs.iter().enumerate() {
        assert_eq!(asts[i], AstNode::parse(q).unwrap());
    }
}

#[test]
fn parse_or() {
    let qs = ["e=1 | e=2", "e=1 a:foo   |  e=2"];

    let e1 = Predicates::new(Some((1, Comparator::Equal)), None, None, None);
    let e2 = Predicates::new(Some((2, Comparator::Equal)), None, None, None);
    let e2b = Predicates::new(Some((2, Comparator::Equal)), None, None, None);
    let e1afoo = Predicates::new(
        Some((1, Comparator::Equal)),
        Some(("foo".to_owned(), Comparator::Contains)),
        None,
        None,
    );

    let asts = [
        AstNode::Or(
            Box::new(AstNode::Expression(e1)),
            Box::new(AstNode::Expression(e2)),
        ),
        AstNode::Or(
            Box::new(AstNode::Expression(e1afoo)),
            Box::new(AstNode::Expression(e2b)),
        ),
    ];

    for (i, q) in qs.iter().enumerate() {
        assert_eq!(asts[i], AstNode::parse(q).unwrap());
    }
}

#[test]
fn parse_joins() {
    let qs = ["e:(a=foo/bar v=baz)", " e:(e=1)  a:other t=1 "];

    let e0 = Predicates::new(Some((0, Comparator::Contains)), None, None, None);
    let e1 = Predicates::new(Some((1, Comparator::Equal)), None, None, None);
    let e0aothert1 = Predicates::new(
        Some((0, Comparator::Contains)),
        Some(("other".to_owned(), Comparator::Contains)),
        None,
        Some((1, Comparator::Equal)),
    );
    let afoovbaz = Predicates::new(
        None,
        Some(("foo/bar".to_owned(), Comparator::Equal)),
        Some(("baz".to_owned(), Comparator::Equal)),
        None,
    );

    let asts = [
        AstNode::Join(e0, Box::new(AstNode::Expression(afoovbaz))),
        AstNode::Join(e0aothert1, Box::new(AstNode::Expression(e1))),
    ];

    for (i, q) in qs.iter().enumerate() {
        assert_eq!(asts[i], AstNode::parse(q).unwrap());
    }
}

#[test]
fn parse_nested_joins() {
    let q = "e:(e:(a=foo/bar v=baz) a:inside t>10) a:other";

    let e0aother = Predicates::new(
        Some((0, Comparator::Contains)),
        Some(("other".to_owned(), Comparator::Contains)),
        None,
        None,
    );
    let e0ainsidet10 = Predicates::new(
        Some((0, Comparator::Contains)),
        Some(("inside".to_owned(), Comparator::Contains)),
        None,
        Some((10, Comparator::Greater)),
    );
    let afoovbaz = Predicates::new(
        None,
        Some(("foo/bar".to_owned(), Comparator::Equal)),
        Some(("baz".to_owned(), Comparator::Equal)),
        None,
    );

    let ast = AstNode::Join(
        e0aother,
        Box::new(AstNode::Join(
            e0ainsidet10,
            Box::new(AstNode::Expression(afoovbaz)),
        )),
    );

    assert_eq!(ast, AstNode::parse(q).unwrap());
}

#[test]
fn parse_is_pure() {
    let q = "e:(a=foo/bar v=baz) t>=7 | a:x";
    assert_eq!(AstNode::parse(q).unwrap(), AstNode::parse(q).unwrap());
}

#[test]
fn parse_rejects_bad_field() {
    let err = AstNode::parse("x=1").unwrap_err();
    assert_eq!(err.token, "x=1");
}

#[test]
fn parse_rejects_bad_integer() {
    assert!(AstNode::parse("e=abc").is_err());
    assert!(AstNode::parse("t=12x").is_err());
    assert!(AstNode::parse("e=99999999999999999999999999999999").is_err());
}

#[test]
fn parse_rejects_leftover() {
    assert!(AstNode::parse("e=1 )").is_err());
    assert!(AstNode::parse("e:(e=1").is_err());
    assert!(AstNode::parse("a=").is_err());
}

#[test]
fn parse_last_predicate_wins() {
    let ast = AstNode::parse("e=1 e=2").unwrap();
    let want = AstNode::Expression(Predicates::new(
        Some((2, Comparator::Equal)),
        None,
        None,
        None,
    ));
    assert_eq!(want, ast);
}

#[test]
fn from_parser_builds_expression() {
    let preds = vec![
        ("a".to_owned(), "foo".to_owned(), None, Comparator::Equal),
        ("e".to_owned(), "3".to_owned(), None, Comparator::Greater),
        ("z".to_owned(), "skip".to_owned(), None, Comparator::Equal),
    ];
    let want = AstNode::Expression(Predicates::new(
        Some((3, Comparator::Greater)),
        Some(("foo".to_owned(), Comparator::Equal)),
        None,
        None,
    ));
    assert_eq!(want, AstNode::from_parser(preds));
}

#[test]
fn from_parser_builds_join() {
    let child = AstNode::Expression(Predicates::new(None, None, None, None));
    let preds = vec![
        (
            "e".to_owned(),
            String::new(),
            Some(child),
            Comparator::Contains,
        ),
        ("v".to_owned(), "baz".to_owned(), None, Comparator::Equal),
    ];
    let want = AstNode::Join(
        Predicates::new(
            Some((0, Comparator::Contains)),
            None,
            Some(("baz".to_owned(), Comparator::Equal)),
            None,
        ),
        Box::new(AstNode::Expression(Predicates::new(None, None, None, None))),
    );
    assert_eq!(want, AstNode::from_parser(preds));
}

#[test]
fn comparator_tests_integers() {
    assert!(Comparator::Equal.test_int(3, 3));
    assert!(!Comparator::Equal.test_int(3, 4));
    assert!(Comparator::Greater.test_int(5, 4));
    assert!(Comparator::GreaterOrEqual.test_int(4, 4));
    assert!(Comparator::Less.test_int(3, 4));
    assert!(Comparator::LessOrEqual.test_int(3, 4));
    assert!(Comparator::LessOrEqual.test_int(4, 4));
    assert!(!Comparator::LessOrEqual.test_int(5, 4));
    assert!(!Comparator::Contains.test_int(3, 3));
}

#[test]
fn comparator_tests_strings() {
    assert!(Comparator::Contains.test_str("foobar", "oba"));
    assert!(!Comparator::Contains.test_str("foobar", "baz"));
    assert!(Comparator::Contains.test_str("foobar", ""));
    assert!(Comparator::Equal.test_str("abc", "abc"));
    assert!(Comparator::Less.test_str("abc", "abd"));
    assert!(Comparator::Less.test_str("ab", "abc"));
    assert!(!Comparator::Less.test_str("abc", "abc"));
    assert!(Comparator::LessOrEqual.test_str("abc", "abc"));
    assert!(!Comparator::LessOrEqual.test_str("abd", "abc"));
    assert!(Comparator::Greater.test_str("abd", "abc"));
    assert!(Comparator::GreaterOrEqual.test_str("abc", "abc"));
}
