use factstore::ast::AstNode;
use factstore::exec::exec;
use factstore::data::{Datum, Db, Ref};
use factstore::filter::Filter;
use factstore::plan::{Action, IndexedNode, Plan};

#[test]
fn base_query() {
    let ast = AstNode::parse("e=1").unwrap();
    let plan = Plan::new(&ast);
    assert_eq!(vec![vec![0]], plan.stages)
}

#[test]
fn or_query() {
    let ast = AstNode::parse("e=1 | e=2").unwrap();
    let plan = Plan::new(&ast);
    assert_eq!(vec![vec![0, 1], vec![2]], plan.stages)
}

#[test]
fn or_join_query() {
    let ast = AstNode::parse("e:(e=1) | e:(e=2)").unwrap();
    let plan = Plan::new(&ast);
    assert_eq!(vec![vec![0, 2], vec![1, 3], vec![4]], plan.stages)
}

#[test]
fn or_query_task_ids() {
    let ast = AstNode::parse("e=1 | e=2").unwrap();
    let plan = Plan::new(&ast);
    assert_eq!(3, plan.tasks.len());
    assert!(matches!(plan.tasks[0].0, IndexedNode::Base(_)));
    assert!(matches!(plan.tasks[1].0, IndexedNode::Base(_)));
    assert!(matches!(plan.tasks[2].0, IndexedNode::Or(1, 0)));
}

#[test]
fn join_plan_stages() {
    let ast = AstNode::parse("e:(a=foo/bar v=baz)").unwrap();
    let plan = Plan::new(&ast);
    assert_eq!(vec![vec![0], vec![1]], plan.stages);
    assert!(matches!(plan.tasks[0].0, IndexedNode::Base(_)));
    assert!(matches!(plan.tasks[1].0, IndexedNode::Join(_, 0)));
}

#[test]
fn nested_join_plan_stages() {
    let ast = AstNode::parse("e:(e:(a=foo/bar v=baz) a:inside t>10) a:other").unwrap();
    let plan = Plan::new(&ast);
    assert_eq!(vec![vec![0], vec![1], vec![2]], plan.stages)
}

#[test]
fn collect_marks_join_children_and_root() {
    let ast = AstNode::parse("e:(e=1) | e:(e=2)").unwrap();
    let plan = Plan::new(&ast);
    // Join children (ids 0 and 2) and the root (id 4) collect; the join
    // tasks themselves only tag.
    assert!(matches!(plan.tasks[0].1, Action::Collect));
    assert!(matches!(plan.tasks[1].1, Action::Tag));
    assert!(matches!(plan.tasks[2].1, Action::Collect));
    assert!(matches!(plan.tasks[3].1, Action::Tag));
    assert!(matches!(plan.tasks[4].1, Action::Collect));
}

#[test]
fn staged_executor_selects_root_matches() {
    let ast = AstNode::parse("e=1 | e=2").unwrap();
    let db = Db {
        datums: vec![
            Datum::new(1, "x/a", "u", 1),
            Datum::new(2, "x/a", "v", 2),
            Datum::new(3, "x/a", "w", 3),
        ],
        refs: vec![],
        offset: 3,
    };
    let got: Vec<Datum> = exec(&ast, &db).into_iter().cloned().collect();
    assert_eq!(
        vec![Datum::new(1, "x/a", "u", 1), Datum::new(2, "x/a", "v", 2)],
        got
    )
}

#[test]
fn staged_executor_agrees_with_recursive_evaluator() {

    let db = Db {
        datums: vec![
            Datum::new(0, "artist/name", "X", 1),
            Datum::new(1, "album/name", "A", 2),
            Datum::new(2, "album/name", "B", 2),
        ],
        refs: vec![
            Ref::new(1, "album/artist".to_owned(), 0, 2),
            Ref::new(2, "album/artist".to_owned(), 0, 2),
        ],
        offset: 3,
    };
    for q in ["", "e=1", "a:album", "e:(a=artist/name)", "e=0 | e:(a=artist/name)"] {
        let ast = AstNode::parse(q).unwrap();
        let staged: Vec<Datum> = exec(&ast, &db).into_iter().cloned().collect();
        let recursive: Vec<Datum> = Filter::new(&db)
            .execute(&ast)
            .datums
            .into_iter()
            .cloned()
            .collect();
        assert_eq!(staged, recursive);
    }
}
