use rpl::compiler::tokenizer::Name;
use rpl::garbage::expander3::{expander, Ast};

fn b(x: Ast) -> Box<Ast> {
    Box::new(x)
}

fn number(s: &str) -> Ast {
    Ast::Integer(s.to_string())
}

fn key(label: &str, point: Ast) -> Ast {
    Ast::Key(label.to_string(), b(point))
}

fn reference(label: &str) -> Ast {
    Ast::Ref(label.to_string())
}

#[test]
fn expander3_binds_keys_with_their_environment() {
    let tree = Ast::Graph(vec![key("a", number("1"))]);
    let (out, maps) = expander(&tree).unwrap();
    assert_eq!(format!("{:?}", out), "Graph([Key(\"a\", Integer(\"1\"))])");
    assert_eq!(maps.len(), 2);
    let entry = maps[1].get(&"a".to_string()).unwrap();
    assert_eq!(entry.0, 1);
    assert_eq!(format!("{:?}", entry.1), "Integer(\"1\")");
    let link = maps[1].get(&"<parent>".to_string()).unwrap();
    assert_eq!(link.0, 0);
}

#[test]
fn expander3_applies_a_modifier_to_a_source_graph() {
    let tree = Ast::Graph(vec![
        key("base", Ast::Graph(vec![key("x", number("1")), key("y", number("2"))])),
        Ast::Apply(b(reference("base")), b(Ast::Graph(vec![key("y", number("5"))]))),
    ]);
    let (out, _) = expander(&tree).unwrap();
    assert_eq!(
        format!("{:?}", out),
        "Graph([Key(\"base\", Graph([Key(\"x\", Integer(\"1\")), Key(\"y\", Integer(\"2\"))])), Graph([Key(\"x\", Integer(\"1\")), Key(\"y\", Integer(\"5\"))])])"
    );
}

#[test]
fn expander3_refuses_a_modifier_point_missing_from_the_source() {
    let tree = Ast::Graph(vec![
        key("base", Ast::Graph(vec![key("x", number("1"))])),
        Ast::Apply(b(reference("base")), b(Ast::Graph(vec![key("z", number("5"))]))),
    ]);
    assert_eq!(
        expander(&tree).unwrap_err(),
        "Key(\"z\", Integer(\"5\")) does not exist in [Key(\"x\", Integer(\"1\"))]"
    );
}

#[test]
fn expander3_refuses_an_application_of_an_undefined_label() {
    let tree = Ast::Graph(vec![Ast::Apply(b(reference("nope")), b(Ast::Graph(vec![])))]);
    assert_eq!(expander(&tree).unwrap_err(), "Point nope is undefined");
}

#[test]
fn expander3_refuses_an_application_of_a_non_reference() {
    let tree = Ast::Graph(vec![Ast::Apply(b(number("1")), b(Ast::Graph(vec![])))]);
    assert_eq!(expander(&tree).unwrap_err(), "Integer(\"1\") is not a Reference");
}

#[test]
fn expander3_selection_checks_its_left_side() {
    let tree = Ast::Graph(vec![
        key("a", Ast::Graph(vec![key("x", number("1"))])),
        Ast::Op2(Name::Select, b(reference("a")), b(reference("x"))),
    ]);
    let (out, _) = expander(&tree).unwrap();
    assert_eq!(
        format!("{:?}", out),
        "Graph([Key(\"a\", Graph([Key(\"x\", Integer(\"1\"))])), Nothing])"
    );
    let bad = Ast::Graph(vec![Ast::Op2(Name::Select, b(reference("q")), b(reference("x")))]);
    assert_eq!(expander(&bad).unwrap_err(), "Point q is undefined");
}

#[test]
fn expander3_keeps_other_operators_and_spaces() {
    let tree = Ast::Graph(vec![
        Ast::Op2(Name::Add, b(number("1")), b(number("2"))),
        Ast::Op1(Name::Sub, b(reference("r"))),
        Ast::Space(vec![Ast::Size(Name::I32), Ast::Op0(Name::U8)]),
    ]);
    let (out, _) = expander(&tree).unwrap();
    assert_eq!(format!("{:?}", out), format!("{:?}", tree));
}
