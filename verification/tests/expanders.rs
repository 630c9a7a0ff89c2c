use rpl::compiler::tokenizer::Name;
use rpl::garbage::expand1;
use rpl::garbage::expand2;
use rpl::garbage::parser1::{Format, Type, AST};
use rpl::garbage::parser3::Ast as Parsed;
use rpl::garbage::reducer1::{self, Char, Number, Typ};
use rpl::garbage::syntax::Ast;

fn b(x: Ast) -> Box<Ast> {
    Box::new(x)
}

fn integer(s: &str) -> Ast {
    Ast::Integer(s.to_string())
}

fn key(label: &str, point: Ast) -> Ast {
    Ast::Key(label.to_string(), b(point))
}

#[test]
fn expand1_flattens_a_chain_of_labels() {
    let tree = Ast::Graph(vec![key("a", key("b", integer("1"))), integer("2")]);
    let out = expand1::normalize(&tree).unwrap();
    assert_eq!(
        format!("{:?}", out),
        "Graph([Key(\"a\", Integer(\"1\")), Key(\"b\", Integer(\"1\")), Integer(\"2\")])"
    );
}

#[test]
fn expand1_flattens_returned_points() {
    let tree = Ast::Graph(vec![Ast::Ret(b(key("r", integer("3"))))]);
    let out = expand1::normalize(&tree).unwrap();
    assert_eq!(format!("{:?}", out), "Graph([Ret(Integer(\"3\")), Key(\"r\", Integer(\"3\"))])");
}

#[test]
fn expand1_leaves_plain_points_alone() {
    let tree = Ast::Graph(vec![
        integer("1"),
        Ast::Op2(Name::Add, b(Ast::Ref("x".to_string())), b(Ast::Decimal("2.5".to_string()))),
        Ast::Space(vec![Ast::String("s".to_string()), Ast::Nothing]),
    ]);
    let out = expand1::normalize(&tree).unwrap();
    assert_eq!(format!("{:?}", out), format!("{:?}", tree));
}

#[test]
fn expand1_refuses_sizes() {
    let tree = Ast::Graph(vec![Ast::Size(Name::I32)]);
    assert_eq!(expand1::normalize(&tree).unwrap_err(), "No map match defined for Size(I32)");
}

#[test]
fn expand2_gives_back_nothing() {
    let tree = Ast::Graph(vec![
        key("a", Ast::Graph(vec![key("x", integer("1"))])),
        Ast::Apply(b(Ast::Ref("a".to_string())), b(Ast::Graph(vec![key("x", integer("2")), integer("3")]))),
    ]);
    let out = expand2::normalize(&tree).unwrap();
    assert_eq!(format!("{:?}", out), "Nothing");
}

#[test]
fn expand2_gives_back_nothing_after_a_refusal() {
    let tree = Ast::Graph(vec![Ast::Apply(b(integer("1")), b(Ast::Graph(vec![])))]);
    let out = expand2::normalize(&tree).unwrap();
    assert_eq!(format!("{:?}", out), "Nothing");
}

#[test]
fn reducer1_refuses_every_tree() {
    let graph = Parsed::Graph(vec![]);
    assert_eq!(reducer1::reducer(&graph).err().unwrap(), "hello there from reducer");
    let other = Parsed::Integer("1".to_string());
    assert_eq!(reducer1::reducer(&other).err().unwrap(), "hello there from reducer");
}

#[test]
fn formats_and_types_print_their_names() {
    let t = Typ::Graph(vec![Typ::Number(Number::I32), Typ::String(Char::C8), Typ::Nothing]);
    assert_eq!(format!("{:?}", t), "Graph([Number(I32), String(C8), Nothing])");
    let ty = Type::Array(Box::new(Type::Number(Format::U8)));
    let ast = AST::Number(&ty, "1".to_string());
    assert_eq!(format!("{:?}", ast), "Number(Array(Number(U8)), \"1\")");
}

