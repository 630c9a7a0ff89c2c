use rpl::compiler::ast::Ast as Tree;
use rpl::compiler::expander::{expander, Maps};
use rpl::compiler::normalize::normalize;
use rpl::compiler::reducer::reducer;
use rpl::compiler::tokenizer::Name;
use rpl::compiler::typer::typer;
use rpl::env::Env;
use rpl::garbage::parser3::Ast;

fn b<T>(x: T) -> Box<T> {
    Box::new(x)
}

fn integer(s: &str) -> Ast {
    Ast::Integer(s.to_string())
}

#[test]
fn normalize_keeps_a_normal_tree() {
    let tree = Ast::Graph(vec![
        Ast::Op2(Name::Label, b(Ast::Word("a".to_string())), b(integer("1"))),
        Ast::Op2(Name::Add, b(integer("2")), b(Ast::Graph(vec![integer("3")]))),
    ]);
    let out = normalize(&tree).unwrap();
    assert_eq!(format!("{:?}", out), format!("{:?}", tree));
    let again = normalize(&out).unwrap();
    assert_eq!(format!("{:?}", again), format!("{:?}", out));
}

#[test]
fn normalize_refuses_a_label_that_is_not_a_word() {
    let tree = Ast::Op2(Name::Label, b(integer("1")), b(integer("2")));
    assert_eq!(normalize(&tree).unwrap_err(), "Invalid label $Integer(\"1\")");
}

#[test]
fn normalize_refuses_prefix_operators_spaces_and_words() {
    let op1 = Ast::Op1(Name::Sub, b(integer("1")));
    assert_eq!(normalize(&op1).unwrap_err(), "No match defined for Op1 Sub");
    let space = Ast::Space(vec![]);
    assert_eq!(normalize(&space).unwrap_err(), "No match defined for Space []");
    let word = Ast::Graph(vec![integer("1"), Ast::Word("x".to_string())]);
    assert_eq!(normalize(&word).unwrap_err(), "No match defined for Word(\"x\")");
}

#[test]
fn expander_numbers_graphs_and_binds_keys() {
    let tree = Tree::Graph(0, vec![Tree::Key("a".to_string(), b(Tree::Integer("1".to_string())))]);
    let (out, maps) = expander(&tree).unwrap();
    assert_eq!(format!("{:?}", out), "Graph(1, [Key(\"a\", Integer(\"1\"))])");
    assert_eq!(maps.len(), 2);
    let bound = maps[1].get(&"a".to_string()).unwrap();
    assert_eq!(format!("{:?}", bound), "Integer(\"1\")");
    let parent = maps[1].get(&"<parent>".to_string()).unwrap();
    assert_eq!(format!("{:?}", parent), "Parent(0)");
}

#[test]
fn expander_refuses_an_undefined_reference() {
    let tree = Tree::Graph(0, vec![Tree::Ref(0, "x".to_string())]);
    assert_eq!(expander(&tree).unwrap_err(), "Point x is undefined");
}

#[test]
fn expander_resolves_a_reference_to_an_outer_label() {
    let tree = Tree::Graph(
        0,
        vec![
            Tree::Key("a".to_string(), b(Tree::Integer("1".to_string()))),
            Tree::Graph(0, vec![Tree::Ref(0, "a".to_string())]),
        ],
    );
    let (out, _) = expander(&tree).unwrap();
    assert_eq!(format!("{:?}", out), "Graph(1, [Key(\"a\", Integer(\"1\")), Graph(2, [Ref(2, \"a\")])])");
}

#[test]
fn reducer_lays_out_a_sum() {
    let tree = Tree::Graph(
        0,
        vec![Tree::Op2(Name::Add, b(Tree::Integer("1".to_string())), b(Tree::Integer("2".to_string())))],
    );
    let maps: Maps = Vec::new();
    assert_eq!(reducer(&tree, &maps).unwrap(), 4);
}

#[test]
fn reducer_looks_through_keys() {
    let tree = Tree::Graph(0, vec![Tree::Key("a".to_string(), b(Tree::Integer("7".to_string())))]);
    let maps: Maps = Vec::new();
    assert_eq!(reducer(&tree, &maps).unwrap(), 1);
}

#[test]
fn reducer_refuses_strings() {
    let tree = Tree::Graph(0, vec![Tree::String("s".to_string())]);
    let maps: Maps = Vec::new();
    assert_eq!(reducer(&tree, &maps).unwrap_err(), "No reduce match defined for String(\"s\")");
}

#[test]
fn typer_gives_one_empty_point_and_the_maps_back() {
    let mut env = Env::new();
    env.insert("a".to_string(), Tree::Nothing);
    let maps: Maps = vec![env];
    let (fast, back) = typer(&Tree::Nothing, maps).unwrap();
    assert_eq!(fast.len(), 1);
    assert_eq!(format!("{:?}", fast[0]), "Nothing");
    assert_eq!(back.len(), 1);
    assert!(back[0].get(&"a".to_string()).is_some());
}

#[test]
fn env_later_binding_wins() {
    let mut env: Env<u32> = Env::new();
    assert!(env.get(&"k".to_string()).is_none());
    env.insert("k".to_string(), 1);
    env.insert("j".to_string(), 2);
    env.insert("k".to_string(), 3);
    assert_eq!(env.get(&"k".to_string()), Some(&3));
    assert_eq!(env.get(&"j".to_string()), Some(&2));
}

#[test]
fn expander_applies_a_modifier_to_a_source_graph() {
    let one = Tree::Integer("1".to_string());
    let two = Tree::Integer("2".to_string());
    let five = Tree::Integer("5".to_string());
    let base = Tree::Graph(0, vec![Tree::Key("x".to_string(), b(one)), Tree::Key("y".to_string(), b(two))]);
    let tree = Tree::Graph(
        0,
        vec![
            Tree::Key("base".to_string(), b(base)),
            Tree::Apply(
                b(Tree::Ref(0, "base".to_string())),
                b(Tree::Graph(0, vec![Tree::Key("y".to_string(), b(five))])),
            ),
        ],
    );
    let (out, maps) = expander(&tree).unwrap();
    assert_eq!(
        format!("{:?}", out),
        "Graph(1, [Key(\"base\", Graph(2, [Key(\"x\", Integer(\"1\")), Key(\"y\", Integer(\"2\"))])), Graph(3, [Key(\"x\", Integer(\"1\")), Key(\"y\", Integer(\"5\"))])])"
    );
    assert_eq!(maps.len(), 4);
}

#[test]
fn expander_numbers_nested_graphs_in_rising_order_linked_back() {
    let leaf = || Tree::Graph(0, vec![]);
    let tree = Tree::Graph(0, vec![Tree::Graph(0, vec![leaf()]), leaf()]);
    let (out, maps) = expander(&tree).unwrap();
    assert_eq!(format!("{:?}", out), "Graph(1, [Graph(2, [Graph(3, [])]), Graph(4, [])])");
    assert_eq!(maps.len(), 5);
    let link = |i: usize| format!("{:?}", maps[i].get(&"<parent>".to_string()).unwrap());
    assert_eq!(link(1), "Parent(0)");
    assert_eq!(link(2), "Parent(1)");
    assert_eq!(link(3), "Parent(2)");
    assert_eq!(link(4), "Parent(1)");
}

#[test]
fn expander_resolves_a_selection_in_the_selected_graph() {
    let inner = Tree::Graph(0, vec![Tree::Key("x".to_string(), b(Tree::Integer("1".to_string())))]);
    let tree = Tree::Graph(
        0,
        vec![
            Tree::Key("g".to_string(), b(inner)),
            Tree::Op2(Name::Select, b(Tree::Ref(0, "g".to_string())), b(Tree::Ref(0, "x".to_string()))),
        ],
    );
    let (out, maps) = expander(&tree).unwrap();
    assert_eq!(
        format!("{:?}", out),
        "Graph(1, [Key(\"g\", Graph(2, [Key(\"x\", Integer(\"1\"))])), Ref(2, \"x\")])"
    );
    assert!(maps[2].get(&"x".to_string()).is_some());
}

#[test]
fn reducer_returns_the_last_of_the_points_it_lays_down() {
    let tree = Tree::Graph(
        0,
        vec![
            Tree::Op2(Name::Add, b(Tree::Integer("1".to_string())), b(Tree::Integer("2".to_string()))),
            Tree::Integer("3".to_string()),
        ],
    );
    let maps: Maps = Vec::new();
    assert_eq!(reducer(&tree, &maps).unwrap(), 5);
}

#[test]
fn reducer_reads_signed_literals() {
    let tree = Tree::Graph(0, vec![Tree::Integer("+7".to_string()), Tree::Integer("-8".to_string())]);
    let maps: Maps = Vec::new();
    assert_eq!(reducer(&tree, &maps).unwrap(), 2);
}

#[test]
fn expander_links_a_labelled_graph_to_the_graph_that_holds_it() {
    let tree = Tree::Graph(0, vec![Tree::Key("a".to_string(), b(Tree::Graph(0, vec![])))]);
    let (out, maps) = expander(&tree).unwrap();
    assert_eq!(format!("{:?}", out), "Graph(1, [Key(\"a\", Graph(2, []))])");
    assert_eq!(format!("{:?}", maps[2].get(&"<parent>".to_string()).unwrap()), "Parent(1)");
    assert!(maps[1].get(&"a".to_string()).is_some());
}
