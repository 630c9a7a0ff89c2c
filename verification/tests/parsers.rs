use rpl::compiler::tokenizer::{Kind, Meta, Name, Of, Token};
use rpl::garbage::parser1;
use rpl::garbage::parser2;
use rpl::garbage::parser3;

fn tok(kind: Kind, name: Name, text: &str) -> Token {
    Token { of: Of { kind, name }, meta: Meta { line: 1, text: text.to_string() } }
}

fn integer(text: &str) -> Token {
    tok(Kind::Number, Name::Integer, text)
}

fn op(name: Name, text: &str) -> Token {
    tok(Kind::Operator, name, text)
}

#[test]
fn parser3_binds_products_tighter_than_sums() {
    let tokens = vec![integer("1"), op(Name::Add, "+"), integer("2"), op(Name::Mul, "*"), integer("3")];
    let ast = parser3::parser(&tokens).unwrap();
    assert_eq!(
        format!("{:?}", ast),
        "Graph([Op2(Add, Integer(\"1\"), Op2(Mul, Integer(\"2\"), Integer(\"3\")))])"
    );
}

#[test]
fn parser3_keeps_points_in_order() {
    let tokens = vec![
        integer("1"),
        tok(Kind::Stop, Name::Newline, "\n"),
        tok(Kind::Word, Name::Word, "a"),
        tok(Kind::Stop, Name::Comma, ","),
        tok(Kind::String, Name::String, "\"s\""),
    ];
    let ast = parser3::parser(&tokens).unwrap();
    assert_eq!(format!("{:?}", ast), "Graph([Integer(\"1\"), Word(\"a\"), String(\"\\\"s\\\"\")])");
}

#[test]
fn parser3_reads_nested_graphs_and_labels() {
    let tokens = vec![
        tok(Kind::Word, Name::Word, "a"),
        op(Name::Label, ":"),
        tok(Kind::Bracket, Name::BracketLF, "{"),
        integer("2"),
        tok(Kind::Bracket, Name::BracketRT, "}"),
    ];
    let ast = parser3::parser(&tokens).unwrap();
    assert_eq!(format!("{:?}", ast), "Graph([Op2(Label, Word(\"a\"), Graph([Integer(\"2\")]))])");
}

#[test]
fn parser3_reports_an_unexpected_token() {
    let tokens = vec![integer("1"), tok(Kind::Paren, Name::ParenRT, ")")];
    let err = parser3::parser(&tokens).unwrap_err();
    assert_eq!(err, "UnexpectedToken: \")\" of Paren:ParenRT on line 1\nExpected token of name: ParenLF");
}

#[test]
fn parser3_reports_the_end_of_input() {
    let tokens = vec![integer("1"), op(Name::Add, "+")];
    let err = parser3::parser(&tokens).unwrap_err();
    assert_eq!(err, "UnexpectedEndOfInput");
}

#[test]
fn parser3_empty_stream_is_an_empty_graph() {
    let ast = parser3::parser(&Vec::new()).unwrap();
    assert_eq!(format!("{:?}", ast), "Graph([])");
}

#[test]
fn parser2_wraps_the_program_in_a_point() {
    let tokens = vec![integer("1"), tok(Kind::Binary, Name::Add, "+"), integer("2")];
    let parse = parser2::parser(&tokens).unwrap();
    assert_eq!(
        format!("{:?}", parse.ast),
        "Point(\"Program\", Thing, 0, false, Graph([Point(\"\", Thing, 0, false, Op2(Add, Integer(\"1\"), Integer(\"2\")))]))"
    );
    assert!(parse.map.parent.is_none());
}

#[test]
fn parser2_reads_labelled_points() {
    let tokens = vec![
        tok(Kind::Word, Name::Label, "a"),
        op(Name::Colon, ":"),
        integer("5"),
        tok(Kind::Stop, Name::Newline, "\n"),
        tok(Kind::Word, Name::Label, "b"),
        tok(Kind::Stop, Name::Semicolon, ";"),
    ];
    let parse = parser2::parser(&tokens).unwrap();
    assert_eq!(
        format!("{:?}", parse.ast),
        "Point(\"Program\", Thing, 0, false, Graph([Point(\"a\", Thing, 0, false, Integer(\"5\")), Point(\"b\", Thing, 1, false, Nothing)]))"
    );
}

#[test]
fn parser2_wants_binary_tokens_for_sums() {
    let tokens = vec![integer("1"), op(Name::Add, "+"), integer("2")];
    let err = parser2::parser(&tokens).err().unwrap();
    assert_eq!(err, "UnexpectedToken: \"+\" of Operator:Add on line 1\nExpected token of kind: Binary");
}

#[test]
fn parser2_reports_the_name_of_a_bad_prefix() {
    let tokens = vec![tok(Kind::Word, Name::Ref, "x")];
    let err = parser2::parser(&tokens).err().unwrap();
    assert_eq!(err, "UnexpectedToken: \"x\" of Word:Ref on line 1\nExpected token of kind: Number");
}

#[test]
fn parser2_takes_ten_points_in_a_list() {
    let mut tokens = Vec::new();
    for i in 0..10 {
        if i > 0 {
            tokens.push(tok(Kind::Stop, Name::Comma, ","));
        }
        tokens.push(integer(&i.to_string()));
    }
    let parse = parser2::parser(&tokens).unwrap();
    let text = format!("{:?}", parse.ast);
    assert!(text.contains("Point(\"\", Thing, 9, false, Integer(\"9\"))"));
    assert_eq!(text.matches("Point(\"\"").count(), 10);
}

#[test]
fn parser3_reads_a_returned_pattern() {
    let tokens = vec![op(Name::Arrow, "->"), integer("1"), op(Name::Pattern, "~"), integer("2")];
    let ast = parser3::parser(&tokens).unwrap();
    assert_eq!(
        format!("{:?}", ast),
        "Graph([Op1(Arrow, Op2(Pattern, Integer(\"1\"), Integer(\"2\")))])"
    );
}

#[test]
fn parser3_wraps_a_leading_arrow_once() {
    let tokens = vec![op(Name::Arrow, "->"), integer("1")];
    let ast = parser3::parser(&tokens).unwrap();
    assert_eq!(format!("{:?}", ast), "Graph([Op1(Arrow, Integer(\"1\"))])");
}

#[test]
fn parser3_checked_gives_none_where_the_parser_panics() {
    let tokens = vec![tok(Kind::Number, Name::Boolean, "true")];
    assert!(parser3::checked_parser(&tokens).is_none());
    let fine = vec![integer("4")];
    let ast = parser3::checked_parser(&fine).unwrap().unwrap();
    assert_eq!(format!("{:?}", ast), "Graph([Integer(\"4\")])");
}

#[test]
fn parser3_checked_gives_none_for_a_product_without_an_operator_token() {
    let tokens = vec![integer("2"), tok(Kind::Binary, Name::Mul, "*"), integer("3")];
    assert!(parser3::checked_parser(&tokens).is_none());
}

#[test]
fn parser3_checked_passes_errors_on() {
    let tokens = vec![integer("1"), op(Name::Add, "+")];
    let err = parser3::checked_parser(&tokens).unwrap().unwrap_err();
    assert_eq!(err, "UnexpectedEndOfInput");
}

#[test]
fn parser2_checked_gives_none_for_an_eleventh_point() {
    let mut tokens = Vec::new();
    for i in 0..11 {
        if i > 0 {
            tokens.push(tok(Kind::Stop, Name::Comma, ","));
        }
        tokens.push(integer(&i.to_string()));
    }
    assert!(parser2::checked_parser(&tokens).is_none());
    tokens.truncate(19);
    assert!(parser2::checked_parser(&tokens).unwrap().is_ok());
}

#[test]
fn parser1_reads_an_empty_program() {
    let tokens: Vec<Token> = vec![];
    let (tys, points) = parser1::parser(&tokens).unwrap();
    assert!(points.is_empty());
    let program = parser1::program_point(&tys, points);
    assert_eq!(format!("{:?}", program), "Point(Graph([]), \"Program\", 0, false, Graph(Graph([]), []))");
}

#[test]
fn parser1_reads_declared_labels() {
    let tokens = vec![
        tok(Kind::Word, Name::Label, "a"),
        tok(Kind::Stop, Name::Semicolon, ";"),
        tok(Kind::Word, Name::Label, "b"),
        tok(Kind::Stop, Name::Semicolon, ";"),
    ];
    let (_, points) = parser1::parser(&tokens).unwrap();
    assert_eq!(points.len(), 2);
    assert!(points.iter().all(|p| matches!(p, parser1::AST::Nothing)));
}

