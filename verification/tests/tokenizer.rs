use rpl::compiler::listing::token_string;
use rpl::compiler::tokenizer::{lex_push_exec, tokenizer, Kind, LexFlags, Meta, Name, Of, Token};

fn summary(tokens: &Vec<Token>) -> Vec<(Kind, Name, u32, String)> {
    tokens
        .iter()
        .map(|t| (t.of.kind, t.of.name, t.meta.line, t.meta.text.clone()))
        .collect()
}

#[test]
fn tokenizes_an_expression() {
    let tokens = tokenizer(&"a + 1".to_string()).unwrap();
    assert_eq!(
        summary(&tokens),
        vec![
            (Kind::Word, Name::Ref, 1, "a".to_string()),
            (Kind::Operator, Name::Add, 1, "+".to_string()),
            (Kind::Number, Name::Integer, 1, "1".to_string()),
        ]
    );
}

#[test]
fn tokenizes_a_key_and_a_decimal() {
    let tokens = tokenizer(&"width: 1.5".to_string()).unwrap();
    assert_eq!(
        summary(&tokens),
        vec![
            (Kind::Word, Name::Key, 1, "width:".to_string()),
            (Kind::Number, Name::Decimal, 1, "1.5".to_string()),
        ]
    );
}

#[test]
fn tokenizes_a_string() {
    let tokens = tokenizer(&"\"hi there\"".to_string()).unwrap();
    assert_eq!(summary(&tokens), vec![(Kind::String, Name::String, 1, "\"hi there\"".to_string())]);
}

#[test]
fn leading_newlines_are_dropped_and_runs_collapse() {
    let tokens = tokenizer(&"\n\na\n\nb".to_string()).unwrap();
    assert_eq!(
        summary(&tokens),
        vec![
            (Kind::Word, Name::Ref, 3, "a".to_string()),
            (Kind::Stop, Name::Newline, 3, "\n".to_string()),
            (Kind::Word, Name::Ref, 5, "b".to_string()),
        ]
    );
}

#[test]
fn comments_and_blanks_are_skipped() {
    let tokens = tokenizer(&"a // note\n  b /* x */".to_string()).unwrap();
    assert_eq!(
        summary(&tokens),
        vec![
            (Kind::Word, Name::Ref, 1, "a".to_string()),
            (Kind::Stop, Name::Newline, 1, "\n".to_string()),
            (Kind::Word, Name::Ref, 2, "b".to_string()),
        ]
    );
}

#[test]
fn no_newline_follows_an_operator_or_an_opening_bracket() {
    let tokens = tokenizer(&"a +\n b\n{\n c\n}".to_string()).unwrap();
    for (i, t) in tokens.iter().enumerate() {
        assert_ne!(t.of.kind, Kind::Skip);
        if t.of.name == Name::Newline {
            assert!(i > 0);
            let before = &tokens[i - 1];
            assert_ne!(before.of.name, Name::Newline);
            assert_ne!(before.of.kind, Kind::Operator);
            assert_ne!(before.of.name, Name::BracketLF);
        }
    }
    assert_eq!(tokens.last().unwrap().of.name, Name::BracketRT);
}

#[test]
fn lines_never_decrease() {
    let tokens = tokenizer(&"a\nb\n\nc, d\ne".to_string()).unwrap();
    for pair in tokens.windows(2) {
        assert!(pair[0].meta.line <= pair[1].meta.line);
    }
}

#[test]
fn empty_input_gives_no_tokens() {
    assert_eq!(tokenizer(&String::new()).unwrap().len(), 0);
}

#[test]
fn lists_one_line_per_token() {
    let tokens = tokenizer(&"a + 1".to_string()).unwrap();
    let listing = token_string(&tokens);
    assert_eq!(listing.lines().count(), 3);
    let first = format!("Word{}Ref{}1{}\"a\"", " ".repeat(9), " ".repeat(10), " ".repeat(4));
    assert_eq!(listing.lines().next().unwrap(), first);
}

#[test]
fn not_equal_is_one_operator() {
    let tokens = tokenizer(&"a != b".to_string()).unwrap();
    assert_eq!(
        summary(&tokens),
        vec![
            (Kind::Word, Name::Ref, 1, "a".to_string()),
            (Kind::Operator, Name::Ne, 1, "!=".to_string()),
            (Kind::Word, Name::Ref, 1, "b".to_string()),
        ]
    );
}

#[test]
fn a_lone_bang_is_the_sizer() {
    let tokens = tokenizer(&"!a".to_string()).unwrap();
    assert_eq!(
        summary(&tokens),
        vec![
            (Kind::Operator, Name::Sizer, 1, "!".to_string()),
            (Kind::Word, Name::Ref, 1, "a".to_string()),
        ]
    );
}

#[test]
fn dollar_is_the_shape_operator() {
    let tokens = tokenizer(&"$".to_string()).unwrap();
    assert_eq!(summary(&tokens), vec![(Kind::Operator, Name::Shape, 1, "$".to_string())]);
}

#[test]
fn a_block_comment_over_two_lines_advances_the_line() {
    let tokens = tokenizer(&"/*\n*/a".to_string()).unwrap();
    assert_eq!(summary(&tokens), vec![(Kind::Word, Name::Ref, 2, "a".to_string())]);
}

#[test]
fn line_feeds_in_comments_and_breaks_add_up() {
    let tokens = tokenizer(&"a\n/* x\n\n y */ b".to_string()).unwrap();
    assert_eq!(
        summary(&tokens),
        vec![
            (Kind::Word, Name::Ref, 1, "a".to_string()),
            (Kind::Stop, Name::Newline, 1, "\n".to_string()),
            (Kind::Word, Name::Ref, 4, "b".to_string()),
        ]
    );
}

#[test]
fn listing_of_joined_streams_is_the_joined_listings() {
    let a = tokenizer(&"a + 1".to_string()).unwrap();
    let b = tokenizer(&"\"x\ny\" b".to_string()).unwrap();
    let mut both = a.clone();
    both.extend(b.iter().cloned());
    let joined = token_string(&both);
    assert_eq!(joined, token_string(&a) + &token_string(&b));
    assert_eq!(joined.matches('\n').count(), both.len());
    assert_eq!(token_string(&vec![]), "");
}

fn token(kind: Kind, name: Name, text: &str) -> Token {
    Token { of: Of { kind, name }, meta: Meta { line: 1, text: text.to_string() } }
}

#[test]
fn a_line_break_before_an_operator_is_dropped() {
    let mut tokens: Vec<Token> = Vec::new();
    let mut flags = LexFlags { skip_initial_newlines: true, last_newline: false, last_comma: false, last_operator: false };
    lex_push_exec(&mut tokens, &mut flags, token(Kind::Word, Name::Ref, "a"));
    lex_push_exec(&mut tokens, &mut flags, token(Kind::Stop, Name::Newline, "\n"));
    assert_eq!(tokens.len(), 2);
    assert!(flags.last_newline);
    lex_push_exec(&mut tokens, &mut flags, token(Kind::Operator, Name::Add, "+"));
    assert_eq!(summary(&tokens), vec![
        (Kind::Word, Name::Ref, 1, "a".to_string()),
        (Kind::Operator, Name::Add, 1, "+".to_string()),
    ]);
    assert!(flags.last_operator);
}

#[test]
fn a_string_over_two_lines_leaves_the_line_count() {
    let tokens = tokenizer(&"\"x\ny\" b".to_string()).unwrap();
    assert_eq!(
        summary(&tokens),
        vec![
            (Kind::String, Name::String, 1, "\"x\ny\"".to_string()),
            (Kind::Word, Name::Ref, 1, "b".to_string()),
        ]
    );
}
