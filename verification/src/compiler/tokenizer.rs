//! Splits source text into tokens, using an ordered table of regular
//! expressions, and folds line breaks, commas and operators so that a
//! parser sees at most one statement separator between two points.
use regex::Regex;
use vstd::prelude::*;
use vstd::string::StringSliceAdditionalSpecFns;
use vstd::utf8::*;

verus! {

broadcast use {vstd::utf8::encode_utf8_decode_utf8, vstd::utf8::encode_utf8_valid_utf8};

#[derive(Debug, Clone, Copy, PartialEq, Eq, Structural)]
pub enum Kind {
    Invalid,
    Skip,
    Stop,
    Operator,
    Word,
    Size,
    String,
    Number,
    Clock,
    Paren,
    Squaren,
    Bracket,
    /// Binary operator kind; the parsers in `garbage` expect it, the rule table never yields it.
    Binary,
}

#[derive(Debug, Clone, Copy, PartialEq, Eq, Structural)]
pub enum Metric {
    Tera,
    Giga,
    Mega,
    Kilo,
    Hecto,
    Deca,
    Base,
    Deci,
    Centi,
    Milli,
    Micro,
    Nano,
    Pico,
}

#[derive(Debug, Clone, Copy, PartialEq, Eq, Structural)]
pub enum Name {
    Invalid,
    /// comments, blanks, carriage returns
    Skip,
    Newline,
    Comma,
    Semicolon,
    /// `~` and `::`
    Pattern,
    /// `?`
    Signal,
    /// `!`
    Sizer,
    Or,
    And,
    Not,
    Add,
    Sub,
    Mul,
    Div,
    Exp,
    Eq,
    Ne,
    Gt,
    Lt,
    Ge,
    Le,
    /// `$`
    Shape,
    /// `#`
    Index,
    /// `.`
    Select,
    /// `..`
    Bleed,
    /// `->`
    Arrow,
    Word,
    /// a label followed by `;`
    Las,
    /// a label followed by `:`
    Key,
    Sym,
    Ref,
    Reserved,
    String,
    Integer,
    Decimal,
    Boolean,
    ParenLF,
    ParenRT,
    SquarenLF,
    SquarenRT,
    BracketLF,
    BracketRT,
    Second(Metric),
    I8,
    I16,
    I32,
    I64,
    I128,
    U8,
    U16,
    U32,
    U64,
    U128,
    F32,
    F64,
    F128,
    C8,
    C16,
    C32,
    /// Label operator; consumed by the parsers in `garbage`, never produced by the rule table.
    Label,
    /// `:`; consumed by the parsers in `garbage`, never produced by the rule table.
    Colon,
    /// Range operator; consumed by the parsers in `garbage`, never produced by the rule table.
    Range,
    /// Length operator; consumed by the parsers in `garbage`, never produced by the rule table.
    Length,
}

#[derive(Debug, Clone, PartialEq)]
pub struct Meta {
    pub line: u32,
    pub text: String,
}

#[derive(Debug, Clone, PartialEq)]
pub struct Of {
    pub kind: Kind,
    pub name: Name,
}

#[derive(Debug, Clone, PartialEq)]
pub struct Token {
    pub of: Of,
    pub meta: Meta,
}

/// What a token holds, with its text as a sequence of characters.
pub struct TokenView {
    pub kind: Kind,
    pub name: Name,
    pub line: nat,
    pub text: Seq<char>,
}

impl View for Token {
    type V = TokenView;

    open spec fn view(&self) -> TokenView {
        TokenView { kind: self.of.kind, name: self.of.name, line: self.meta.line as nat, text: self.meta.text@ }
    }
}

pub open spec fn tokens_view(ts: Seq<Token>) -> Seq<TokenView> {
    ts.map_values(|t: Token| t@)
}

impl Token {
    /// A copy of the token.
    pub fn duplicate(&self) -> (r: Token)
        ensures
            r == *self,
    {
        Token {
            of: Of { kind: self.of.kind, name: self.of.name },
            meta: Meta { line: self.meta.line, text: self.meta.text.clone() },
        }
    }
}

/// The number of rules in the tokenizer's table.
pub const RULE_COUNT: usize = 76;

/// The tokenizer's table: kind, name and pattern of each rule, tried in order.
pub open spec fn spec_rule(i: usize) -> (Kind, Name, Seq<char>) {
    match i {
        0 => (Kind::Skip, Name::Skip, r"^\r"@),
        1 => (Kind::Skip, Name::Skip, r"^[[:blank:]]+"@),
        2 => (Kind::Skip, Name::Skip, r"^//.*"@),
        3 => (Kind::Skip, Name::Skip, r"^/\*[\s\S]*?\*/"@),
        4 => (Kind::Stop, Name::Newline, r"^\n"@),
        5 => (Kind::Stop, Name::Comma, r"^,"@),
        6 => (Kind::Size, Name::I8, r"^i8\b"@),
        7 => (Kind::Size, Name::I16, r"^i16\b"@),
        8 => (Kind::Size, Name::I32, r"^i32\b"@),
        9 => (Kind::Size, Name::I64, r"^i64\b"@),
        10 => (Kind::Size, Name::I128, r"^i128\b"@),
        11 => (Kind::Size, Name::U8, r"^u8\b"@),
        12 => (Kind::Size, Name::U16, r"^u16\b"@),
        13 => (Kind::Size, Name::U32, r"^u32\b"@),
        14 => (Kind::Size, Name::U64, r"^u64\b"@),
        15 => (Kind::Size, Name::U128, r"^u128\b"@),
        16 => (Kind::Size, Name::C8, r"^c8\b"@),
        17 => (Kind::Size, Name::C16, r"^c16\b"@),
        18 => (Kind::Size, Name::C32, r"^c32\b"@),
        19 => (Kind::Size, Name::F32, r"^f32\b"@),
        20 => (Kind::Size, Name::F64, r"^f64\b"@),
        21 => (Kind::Word, Name::Reserved, r"^if\b"@),
        22 => (Kind::Word, Name::Reserved, r"^else\b"@),
        23 => (Kind::Operator, Name::Pattern, r"^::"@),
        24 => (Kind::Word, Name::Key, r"^[A-Za-z'_][A-Za-z0-9'_]*:"@),
        25 => (Kind::Word, Name::Key, r"^[$#|&=`><*/^+-]+:"@),
        26 => (Kind::Word, Name::Las, r"^[A-Za-z'_][A-Za-z0-9'_]*;"@),
        27 => (Kind::Word, Name::Las, r"^[$#|&=`><*/^+-]+;"@),
        28 => (Kind::Word, Name::Ref, r"^[A-Za-z'_][A-Za-z0-9'_]*"@),
        29 => (Kind::Clock, Name::Second(Metric::Tera), r"^[0-9]+Ts"@),
        30 => (Kind::Clock, Name::Second(Metric::Giga), r"^[0-9]+Gs"@),
        31 => (Kind::Clock, Name::Second(Metric::Mega), r"^[0-9]+Ms"@),
        32 => (Kind::Clock, Name::Second(Metric::Kilo), r"^[0-9]+Ks"@),
        33 => (Kind::Clock, Name::Second(Metric::Hecto), r"^[0-9]+Hs"@),
        34 => (Kind::Clock, Name::Second(Metric::Deca), r"^[0-9]+Ds"@),
        35 => (Kind::Clock, Name::Second(Metric::Base), r"^[0-9]+s"@),
        36 => (Kind::Clock, Name::Second(Metric::Deci), r"^[0-9]+ds"@),
        37 => (Kind::Clock, Name::Second(Metric::Centi), r"^[0-9]+cs"@),
        38 => (Kind::Clock, Name::Second(Metric::Milli), r"^[0-9]+ms"@),
        39 => (Kind::Clock, Name::Second(Metric::Micro), r"^[0-9]+[uμ]s"@),
        40 => (Kind::Clock, Name::Second(Metric::Nano), r"^[0-9]+ns"@),
        41 => (Kind::Clock, Name::Second(Metric::Pico), r"^[0-9]+ps"@),
        42 => (Kind::Number, Name::Decimal, r"^[0-9]+\.[0-9]*"@),
        43 => (Kind::Number, Name::Decimal, r"^[0-9]*\.[0-9]+"@),
        44 => (Kind::Number, Name::Integer, r"^[0-9']+"@),
        45 => (Kind::Number, Name::Boolean, r"^(false|true)\b"@),
        46 => (Kind::Operator, Name::Pattern, r"^~"@),
        47 => (Kind::Operator, Name::Arrow, r"^(->|→)"@),
        48 => (Kind::Operator, Name::Bleed, r"^\.\."@),
        49 => (Kind::Operator, Name::Select, r"^[.]"@),
        50 => (Kind::Operator, Name::Signal, r"^\?"@),
        51 => (Kind::Operator, Name::Ne, r"^(!=)"@),
        52 => (Kind::Operator, Name::Sizer, r"^!"@),
        53 => (Kind::Operator, Name::Shape, r"^\$"@),
        54 => (Kind::Operator, Name::Index, r"^#"@),
        55 => (Kind::Operator, Name::Or, r"^[|]"@),
        56 => (Kind::Operator, Name::And, r"^[&]"@),
        57 => (Kind::Operator, Name::Not, r"^[`]"@),
        58 => (Kind::Operator, Name::Eq, r"^((==)|(=))"@),
        59 => (Kind::Operator, Name::Ge, r"^(>=)"@),
        60 => (Kind::Operator, Name::Le, r"^(<=)"@),
        61 => (Kind::Operator, Name::Gt, r"^(>)"@),
        62 => (Kind::Operator, Name::Lt, r"^(<)"@),
        63 => (Kind::Operator, Name::Add, r"^(\+)"@),
        64 => (Kind::Operator, Name::Sub, r"^(-)"@),
        65 => (Kind::Operator, Name::Mul, r"^(\*)"@),
        66 => (Kind::Operator, Name::Div, r"^(/)"@),
        67 => (Kind::Operator, Name::Exp, r"^(\^)"@),
        68 => (Kind::Paren, Name::ParenLF, r"^\("@),
        69 => (Kind::Paren, Name::ParenRT, r"^\)"@),
        70 => (Kind::Squaren, Name::SquarenLF, r"^\["@),
        71 => (Kind::Squaren, Name::SquarenRT, r"^\]"@),
        72 => (Kind::Bracket, Name::BracketLF, r"^\{"@),
        73 => (Kind::Bracket, Name::BracketRT, r"^\}"@),
        74 => (Kind::String, Name::String, r#"^"[^"]*("|$)"#@),
        75 => (Kind::Invalid, Name::Invalid, r"^."@),
        _ => (Kind::Invalid, Name::Invalid, r"^."@),
    }
}

/// The `i`-th rule of the tokenizer's table.
pub fn rule(i: usize) -> (r: (Kind, Name, &'static str))
    requires
        i < RULE_COUNT,
    ensures
        (r.0, r.1, r.2@) == spec_rule(i),
{
    match i {
        0 => (Kind::Skip, Name::Skip, r"^\r"),
        1 => (Kind::Skip, Name::Skip, r"^[[:blank:]]+"),
        2 => (Kind::Skip, Name::Skip, r"^//.*"),
        3 => (Kind::Skip, Name::Skip, r"^/\*[\s\S]*?\*/"),
        4 => (Kind::Stop, Name::Newline, r"^\n"),
        5 => (Kind::Stop, Name::Comma, r"^,"),
        6 => (Kind::Size, Name::I8, r"^i8\b"),
        7 => (Kind::Size, Name::I16, r"^i16\b"),
        8 => (Kind::Size, Name::I32, r"^i32\b"),
        9 => (Kind::Size, Name::I64, r"^i64\b"),
        10 => (Kind::Size, Name::I128, r"^i128\b"),
        11 => (Kind::Size, Name::U8, r"^u8\b"),
        12 => (Kind::Size, Name::U16, r"^u16\b"),
        13 => (Kind::Size, Name::U32, r"^u32\b"),
        14 => (Kind::Size, Name::U64, r"^u64\b"),
        15 => (Kind::Size, Name::U128, r"^u128\b"),
        16 => (Kind::Size, Name::C8, r"^c8\b"),
        17 => (Kind::Size, Name::C16, r"^c16\b"),
        18 => (Kind::Size, Name::C32, r"^c32\b"),
        19 => (Kind::Size, Name::F32, r"^f32\b"),
        20 => (Kind::Size, Name::F64, r"^f64\b"),
        21 => (Kind::Word, Name::Reserved, r"^if\b"),
        22 => (Kind::Word, Name::Reserved, r"^else\b"),
        23 => (Kind::Operator, Name::Pattern, r"^::"),
        24 => (Kind::Word, Name::Key, r"^[A-Za-z'_][A-Za-z0-9'_]*:"),
        25 => (Kind::Word, Name::Key, r"^[$#|&=`><*/^+-]+:"),
        26 => (Kind::Word, Name::Las, r"^[A-Za-z'_][A-Za-z0-9'_]*;"),
        27 => (Kind::Word, Name::Las, r"^[$#|&=`><*/^+-]+;"),
        28 => (Kind::Word, Name::Ref, r"^[A-Za-z'_][A-Za-z0-9'_]*"),
        29 => (Kind::Clock, Name::Second(Metric::Tera), r"^[0-9]+Ts"),
        30 => (Kind::Clock, Name::Second(Metric::Giga), r"^[0-9]+Gs"),
        31 => (Kind::Clock, Name::Second(Metric::Mega), r"^[0-9]+Ms"),
        32 => (Kind::Clock, Name::Second(Metric::Kilo), r"^[0-9]+Ks"),
        33 => (Kind::Clock, Name::Second(Metric::Hecto), r"^[0-9]+Hs"),
        34 => (Kind::Clock, Name::Second(Metric::Deca), r"^[0-9]+Ds"),
        35 => (Kind::Clock, Name::Second(Metric::Base), r"^[0-9]+s"),
        36 => (Kind::Clock, Name::Second(Metric::Deci), r"^[0-9]+ds"),
        37 => (Kind::Clock, Name::Second(Metric::Centi), r"^[0-9]+cs"),
        38 => (Kind::Clock, Name::Second(Metric::Milli), r"^[0-9]+ms"),
        39 => (Kind::Clock, Name::Second(Metric::Micro), r"^[0-9]+[uμ]s"),
        40 => (Kind::Clock, Name::Second(Metric::Nano), r"^[0-9]+ns"),
        41 => (Kind::Clock, Name::Second(Metric::Pico), r"^[0-9]+ps"),
        42 => (Kind::Number, Name::Decimal, r"^[0-9]+\.[0-9]*"),
        43 => (Kind::Number, Name::Decimal, r"^[0-9]*\.[0-9]+"),
        44 => (Kind::Number, Name::Integer, r"^[0-9']+"),
        45 => (Kind::Number, Name::Boolean, r"^(false|true)\b"),
        46 => (Kind::Operator, Name::Pattern, r"^~"),
        47 => (Kind::Operator, Name::Arrow, r"^(->|→)"),
        48 => (Kind::Operator, Name::Bleed, r"^\.\."),
        49 => (Kind::Operator, Name::Select, r"^[.]"),
        50 => (Kind::Operator, Name::Signal, r"^\?"),
        51 => (Kind::Operator, Name::Ne, r"^(!=)"),
        52 => (Kind::Operator, Name::Sizer, r"^!"),
        53 => (Kind::Operator, Name::Shape, r"^\$"),
        54 => (Kind::Operator, Name::Index, r"^#"),
        55 => (Kind::Operator, Name::Or, r"^[|]"),
        56 => (Kind::Operator, Name::And, r"^[&]"),
        57 => (Kind::Operator, Name::Not, r"^[`]"),
        58 => (Kind::Operator, Name::Eq, r"^((==)|(=))"),
        59 => (Kind::Operator, Name::Ge, r"^(>=)"),
        60 => (Kind::Operator, Name::Le, r"^(<=)"),
        61 => (Kind::Operator, Name::Gt, r"^(>)"),
        62 => (Kind::Operator, Name::Lt, r"^(<)"),
        63 => (Kind::Operator, Name::Add, r"^(\+)"),
        64 => (Kind::Operator, Name::Sub, r"^(-)"),
        65 => (Kind::Operator, Name::Mul, r"^(\*)"),
        66 => (Kind::Operator, Name::Div, r"^(/)"),
        67 => (Kind::Operator, Name::Exp, r"^(\^)"),
        68 => (Kind::Paren, Name::ParenLF, r"^\("),
        69 => (Kind::Paren, Name::ParenRT, r"^\)"),
        70 => (Kind::Squaren, Name::SquarenLF, r"^\["),
        71 => (Kind::Squaren, Name::SquarenRT, r"^\]"),
        72 => (Kind::Bracket, Name::BracketLF, r"^\{"),
        73 => (Kind::Bracket, Name::BracketRT, r"^\}"),
        74 => (Kind::String, Name::String, r#"^"[^"]*("|$)"#),
        75 => (Kind::Invalid, Name::Invalid, r"^."),
        _ => (Kind::Invalid, Name::Invalid, r"^."),
    }
}

/// The pattern by which the table reads each operator that is written as
/// one fixed symbol (or, for `->`, one of two): `+` is `Add`, `-` is
/// `Sub`, `*` is `Mul`, `/` is `Div`, `^` is `Exp`, `!=` is `Ne`, `!`
/// alone is `Sizer`, `$` is `Shape`, and so on.
pub open spec fn operator_pattern(n: Name) -> Option<Seq<char>> {
    match n {
        Name::Arrow => Some(r"^(->|→)"@),
        Name::Bleed => Some(r"^\.\."@),
        Name::Select => Some(r"^[.]"@),
        Name::Signal => Some(r"^\?"@),
        Name::Ne => Some(r"^(!=)"@),
        Name::Sizer => Some(r"^!"@),
        Name::Shape => Some(r"^\$"@),
        Name::Index => Some(r"^#"@),
        Name::Or => Some(r"^[|]"@),
        Name::And => Some(r"^[&]"@),
        Name::Not => Some(r"^[`]"@),
        Name::Eq => Some(r"^((==)|(=))"@),
        Name::Ge => Some(r"^(>=)"@),
        Name::Le => Some(r"^(<=)"@),
        Name::Gt => Some(r"^(>)"@),
        Name::Lt => Some(r"^(<)"@),
        Name::Add => Some(r"^(\+)"@),
        Name::Sub => Some(r"^(-)"@),
        Name::Mul => Some(r"^(\*)"@),
        Name::Div => Some(r"^(/)"@),
        Name::Exp => Some(r"^(\^)"@),
        _ => None,
    }
}

/// The operator rules of the table: a rule that names an operator written
/// as a symbol is an operator rule and reads exactly that operator's
/// symbol; and each such operator is named by exactly one rule. So the
/// token made of a symbol carries the symbol's own name.
pub proof fn lemma_operator_rules()
    ensures
        forall|i: usize|
            i < RULE_COUNT && (operator_pattern((#[trigger] spec_rule(i)).1) is Some) ==> spec_rule(i).0
                == Kind::Operator && spec_rule(i).2 == operator_pattern(spec_rule(i).1)->0,
        forall|i: usize, j: usize|
            i < RULE_COUNT && j < RULE_COUNT && (#[trigger] spec_rule(i)).1 == (#[trigger] spec_rule(j)).1
                && (operator_pattern(spec_rule(i).1) is Some) ==> i == j,
        forall|n: Name|
            (#[trigger] operator_pattern(n)) is Some ==> exists|i: usize| i < RULE_COUNT && (#[trigger] spec_rule(i)).1 == n,
{
    assert forall|n: Name| (#[trigger] operator_pattern(n)) is Some implies exists|i: usize|
        i < RULE_COUNT && (#[trigger] spec_rule(i)).1 == n by {
        assert(spec_rule(47).1 == Name::Arrow);
        assert(spec_rule(48).1 == Name::Bleed);
        assert(spec_rule(49).1 == Name::Select);
        assert(spec_rule(50).1 == Name::Signal);
        assert(spec_rule(51).1 == Name::Ne);
        assert(spec_rule(52).1 == Name::Sizer);
        assert(spec_rule(53).1 == Name::Shape);
        assert(spec_rule(54).1 == Name::Index);
        assert(spec_rule(55).1 == Name::Or);
        assert(spec_rule(56).1 == Name::And);
        assert(spec_rule(57).1 == Name::Not);
        assert(spec_rule(58).1 == Name::Eq);
        assert(spec_rule(59).1 == Name::Ge);
        assert(spec_rule(60).1 == Name::Le);
        assert(spec_rule(61).1 == Name::Gt);
        assert(spec_rule(62).1 == Name::Lt);
        assert(spec_rule(63).1 == Name::Add);
        assert(spec_rule(64).1 == Name::Sub);
        assert(spec_rule(65).1 == Name::Mul);
        assert(spec_rule(66).1 == Name::Div);
        assert(spec_rule(67).1 == Name::Exp);
    }
}

/// The byte offset at which the leftmost-first match of `pattern` in
/// `haystack` ends, or `None` where the pattern does not compile or does
/// not match.
pub uninterp spec fn regex_find_end(pattern: Seq<char>, haystack: Seq<char>) -> Option<usize>;

/// Calls `regex::Regex::new` on `pattern` and `Regex::find` on `haystack`.
/// Claimed: the result is `regex_find_end(pattern, haystack)`, and an end
/// offset lies within the haystack on a character boundary (the crate
/// documents that match offsets always fall on UTF-8 boundaries).
#[verifier::external_body]
fn find_match_end(pattern: &str, haystack: &str) -> (r: Option<usize>)
    ensures
        r == regex_find_end(pattern@, haystack@),
        r matches Some(e) ==> e <= haystack.spec_bytes().len() && is_char_boundary(
            haystack.spec_bytes(),
            e as int,
        ),
{
    match Regex::new(pattern) {
        Ok(re) => match re.find(haystack) {
            Some(m) => Some(m.end()),
            None => None,
        },
        Err(_) => None,
    }
}

/// The first rule, from index `i` on, whose pattern matches `haystack`,
/// with the end of its match.
pub open spec fn first_rule_match(haystack: Seq<char>, i: usize) -> Option<(usize, usize)>
    decreases RULE_COUNT - i,
{
    if i >= RULE_COUNT {
        None
    } else {
        match regex_find_end(spec_rule(i).2, haystack) {
            Some(e) => Some((i, e)),
            None => first_rule_match(haystack, (i + 1) as usize),
        }
    }
}

/// What the tokenizer remembers of the tokens it has kept.
#[derive(Clone, Copy)]
pub struct LexFlags {
    pub skip_initial_newlines: bool,
    pub last_newline: bool,
    pub last_comma: bool,
    pub last_operator: bool,
}

pub open spec fn initial_flags() -> LexFlags {
    LexFlags { skip_initial_newlines: true, last_newline: false, last_comma: false, last_operator: false }
}

pub open spec fn is_newline(t: TokenView) -> bool {
    t.kind == Kind::Stop && t.name == Name::Newline
}

pub open spec fn is_comma(t: TokenView) -> bool {
    t.kind == Kind::Stop && (t.name == Name::Comma || t.name == Name::Semicolon)
}

pub open spec fn opens_group(t: TokenView) -> bool {
    ||| (t.kind == Kind::Paren && t.name == Name::ParenLF)
    ||| (t.kind == Kind::Squaren && t.name == Name::SquarenLF)
    ||| (t.kind == Kind::Bracket && t.name == Name::BracketLF)
}

pub open spec fn closes_group(t: TokenView) -> bool {
    ||| (t.kind == Kind::Paren && t.name == Name::ParenRT)
    ||| (t.kind == Kind::Squaren && t.name == Name::SquarenRT)
    ||| (t.kind == Kind::Bracket && t.name == Name::BracketRT)
}

/// After such a token a line break does not end the statement.
pub open spec fn continues_line(t: TokenView) -> bool {
    t.kind == Kind::Operator || opens_group(t)
}

/// A line break directly before such a token is dropped.
pub open spec fn absorbs_newline(t: TokenView) -> bool {
    is_comma(t) || closes_group(t) || t.kind == Kind::Operator
}

pub open spec fn pop_last(ts: Seq<TokenView>) -> Seq<TokenView> {
    if ts.len() > 0 {
        ts.drop_last()
    } else {
        ts
    }
}

pub open spec fn flags_of(skip: bool, newline: bool, comma: bool, operator: bool) -> LexFlags {
    LexFlags { skip_initial_newlines: skip, last_newline: newline, last_comma: comma, last_operator: operator }
}

/// How one matched token changes the kept tokens and the flags.
pub open spec fn lex_push(ts: Seq<TokenView>, f: LexFlags, t: TokenView) -> (Seq<TokenView>, LexFlags) {
    if t.kind == Kind::Skip {
        (ts, f)
    } else if is_comma(t) {
        let ts1 = if f.last_newline { pop_last(ts) } else { ts };
        if !f.last_comma {
            (ts1.push(t), flags_of(f.skip_initial_newlines, false, true, false))
        } else {
            (ts1, f)
        }
    } else if is_newline(t) {
        if !f.last_operator && !f.last_comma && !f.last_newline && !f.skip_initial_newlines {
            (ts.push(t), flags_of(f.skip_initial_newlines, true, false, false))
        } else {
            (ts, f)
        }
    } else if opens_group(t) {
        (ts.push(t), flags_of(f.skip_initial_newlines, false, false, true))
    } else if closes_group(t) {
        let ts1 = if f.last_newline { pop_last(ts) } else { ts };
        (ts1.push(t), flags_of(f.skip_initial_newlines, false, false, false))
    } else if t.kind == Kind::Operator {
        let ts1 = if f.last_newline { pop_last(ts) } else { ts };
        (ts1.push(t), flags_of(f.skip_initial_newlines, false, false, true))
    } else {
        (ts.push(t), flags_of(false, false, false, false))
    }
}

/// The message of the tokenizer's one error: no rule consumes the input.
pub open spec fn stuck_message() -> Seq<char> {
    "no token rule matches the remaining input"@
}

/// The number of line feeds (byte 10) in `bytes`.
pub open spec fn newline_count(bytes: Seq<u8>) -> nat
    decreases bytes.len(),
{
    if bytes.len() == 0 {
        0
    } else {
        newline_count(bytes.drop_last()) + if bytes.last() == 10 {
            1nat
        } else {
            0nat
        }
    }
}

/// The line feeds that a token of `kind` moves the line count on by: those
/// of line breaks and of skipped text (a block comment may span lines);
/// a string literal that spans lines leaves the count where it was.
pub open spec fn line_feeds(kind: Kind, bytes: Seq<u8>) -> nat {
    if kind == Kind::Skip || kind == Kind::Stop {
        newline_count(bytes)
    } else {
        0
    }
}

/// Line feeds are counted piecewise.
pub proof fn lemma_newline_count_split(bytes: Seq<u8>, k: int)
    requires
        0 <= k <= bytes.len(),
    ensures
        newline_count(bytes) == newline_count(bytes.subrange(0, k)) + newline_count(
            bytes.subrange(k, bytes.len() as int),
        ),
    decreases bytes.len(),
{
    if k < bytes.len() {
        let d = bytes.drop_last();
        lemma_newline_count_split(d, k);
        assert(d.subrange(0, k) =~= bytes.subrange(0, k));
        let tail = bytes.subrange(k, bytes.len() as int);
        assert(tail.drop_last() =~= d.subrange(k, d.len() as int));
        assert(tail.last() == bytes.last());
    } else {
        assert(bytes.subrange(0, k) =~= bytes);
        assert(bytes.subrange(k, bytes.len() as int).len() == 0);
    }
}

/// Tokenizes the UTF-8 bytes `rest`, given the tokens kept so far; `line`
/// is one more than the number of line feeds in the line breaks and
/// skipped text consumed before `rest`.
pub open spec fn lex_run(rest: Seq<u8>, ts: Seq<TokenView>, f: LexFlags, line: nat) -> Result<
    Seq<TokenView>,
    Seq<char>,
>
    decreases rest.len(),
{
    if rest.len() == 0 {
        Ok(ts)
    } else {
        match first_rule_match(decode_utf8(rest), 0) {
            None => Err(stuck_message()),
            Some((i, e)) => {
                if e == 0 || e > rest.len() {
                    Err(stuck_message())
                } else {
                    let t = TokenView {
                        kind: spec_rule(i).0,
                        name: spec_rule(i).1,
                        line,
                        text: decode_utf8(rest.subrange(0, e as int)),
                    };
                    let (ts1, f1) = lex_push(ts, f, t);
                    let line1 = line + line_feeds(spec_rule(i).0, rest.subrange(0, e as int));
                    lex_run(rest.subrange(e as int, rest.len() as int), ts1, f1, line1)
                }
            },
        }
    }
}

/// The tokens of `input`, or the tokenizer's error.
pub open spec fn spec_tokenize(input: Seq<char>) -> Result<Seq<TokenView>, Seq<char>> {
    lex_run(encode_utf8(input), seq![], initial_flags(), 1)
}

/// The order laws of a token stream: no skipped token is kept; a line
/// break never opens the stream and never follows a line break, a comma,
/// an operator or an opening bracket; a line break is never followed by a
/// comma, a closing bracket or an operator; commas never repeat; line
/// numbers never decrease.
pub open spec fn token_stream_laws(ts: Seq<TokenView>) -> bool {
    &&& forall|i: int| 0 <= i < ts.len() ==> (#[trigger] ts[i]).kind != Kind::Skip
    &&& forall|i: int|
        0 <= i < ts.len() && is_newline(#[trigger] ts[i]) ==> i > 0 && !is_newline(ts[i - 1])
            && !is_comma(ts[i - 1]) && !continues_line(ts[i - 1])
    &&& forall|i: int|
        0 <= i < ts.len() - 1 && is_newline(#[trigger] ts[i]) ==> !absorbs_newline(ts[i + 1])
    &&& forall|i: int| 0 <= i < ts.len() - 1 && is_comma(#[trigger] ts[i]) ==> !is_comma(ts[i + 1])
    &&& forall|i: int, j: int| 0 <= i <= j < ts.len() ==> (#[trigger] ts[i]).line <= (#[trigger] ts[j]).line
}

/// What the tokenizer keeps true between two tokens.
pub open spec fn lex_state_inv(ts: Seq<TokenView>, f: LexFlags, line: nat) -> bool {
    &&& token_stream_laws(ts)
    &&& forall|i: int| 0 <= i < ts.len() ==> (#[trigger] ts[i]).line <= line
    &&& (f.last_newline ==> ts.len() > 0 && is_newline(ts.last()))
    &&& (f.last_comma ==> ts.len() > 0 && is_comma(ts.last()))
    &&& (f.last_operator ==> ts.len() > 0 && continues_line(ts.last()))
    &&& (ts.len() > 0 && is_newline(ts.last()) ==> f.last_newline)
    &&& (ts.len() > 0 && is_comma(ts.last()) ==> f.last_comma)
    &&& (ts.len() > 0 && continues_line(ts.last()) ==> f.last_operator)
    &&& (!f.skip_initial_newlines ==> ts.len() > 0)
}

proof fn lemma_pop_newline(ts: Seq<TokenView>, f: LexFlags, line: nat)
    requires
        lex_state_inv(ts, f, line),
        f.last_newline,
    ensures
        ts.len() > 1,
        pop_last(ts) == ts.drop_last(),
        token_stream_laws(ts.drop_last()),
        !is_newline(ts.drop_last().last()),
        !is_comma(ts.drop_last().last()),
        !continues_line(ts.drop_last().last()),
        forall|i: int| 0 <= i < ts.drop_last().len() ==> (#[trigger] ts.drop_last()[i]).line <= line,
{
    let d = ts.drop_last();
    assert(is_newline(ts[ts.len() - 1]));
    assert(ts.len() - 1 > 0);
    assert forall|i: int| 0 <= i < d.len() implies (#[trigger] d[i]).kind != Kind::Skip by {
        assert(d[i] == ts[i]);
    }
    assert forall|i: int| 0 <= i < d.len() && is_newline(#[trigger] d[i]) implies i > 0 && !is_newline(d[i - 1])
        && !is_comma(d[i - 1]) && !continues_line(d[i - 1]) by {
        assert(d[i] == ts[i]);
        assert(d[i - 1] == ts[i - 1]);
    }
    assert forall|i: int| 0 <= i < d.len() - 1 && is_newline(#[trigger] d[i]) implies !absorbs_newline(d[i + 1]) by {
        assert(d[i] == ts[i]);
        assert(d[i + 1] == ts[i + 1]);
    }
    assert forall|i: int| 0 <= i < d.len() - 1 && is_comma(#[trigger] d[i]) implies !is_comma(d[i + 1]) by {
        assert(d[i] == ts[i]);
        assert(d[i + 1] == ts[i + 1]);
    }
    assert forall|i: int, j: int| 0 <= i <= j < d.len() implies (#[trigger] d[i]).line <= (#[trigger] d[j]).line by {
        assert(d[i] == ts[i]);
        assert(d[j] == ts[j]);
    }
    assert forall|i: int| 0 <= i < d.len() implies (#[trigger] d[i]).line <= line by {
        assert(d[i] == ts[i]);
    }
}

proof fn lemma_push_keeps_laws(ts: Seq<TokenView>, t: TokenView, line: nat)
    requires
        token_stream_laws(ts),
        forall|i: int| 0 <= i < ts.len() ==> (#[trigger] ts[i]).line <= line,
        t.line == line,
        t.kind != Kind::Skip,
        is_newline(t) ==> ts.len() > 0 && !is_newline(ts.last()) && !is_comma(ts.last())
            && !continues_line(ts.last()),
        ts.len() > 0 && is_newline(ts.last()) ==> !absorbs_newline(t),
        ts.len() > 0 && is_comma(ts.last()) ==> !is_comma(t),
    ensures
        token_stream_laws(ts.push(t)),
        forall|i: int| 0 <= i < ts.push(t).len() ==> (#[trigger] ts.push(t)[i]).line <= line,
{
    let p = ts.push(t);
    assert forall|i: int| 0 <= i < p.len() implies (#[trigger] p[i]).kind != Kind::Skip by {
        if i < ts.len() {
            assert(p[i] == ts[i]);
        }
    }
    assert forall|i: int| 0 <= i < p.len() && is_newline(#[trigger] p[i]) implies i > 0 && !is_newline(p[i - 1])
        && !is_comma(p[i - 1]) && !continues_line(p[i - 1]) by {
        if i < ts.len() {
            assert(p[i] == ts[i]);
            assert(p[i - 1] == ts[i - 1]);
        } else {
            assert(p[i - 1] == ts.last());
        }
    }
    assert forall|i: int| 0 <= i < p.len() - 1 && is_newline(#[trigger] p[i]) implies !absorbs_newline(p[i + 1]) by {
        assert(p[i] == ts[i]);
        if i + 1 < ts.len() {
            assert(p[i + 1] == ts[i + 1]);
        } else {
            assert(ts.last() == ts[i]);
        }
    }
    assert forall|i: int| 0 <= i < p.len() - 1 && is_comma(#[trigger] p[i]) implies !is_comma(p[i + 1]) by {
        assert(p[i] == ts[i]);
        if i + 1 < ts.len() {
            assert(p[i + 1] == ts[i + 1]);
        } else {
            assert(ts.last() == ts[i]);
        }
    }
    assert forall|i: int, j: int| 0 <= i <= j < p.len() implies (#[trigger] p[i]).line <= (#[trigger] p[j]).line by {
        if j < ts.len() {
            assert(p[i] == ts[i]);
            assert(p[j] == ts[j]);
        } else if i < ts.len() {
            assert(p[i] == ts[i]);
        }
    }
    assert forall|i: int| 0 <= i < p.len() implies (#[trigger] p[i]).line <= line by {
        if i < ts.len() {
            assert(p[i] == ts[i]);
        }
    }
}

proof fn lemma_lex_push_inv(ts: Seq<TokenView>, f: LexFlags, t: TokenView, line: nat, line1: nat)
    requires
        lex_state_inv(ts, f, line),
        t.line == line,
        line <= line1,
    ensures
        lex_state_inv(lex_push(ts, f, t).0, lex_push(ts, f, t).1, line1),
{
    let (ts1, f1) = lex_push(ts, f, t);
    if t.kind == Kind::Skip {
    } else if is_comma(t) {
        let tsp = if f.last_newline { pop_last(ts) } else { ts };
        if f.last_newline {
            lemma_pop_newline(ts, f, line);
        }
        if !f.last_comma {
            lemma_push_keeps_laws(tsp, t, line);
        }
    } else if is_newline(t) {
        if !f.last_operator && !f.last_comma && !f.last_newline && !f.skip_initial_newlines {
            lemma_push_keeps_laws(ts, t, line);
        }
    } else if opens_group(t) {
        lemma_push_keeps_laws(ts, t, line);
    } else if closes_group(t) || t.kind == Kind::Operator {
        let tsp = if f.last_newline { pop_last(ts) } else { ts };
        if f.last_newline {
            lemma_pop_newline(ts, f, line);
        }
        lemma_push_keeps_laws(tsp, t, line);
    } else {
        lemma_push_keeps_laws(ts, t, line);
    }
    assert forall|i: int| 0 <= i < ts1.len() implies (#[trigger] ts1[i]).line <= line1 by {
    }
}

proof fn lemma_lex_run_laws(rest: Seq<u8>, ts: Seq<TokenView>, f: LexFlags, line: nat)
    requires
        lex_state_inv(ts, f, line),
    ensures
        lex_run(rest, ts, f, line) matches Ok(r) ==> token_stream_laws(r),
    decreases rest.len(),
{
    if rest.len() > 0 {
        match first_rule_match(decode_utf8(rest), 0) {
            None => {},
            Some((i, e)) => {
                if !(e == 0 || e > rest.len()) {
                    let t = TokenView {
                        kind: spec_rule(i).0,
                        name: spec_rule(i).1,
                        line,
                        text: decode_utf8(rest.subrange(0, e as int)),
                    };
                    let (ts1, f1) = lex_push(ts, f, t);
                    let line1 = line + line_feeds(spec_rule(i).0, rest.subrange(0, e as int));
                    lemma_lex_push_inv(ts, f, t, line, line1);
                    lemma_lex_run_laws(rest.subrange(e as int, rest.len() as int), ts1, f1, line1);
                }
            },
        }
    }
}

/// Every token stream that the tokenizer yields keeps the order laws of
/// `token_stream_laws`.
pub proof fn lemma_tokenize_laws(input: Seq<char>)
    ensures
        spec_tokenize(input) matches Ok(ts) ==> token_stream_laws(ts),
{
    lemma_lex_run_laws(encode_utf8(input), seq![], initial_flags(), 1);
}

/// Applies one matched token to the kept tokens and the flags: the step
/// that follows each match of the rule table, whatever the match was.
pub fn lex_push_exec(tokens: &mut Vec<Token>, flags: &mut LexFlags, t: Token)
    ensures
        (tokens_view(final(tokens)@), *final(flags)) == lex_push(tokens_view(old(tokens)@), *old(flags), t@),
{
    let ghost old_view = tokens_view(tokens@);
    let kind = t.of.kind;
    let name = t.of.name;
    let is_comma_t = kind == Kind::Stop && (name == Name::Comma || name == Name::Semicolon);
    let is_newline_t = kind == Kind::Stop && name == Name::Newline;
    let opens = (kind == Kind::Paren && name == Name::ParenLF) || (kind == Kind::Squaren
        && name == Name::SquarenLF) || (kind == Kind::Bracket && name == Name::BracketLF);
    let closes = (kind == Kind::Paren && name == Name::ParenRT) || (kind == Kind::Squaren
        && name == Name::SquarenRT) || (kind == Kind::Bracket && name == Name::BracketRT);
    if kind == Kind::Skip {
    } else if is_comma_t {
        if flags.last_newline {
            pop_token(tokens);
        }
        if !flags.last_comma {
            push_token(tokens, t);
            flags.last_operator = false;
            flags.last_comma = true;
            flags.last_newline = false;
        }
    } else if is_newline_t {
        if !flags.last_operator && !flags.last_comma && !flags.last_newline
            && !flags.skip_initial_newlines {
            push_token(tokens, t);
            flags.last_operator = false;
            flags.last_comma = false;
            flags.last_newline = true;
        }
    } else if opens {
        push_token(tokens, t);
        flags.last_operator = true;
        flags.last_comma = false;
        flags.last_newline = false;
    } else if closes {
        if flags.last_newline {
            pop_token(tokens);
        }
        push_token(tokens, t);
        flags.last_operator = false;
        flags.last_comma = false;
        flags.last_newline = false;
    } else if kind == Kind::Operator {
        if flags.last_newline {
            pop_token(tokens);
        }
        push_token(tokens, t);
        flags.last_operator = true;
        flags.last_comma = false;
        flags.last_newline = false;
    } else {
        push_token(tokens, t);
        flags.last_operator = false;
        flags.last_comma = false;
        flags.last_newline = false;
        flags.skip_initial_newlines = false;
    }
}

fn push_token(tokens: &mut Vec<Token>, t: Token)
    ensures
        tokens_view(final(tokens)@) == tokens_view(old(tokens)@).push(t@),
{
    tokens.push(t);
    assert(tokens_view(tokens@) =~= tokens_view(old(tokens)@).push(t@));
}

fn pop_token(tokens: &mut Vec<Token>)
    ensures
        tokens_view(final(tokens)@) == pop_last(tokens_view(old(tokens)@)),
{
    let _ = tokens.pop();
    assert(tokens_view(tokens@) =~= pop_last(tokens_view(old(tokens)@)));
}

/// The number of line feeds in `text`.
fn count_line_feeds(text: &str) -> (n: u32)
    requires
        newline_count(text.spec_bytes()) <= u32::MAX,
    ensures
        n == newline_count(text.spec_bytes()),
{
    let bytes = text.as_bytes();
    let mut n: u32 = 0;
    let mut i: usize = 0;
    while i < bytes.len()
        invariant
            bytes@ == text.spec_bytes(),
            i <= bytes@.len(),
            n == newline_count(bytes@.subrange(0, i as int)),
            newline_count(bytes@) <= u32::MAX,
        decreases bytes@.len() - i,
    {
        proof {
            lemma_newline_count_split(bytes@, i + 1);
            assert(bytes@.subrange(0, i + 1).drop_last() =~= bytes@.subrange(0, i as int));
        }
        if bytes[i] == 10 {
            n = n + 1;
        }
        i = i + 1;
    }
    proof {
        assert(bytes@.subrange(0, i as int) =~= bytes@);
    }
    n
}

/// Splits `input` into tokens: at each position the first rule of the
/// table whose pattern matches gives the next token, which `lex_push`
/// then keeps or drops. The error arises only where no rule consumes any
/// of the remaining input.
pub fn tokenizer(input: &String) -> (result: Result<Vec<Token>, String>)
    requires
        newline_count(encode_utf8(input@)) < u32::MAX,
    ensures
        match result {
            Ok(v) => spec_tokenize(input@) == Ok::<Seq<TokenView>, Seq<char>>(tokens_view(v@)),
            Err(e) => spec_tokenize(input@) == Err::<Seq<TokenView>, Seq<char>>(e@),
        },
        result matches Ok(v) ==> token_stream_laws(tokens_view(v@)),
{
    let mut tokens: Vec<Token> = Vec::new();
    let mut flags = LexFlags {
        skip_initial_newlines: true,
        last_newline: false,
        last_comma: false,
        last_operator: false,
    };
    let mut line: u32 = 1;
    let mut rest: &str = input.as_str();
    let n_bytes = rest.as_bytes().len();
    let ghost total = newline_count(encode_utf8(input@));
    proof {
        assert(tokens_view(tokens@) =~= seq![]);
        lemma_lex_run_laws(encode_utf8(input@), seq![], initial_flags(), 1);
    }
    while rest.len() > 0
        invariant
            lex_run(rest.spec_bytes(), tokens_view(tokens@), flags, line as nat) == spec_tokenize(input@),
            lex_state_inv(tokens_view(tokens@), flags, line as nat),
            line as nat + newline_count(rest.spec_bytes()) <= 1 + total,
            rest.spec_bytes().len() <= n_bytes,
            total < u32::MAX,
        decreases rest.spec_bytes().len(),
    {
        let ghost bytes = rest.spec_bytes();
        assert(decode_utf8(bytes) == rest@);
        let mut i: usize = 0;
        let mut found: Option<(usize, usize)> = None;
        while i < RULE_COUNT
            invariant_except_break
                i <= RULE_COUNT,
                bytes == rest.spec_bytes(),
                first_rule_match(rest@, 0) == first_rule_match(rest@, i),
                found is None,
            ensures
                found matches Some((k, e)) ==> first_rule_match(rest@, 0) == Some((k, e)) && k
                    < RULE_COUNT && e <= bytes.len() && is_char_boundary(bytes, e as int),
                found is None ==> first_rule_match(rest@, 0) is None,
            decreases RULE_COUNT - i,
        {
            let (_, _, pattern) = rule(i);
            match find_match_end(pattern, rest) {
                Some(e) => {
                    assert(spec_rule(i).2 == pattern@);
                    assert(first_rule_match(rest@, i) == Some((i, e)));
                    found = Some((i, e));
                    break ;
                },
                None => {
                    i = i + 1;
                },
            }
        }
        match found {
            None => {
                return Err("no token rule matches the remaining input".to_owned());
            },
            Some((k, e)) => {
                if e == 0 {
                    return Err("no token rule matches the remaining input".to_owned());
                }
                let (kind, name, _) = rule(k);
                let (head, tail) = rest.split_at(e);
                assert(decode_utf8(head.spec_bytes()) == head@);
                let t = Token { of: Of { kind, name }, meta: Meta { line, text: head.to_owned() } };
                let ghost old_view = tokens_view(tokens@);
                let ghost old_flags = flags;
                proof {
                    lemma_newline_count_split(bytes, e as int);
                    let line1: nat = line as nat + line_feeds(kind, head.spec_bytes());
                    lemma_lex_push_inv(old_view, old_flags, t@, line as nat, line1);
                }
                let feeds = if kind == Kind::Skip || kind == Kind::Stop {
                    count_line_feeds(head)
                } else {
                    0
                };
                lex_push_exec(&mut tokens, &mut flags, t);
                line = line + feeds;
                rest = tail;
            },
        }
    }
    proof {
        lemma_lex_run_laws(rest.spec_bytes(), tokens_view(tokens@), flags, line as nat);
        assert(rest.spec_bytes().len() == 0);
        assert(lex_run(rest.spec_bytes(), tokens_view(tokens@), flags, line as nat) == Ok::<
            Seq<TokenView>,
            Seq<char>,
        >(tokens_view(tokens@)));
    }
    Ok(tokens)
}

} // verus!
