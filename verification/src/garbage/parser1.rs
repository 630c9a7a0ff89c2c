//! The first parser: the formats of values, the types of points, the tree
//! of typed points, and the reading of a list of points from a token
//! stream, which settles which tokens each point takes.
use super::parser2::{eats_line_text, eats_message};
use super::scan::{
    lemma_skip_stops, remaining, skip_stops, spec_eat, spec_eat_of, spec_eats, tok_any, tok_at, tok_is, tok_of, tok_until,
    Fault,
};
use crate::compiler::tokenizer::{tokens_view, Kind, Name, Token, TokenView};
use vstd::prelude::*;

verus! {

/// How the bytes of a value are formatted.
#[derive(Debug, Clone, Copy)]
pub enum Format {
    Integer,
    Decimal,
    Boolean,
    I8,
    I16,
    I32,
    I64,
    I128,
    U8,
    U16,
    U32,
    U64,
    U128,
    F32,
    F64,
    F128,
    /// UTF-8, restricted to characters of 8 bits
    C8,
    C16,
    /// full UTF-8
    C32,
}

/// The format of a number token's name: decimal, integer or boolean.
fn name_to_number(name: Name) -> (r: Format)
    requires
        name == Name::Decimal || name == Name::Integer || name == Name::Boolean,
    ensures
        name == Name::Decimal ==> r == Format::Decimal,
        name == Name::Integer ==> r == Format::Integer,
        name == Name::Boolean ==> r == Format::Boolean,
{
    match name {
        Name::Decimal => Format::Decimal,
        Name::Integer => Format::Integer,
        _ => Format::Boolean,
    }
}

/// The type of a point.
#[derive(Debug)]
pub enum Type {
    Number(Format),
    String(Format),
    /// not typed yet
    Thing,
    /// a graph packed into one array space
    Graph(Vec<Type>),
    /// a packed array
    Array(Box<Type>),
}

/// A tree of points, each with its type.
#[derive(Debug)]
pub enum AST<'a> {
    Nothing,
    Program(&'a Type, Box<AST<'a>>),
    Number(&'a Type, String),
    String(&'a Type, String),
    Graph(&'a Type, Vec<AST<'a>>),
    /// type, label, index, whether it is returned, and value
    Point(&'a Type, String, u16, bool, Box<AST<'a>>),
    Op2(&'a Type, Name, Box<AST<'a>>, Box<AST<'a>>),
    Op1(&'a Type, Name, Box<AST<'a>>),
}

/// What a mismatched kind is reported as: the token's text, its line and
/// its own kind.
pub uninterp spec fn kind_line_text(text: Seq<char>, line: nat, kind: Kind) -> Seq<char>;

/// Formats the token's text, line and own kind.
#[verifier::external_body]
fn kind_line_message(t: &Token) -> (r: String)
    ensures
        r@ == kind_line_text(t.meta.text@, t.meta.line as nat, t.of.kind),
{
    format!("UnexpectedToken: {:?} on line {}\nExpected token of kind: {:?}", t.meta.text, t.meta.line, t.of.kind)
}

pub struct Tokens<'a> {
    cursor: usize,
    tokens: &'a Vec<Token>,
}

pub open spec fn render<T>(r: Result<T, Fault>) -> Result<T, Seq<char>> {
    match r {
        Ok(x) => Ok(x),
        Err(f) => Err(fault_text(f)),
    }
}

pub open spec fn token_result(r: Result<&Token, String>) -> Result<TokenView, Seq<char>> {
    match r {
        Ok(t) => Ok(t@),
        Err(m) => Err(m@),
    }
}

/// What the parser reports for a fault.
pub open spec fn fault_text(f: Fault) -> Seq<char> {
    match f {
        Fault::EndOfInput => "UnexpectedEndOfInput"@,
        Fault::UnexpectedName(t, _) => eats_line_text(t.text, t.line, t.name),
        Fault::UnexpectedKind(t, _) => kind_line_text(t.text, t.line, t.kind),
        Fault::UnexpectedNames(t, _) => eats_line_text(t.text, t.line, t.name),
        Fault::UnexpectedKinds(t, _) => seq![],
        Fault::Abort => seq![],
    }
}

impl<'a> Tokens<'a> {
    spec fn toks(&self) -> Seq<TokenView> {
        tokens_view(self.tokens@)
    }

    spec fn pos(&self) -> nat {
        self.cursor as nat
    }

    spec fn wf(&self) -> bool {
        &&& self.cursor <= self.tokens@.len()
        &&& self.tokens@.len() <= usize::MAX
    }

    fn eat(&mut self, name: Name) -> (r: Result<&'a Token, String>)
        requires
            old(self).wf(),
        ensures
            final(self).wf(),
            final(self).tokens == old(self).tokens,
            final(self).pos() == spec_eat(old(self).toks(), old(self).pos(), name).0,
            token_result(r) == render(spec_eat(old(self).toks(), old(self).pos(), name).1),
    {
        match self.get(0) {
            Some(t) => {
                self.cursor = self.cursor + 1;
                if t.of.name == name {
                    Ok(t)
                } else {
                    Err(eats_message(t, &[name]))
                }
            },
            None => Err("UnexpectedEndOfInput".to_owned()),
        }
    }

    fn eat_of(&mut self, kind: Kind) -> (r: Result<&'a Token, String>)
        requires
            old(self).wf(),
        ensures
            final(self).wf(),
            final(self).tokens == old(self).tokens,
            final(self).pos() == spec_eat_of(old(self).toks(), old(self).pos(), kind).0,
            token_result(r) == render(spec_eat_of(old(self).toks(), old(self).pos(), kind).1),
    {
        match self.get(0) {
            Some(t) => {
                self.cursor = self.cursor + 1;
                if t.of.kind == kind {
                    Ok(t)
                } else {
                    Err(kind_line_message(t))
                }
            },
            None => Err("UnexpectedEndOfInput".to_owned()),
        }
    }

    fn eats(&mut self, names: &[Name]) -> (r: Result<&'a Token, String>)
        requires
            old(self).wf(),
        ensures
            final(self).wf(),
            final(self).tokens == old(self).tokens,
            final(self).pos() == spec_eats(old(self).toks(), old(self).pos(), names@).0,
            token_result(r) == render(spec_eats(old(self).toks(), old(self).pos(), names@).1),
    {
        match self.get(0) {
            Some(t) => {
                let ok = self.any(0, names);
                self.cursor = self.cursor + 1;
                if ok {
                    Ok(t)
                } else {
                    Err(eats_message(t, names))
                }
            },
            None => Err("UnexpectedEndOfInput".to_owned()),
        }
    }

    fn clear_stops(&mut self)
        requires
            old(self).wf(),
        ensures
            final(self).wf(),
            final(self).tokens == old(self).tokens,
            final(self).pos() == skip_stops(old(self).toks(), old(self).pos()),
    {
        while self.of(0, Kind::Stop)
            invariant
                self.wf(),
                self.tokens == old(self).tokens,
                skip_stops(self.toks(), self.pos()) == skip_stops(old(self).toks(), old(self).pos()),
            decreases self.tokens@.len() - self.cursor,
        {
            self.cursor = self.cursor + 1;
        }
    }

    fn get(&self, offset: usize) -> (r: Option<&'a Token>)
        requires
            self.wf(),
        ensures
            match r {
                Some(t) => tok_at(self.toks(), self.pos(), offset as nat) == Some(t@),
                None => tok_at(self.toks(), self.pos(), offset as nat) is None,
            },
    {
        let tokens: &'a Vec<Token> = self.tokens;
        if offset < tokens.len() - self.cursor {
            Some(&tokens[self.cursor + offset])
        } else {
            None
        }
    }

    fn is(&self, offset: usize, stop: Name) -> (r: bool)
        requires
            self.wf(),
        ensures
            r == tok_is(self.toks(), self.pos(), offset as nat, stop),
    {
        match self.get(offset) {
            Some(t) => t.of.name == stop,
            None => false,
        }
    }

    fn of(&self, offset: usize, stop: Kind) -> (r: bool)
        requires
            self.wf(),
        ensures
            r == tok_of(self.toks(), self.pos(), offset as nat, stop),
    {
        match self.get(offset) {
            Some(t) => t.of.kind == stop,
            None => false,
        }
    }

    fn any(&self, offset: usize, names: &[Name]) -> (r: bool)
        requires
            self.wf(),
        ensures
            r == tok_any(self.toks(), self.pos(), offset as nat, names@),
    {
        let mut i: usize = 0;
        while i < names.len()
            invariant
                self.wf(),
                i <= names@.len(),
                forall|j: int| 0 <= j < i ==> !tok_is(self.toks(), self.pos(), offset as nat, #[trigger] names@[j]),
            decreases names@.len() - i,
        {
            if self.is(offset, names[i]) {
                return true;
            }
            i = i + 1;
        }
        false
    }

    fn until(&self, offset: usize, stops: &[Name]) -> (r: bool)
        requires
            self.wf(),
        ensures
            r == tok_until(self.toks(), self.pos(), offset as nat, stops@),
    {
        match self.get(offset) {
            Some(t) => {
                let mut i: usize = 0;
                while i < stops.len()
                    invariant
                        self.wf(),
                        tok_at(self.toks(), self.pos(), offset as nat) == Some(t@),
                        i <= stops@.len(),
                        forall|j: int| 0 <= j < i ==> #[trigger] stops@[j] != t.of.name,
                    decreases stops@.len() - i,
                {
                    if t.of.name == stops[i] {
                        proof {
                            assert(stops@[i as int] == t.of.name);
                        }
                        return false;
                    }
                    i = i + 1;
                }
                true
            },
            None => false,
        }
    }

}

// ---------------------------------------------------------------------
// The grammar of points, stated over token views. Every point parses to
// an empty tree: only which tokens are read is settled yet.

/// A point: `label[ ..]: value`, `label;`, `label: point` or a bare value;
/// each takes the next index, and an index past `u16::MAX` panics.
#[verifier::opaque]
pub open spec fn spec_graph(ts: Seq<TokenView>, p: nat, index: nat) -> (nat, nat, Result<(), Fault>)
    decreases remaining(ts, p),
{
    let i1 = index + 1;
    if i1 > u16::MAX {
        (p, i1, Err(Fault::Abort))
    } else if tok_is(ts, p, 0, Name::Label) && tok_any(ts, p, 1, seq![Name::SquarenLF, Name::Colon, Name::Semicolon]) {
        let (p1, e1) = spec_eat(ts, p, Name::Label);
        match e1 {
            Err(f) => (p1, i1, Err(f)),
            Ok(_) => if tok_is(ts, p1, 0, Name::SquarenLF) {
                let (p2, e2) = spec_eat(ts, p1, Name::SquarenLF);
                match e2 {
                    Err(f) => (p2, i1, Err(f)),
                    Ok(_) => if tok_is(ts, p2, 0, Name::Colon) {
                        let (p3, e3) = spec_eat(ts, p2, Name::Colon);
                        match e3 {
                            Err(f) => (p3, i1, Err(f)),
                            Ok(_) => (p3, i1, Ok(())),
                        }
                    } else {
                        (p2, i1, Ok(()))
                    },
                }
            } else if tok_is(ts, p1, 0, Name::Semicolon) {
                (p1, i1, Ok(()))
            } else {
                let (p2, e2) = spec_eat(ts, p1, Name::Colon);
                match e2 {
                    Err(f) => (p2, i1, Err(f)),
                    Ok(_) => spec_graph(ts, p2, i1),
                }
            },
        }
    } else {
        (p, i1, Ok(()))
    }
}

/// The points of a list up to one of `stops`: how many there are, or the
/// first fault. A point that reads nothing makes the list never end.
#[verifier::opaque]
pub open spec fn spec_point_list_loop(ts: Seq<TokenView>, p: nat, stops: Seq<Name>, count: nat, index: nat) -> (nat, Result<nat, Fault>)
    decreases remaining(ts, p),
{
    if tok_until(ts, p, 0, stops) {
        let (q, i1, r) = spec_graph(ts, p, index);
        match r {
            Err(f) => (q, Err(f)),
            Ok(_) => {
                let p2 = skip_stops(ts, q);
                if p2 > p {
                    spec_point_list_loop(ts, p2, stops, count + 1, i1)
                } else {
                    (p2, Err(Fault::Abort))
                }
            },
        }
    } else {
        (p, Ok(count))
    }
}

pub open spec fn spec_point_list(ts: Seq<TokenView>, p: nat, stops: Seq<Name>) -> (nat, Result<nat, Fault>) {
    spec_point_list_loop(ts, skip_stops(ts, p), stops, 0, 0)
}

impl<'a> Tokens<'a> {
    #[verifier::spinoff_prover]
    fn point_list<'b>(&mut self, stops: &[Name]) -> (r: Result<(Type, Vec<AST<'b>>), String>)
        requires
            old(self).wf(),
            spec_point_list(old(self).toks(), old(self).pos(), stops@).1 != Err::<nat, Fault>(Fault::Abort),
        ensures
            final(self).wf(),
            final(self).tokens == old(self).tokens,
            final(self).pos() == spec_point_list(old(self).toks(), old(self).pos(), stops@).0,
            match r {
                Ok((t, points)) => t matches Type::Graph(tys) && tys@.len() == 0 && spec_point_list(
                    old(self).toks(),
                    old(self).pos(),
                    stops@,
                ).1 == Ok::<nat, Fault>(points@.len()) && forall|i: int|
                    0 <= i < points@.len() ==> #[trigger] points@[i] is Nothing,
                Err(m) => spec_point_list(old(self).toks(), old(self).pos(), stops@).1 matches Err(f) && m@
                    == fault_text(f),
            },
    {
        let ghost ts = self.toks();
        let ghost p0 = self.pos();
        let mut points: Vec<AST<'b>> = Vec::new();
        let tys: Vec<Type> = Vec::new();
        proof {
            lemma_skip_stops(ts, p0);
        }
        self.clear_stops();
        let mut index: u16 = 0;
        while self.until(0, stops)
            invariant
                self.wf(),
                self.tokens == old(self).tokens,
                ts == old(self).toks(),
                p0 == old(self).pos(),
                tys@.len() == 0,
                spec_point_list(ts, p0, stops@) == spec_point_list_loop(ts, self.pos(), stops@, points@.len(), index as nat),
                spec_point_list_loop(ts, self.pos(), stops@, points@.len(), index as nat).1 != Err::<nat, Fault>(Fault::Abort),
                forall|i: int| 0 <= i < points@.len() ==> #[trigger] points@[i] is Nothing,
            decreases self.tokens@.len() - self.cursor,
        {
            proof {
                reveal_with_fuel(spec_point_list_loop, 1);
            }
            let x = match self.point(&mut index) {
                Ok(x) => x,
                Err(m) => {
                    return Err(m);
                },
            };
            proof {
                lemma_skip_stops(ts, self.pos());
            }
            points.push(x);
            self.clear_stops();
        }
        proof {
            reveal_with_fuel(spec_point_list_loop, 1);
        }
        Ok((Type::Graph(tys), points))
    }

    #[verifier::spinoff_prover]
    fn point<'b>(&mut self, index: &mut u16) -> (r: Result<AST<'b>, String>)
        requires
            old(self).wf(),
            spec_graph(old(self).toks(), old(self).pos(), *old(index) as nat).2 != Err::<(), Fault>(Fault::Abort),
        ensures
            final(self).wf(),
            final(self).tokens == old(self).tokens,
            final(self).pos() == spec_graph(old(self).toks(), old(self).pos(), *old(index) as nat).0,
            *final(index) as nat == spec_graph(old(self).toks(), old(self).pos(), *old(index) as nat).1,
            match r {
                Ok(a) => a is Nothing && spec_graph(old(self).toks(), old(self).pos(), *old(index) as nat).2 is Ok,
                Err(m) => spec_graph(old(self).toks(), old(self).pos(), *old(index) as nat).2 matches Err(f) && m@
                    == fault_text(f),
            },
    {
        self.graph(index)
    }

    #[verifier::spinoff_prover]
    fn graph<'b>(&mut self, index: &mut u16) -> (r: Result<AST<'b>, String>)
        requires
            old(self).wf(),
            spec_graph(old(self).toks(), old(self).pos(), *old(index) as nat).2 != Err::<(), Fault>(Fault::Abort),
        ensures
            final(self).wf(),
            final(self).tokens == old(self).tokens,
            final(self).pos() == spec_graph(old(self).toks(), old(self).pos(), *old(index) as nat).0,
            *final(index) as nat == spec_graph(old(self).toks(), old(self).pos(), *old(index) as nat).1,
            match r {
                Ok(a) => a is Nothing && spec_graph(old(self).toks(), old(self).pos(), *old(index) as nat).2 is Ok,
                Err(m) => spec_graph(old(self).toks(), old(self).pos(), *old(index) as nat).2 matches Err(f) && m@
                    == fault_text(f),
            },
        decreases old(self).tokens@.len() - old(self).cursor,
    {
        proof {
            reveal_with_fuel(spec_graph, 1);
        }
        if *index == u16::MAX {
            proof {
                assert(false);
            }
            return Err(String::new());
        }
        *index = *index + 1;
        let marks: &[Name] = &[Name::SquarenLF, Name::Colon, Name::Semicolon];
        proof {
            assert(marks@ =~= seq![Name::SquarenLF, Name::Colon, Name::Semicolon]);
        }
        if self.is(0, Name::Label) && self.any(1, marks) {
            match self.eat(Name::Label) {
                Ok(_) => {},
                Err(m) => {
                    return Err(m);
                },
            }
            if self.is(0, Name::SquarenLF) {
                match self.space() {
                    Ok(_) => {},
                    Err(m) => {
                        return Err(m);
                    },
                }
                if self.is(0, Name::Colon) {
                    match self.eat(Name::Colon) {
                        Ok(_) => {},
                        Err(m) => {
                            return Err(m);
                        },
                    }
                    match self.or_graph() {
                        Ok(_) => {},
                        Err(m) => {
                            return Err(m);
                        },
                    }
                }
            } else if self.is(0, Name::Semicolon) {
            } else {
                match self.eat(Name::Colon) {
                    Ok(_) => {},
                    Err(m) => {
                        return Err(m);
                    },
                }
                match self.graph(index) {
                    Ok(_) => {},
                    Err(m) => {
                        return Err(m);
                    },
                }
            }
        } else {
            match self.or_graph() {
                Ok(_) => {},
                Err(m) => {
                    return Err(m);
                },
            }
        }
        Ok(AST::Nothing)
    }

    fn space<'b>(&mut self) -> (r: Result<AST<'b>, String>)
        requires
            old(self).wf(),
        ensures
            final(self).wf(),
            final(self).tokens == old(self).tokens,
            final(self).pos() == spec_eat(old(self).toks(), old(self).pos(), Name::SquarenLF).0,
            match r {
                Ok(a) => a is Nothing && spec_eat(old(self).toks(), old(self).pos(), Name::SquarenLF).1 is Ok,
                Err(m) => spec_eat(old(self).toks(), old(self).pos(), Name::SquarenLF).1 matches Err(f) && m@
                    == fault_text(f),
            },
    {
        match self.eat(Name::SquarenLF) {
            Ok(_) => Ok(AST::Nothing),
            Err(m) => Err(m),
        }
    }

    fn or_graph<'b>(&self) -> (r: Result<(Type, AST<'b>), String>)
        ensures
            r matches Ok((t, a)) && t is Thing && a is Nothing,
    {
        Ok((Type::Thing, AST::Nothing))
    }
}

/// Parses a whole token list as the program: its points, up to the end of
/// the input, with the type that the list gives them. The program point
/// refers to that type, so it is the caller that holds the type and
/// builds the point from it, with `program_point`.
pub fn parser<'b>(tokens: &Vec<Token>) -> (r: Result<(Type, Vec<AST<'b>>), String>)
    requires
        spec_point_list(tokens_view(tokens@), 0, seq![]).1 != Err::<nat, Fault>(Fault::Abort),
    ensures
        match r {
            Ok((t, points)) => t matches Type::Graph(tys) && tys@.len() == 0 && spec_point_list(
                tokens_view(tokens@),
                0,
                seq![],
            ).1 == Ok::<nat, Fault>(points@.len()) && forall|i: int|
                0 <= i < points@.len() ==> #[trigger] points@[i] is Nothing,
            Err(m) => spec_point_list(tokens_view(tokens@), 0, seq![]).1 matches Err(f) && m@
                == fault_text(f),
        },
{
    let count = tokens.len();
    let mut cursor = Tokens { cursor: 0, tokens };
    let stops: &[Name] = &[];
    proof {
        assert(stops@ =~= Seq::<Name>::empty());
        assert(cursor.tokens@.len() == count);
    }
    cursor.point_list(stops)
}

/// The program point: labelled `Program`, at index 0, not returned, whose
/// value is the graph of `points`, all of type `tys`.
pub fn program_point<'a>(tys: &'a Type, points: Vec<AST<'a>>) -> (r: AST<'a>)
    ensures
        r matches AST::Point(t, label, index, returned, value) && t == tys && label@ == "Program"@
            && index == 0 && !returned && (*value matches AST::Graph(u, ps) && u == tys && ps@
            == points@),
{
    let r = AST::Point(tys, "Program".to_string(), 0, false, Box::new(AST::Graph(tys, points)));
    proof {
        reveal_strlit("Program");
    }
    r
}

} // verus!
