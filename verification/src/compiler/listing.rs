//! A token stream as text: one line per token, with its kind, its name,
//! its line and its text.
use super::tokenizer::{tokens_view, Kind, Name, Token, TokenView};
use vstd::prelude::*;
use vstd::string::StringExecFns;

verus! {

/// The line that lists one token.
pub uninterp spec fn token_line_text(kind: Kind, name: Name, line: nat, text: Seq<char>) -> Seq<char>;

/// The listing of a token stream: the lines of its tokens, in order.
pub open spec fn listing(ts: Seq<TokenView>) -> Seq<char>
    decreases ts.len(),
{
    if ts.len() == 0 {
        seq![]
    } else {
        let t = ts.last();
        listing(ts.drop_last()) + token_line_text(t.kind, t.name, t.line, t.text)
    }
}

/// The number of line feeds in `s`.
pub open spec fn line_count(s: Seq<char>) -> nat
    decreases s.len(),
{
    if s.len() == 0 {
        0
    } else {
        line_count(s.drop_last()) + if s.last() == '\n' {
            1nat
        } else {
            0nat
        }
    }
}

/// Line feeds add up over concatenation.
pub proof fn lemma_line_count_concat(a: Seq<char>, b: Seq<char>)
    ensures
        line_count(a + b) == line_count(a) + line_count(b),
    decreases b.len(),
{
    if b.len() == 0 {
        assert(a + b =~= a);
    } else {
        lemma_line_count_concat(a, b.drop_last());
        assert((a + b).drop_last() =~= a + b.drop_last());
        assert((a + b).last() == b.last());
    }
}

/// The listing of two token streams, one after the other, is the listing
/// of the first followed by that of the second; an empty stream lists as
/// empty text.
pub proof fn lemma_listing_concat(a: Seq<Token>, b: Seq<Token>)
    ensures
        listing(tokens_view(a + b)) == listing(tokens_view(a)) + listing(tokens_view(b)),
        listing(tokens_view(Seq::<Token>::empty())) == Seq::<char>::empty(),
    decreases b.len(),
{
    assert(tokens_view(Seq::<Token>::empty()) =~= Seq::<TokenView>::empty());
    if b.len() == 0 {
        assert(a + b =~= a);
        assert(tokens_view(b) =~= Seq::<TokenView>::empty());
        assert(listing(tokens_view(a)) + Seq::<char>::empty() =~= listing(tokens_view(a)));
    } else {
        lemma_listing_concat(a, b.drop_last());
        let va = tokens_view(a);
        let vb = tokens_view(b);
        let vab = tokens_view(a + b);
        assert(vab.drop_last() =~= tokens_view(a + b.drop_last()));
        assert(vb.drop_last() =~= tokens_view(b.drop_last()));
        assert(vab.last() == vb.last());
        let t = vb.last();
        let line = token_line_text(t.kind, t.name, t.line, t.text);
        assert(listing(va) + listing(vb.drop_last()) + line =~= listing(va) + (listing(vb.drop_last())
            + line));
    }
}

/// Formats one token as `kind name line "text"`, the first two padded to
/// twelve places and the line to four, ended by a newline. Claimed besides
/// the name: the line holds exactly one line feed, its last character;
/// `{:?}` writes the kind and the name as bare variant names and escapes
/// any line feed in the text as `\n`.
#[verifier::external_body]
fn token_line(t: &Token) -> (r: String)
    ensures
        r@ == token_line_text(t.of.kind, t.of.name, t.meta.line as nat, t.meta.text@),
        r@.len() > 0 && r@.last() == '\n' && line_count(r@) == 1,
{
    format!(
        "{:<12} {:<12} {:<4} {:?}\n",
        format!("{:?}", t.of.kind),
        format!("{:?}", t.of.name),
        t.meta.line,
        t.meta.text
    )
}

/// Lists `data`, one line per token.
pub fn token_string(data: &Vec<Token>) -> (r: String)
    ensures
        r@ == listing(tokens_view(data@)),
        line_count(r@) == data@.len(),
{
    let mut output = String::new();
    let mut i: usize = 0;
    while i < data.len()
        invariant
            i <= data@.len(),
            output@ == listing(tokens_view(data@).subrange(0, i as int)),
            line_count(output@) == i,
        decreases data@.len() - i,
    {
        let line = token_line(&data[i]);
        let ghost before = output@;
        output.append(line.as_str());
        proof {
            lemma_line_count_concat(before, line@);
            let s = tokens_view(data@);
            assert(s.subrange(0, i + 1).drop_last() =~= s.subrange(0, i as int));
            assert(s.subrange(0, i + 1).last() == data@[i as int]@);
        }
        i = i + 1;
    }
    proof {
        assert(tokens_view(data@).subrange(0, data@.len() as int) =~= tokens_view(data@));
    }
    output
}

} // verus!
