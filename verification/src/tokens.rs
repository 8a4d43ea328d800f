//! A plain model of proc-macro token trees.
//!
//! Spans are opaque handles: the caller that builds a stream out of compiler
//! tokens numbers their spans and resolves the handles again when it turns
//! the result back into compiler tokens. Tokens that the macros create
//! themselves carry `CALL_SITE`.
use vstd::prelude::*;

verus! {

/// The span handle of tokens created at the macro call site.
pub const CALL_SITE: u64 = 0;

/// The delimiter of a group.
#[derive(Clone, Copy, Debug, PartialEq, Eq, Structural)]
pub enum Delimiter {
    Parenthesis,
    Brace,
    Bracket,
    /// An invisible delimiter.
    NoDelim,
}

/// Whether a punctuation character is followed directly by another one.
#[derive(Clone, Copy, Debug, PartialEq, Eq, Structural)]
pub enum Spacing {
    Alone,
    Joint,
}

/// A token tree: a delimited group, an identifier, a punctuation character
/// or a literal. Identifiers and literals hold their source text.
#[derive(Debug)]
pub enum TokenTree {
    Group { delimiter: Delimiter, stream: Vec<TokenTree>, span: u64, open_span: u64 },
    Ident { text: Vec<char>, span: u64 },
    Punct { ch: char, spacing: Spacing, span: u64 },
    Literal { text: Vec<char>, span: u64 },
}

/// The mathematical value of a token tree.
pub enum TokenView {
    Group(Delimiter, Seq<TokenView>, u64, u64),
    Ident(Seq<char>, u64),
    Punct(char, Spacing, u64),
    Literal(Seq<char>, u64),
}

pub open spec fn view_token(t: TokenTree) -> TokenView
    decreases t, 1int,
{
    match t {
        TokenTree::Group { delimiter, stream, span, open_span } => TokenView::Group(
            delimiter,
            view_stream(stream@),
            span,
            open_span,
        ),
        TokenTree::Ident { text, span } => TokenView::Ident(text@, span),
        TokenTree::Punct { ch, spacing, span } => TokenView::Punct(ch, spacing, span),
        TokenTree::Literal { text, span } => TokenView::Literal(text@, span),
    }
}

pub open spec fn view_stream(s: Seq<TokenTree>) -> Seq<TokenView>
    decreases s, 0int,
{
    if s.len() == 0 {
        Seq::empty()
    } else {
        view_stream(s.subrange(0, s.len() - 1)).push(view_token(s[s.len() - 1]))
    }
}

impl View for TokenTree {
    type V = TokenView;

    open spec fn view(&self) -> TokenView {
        view_token(*self)
    }
}

/// The view of a stream has one element per token, each the token's view.
pub proof fn lemma_view_stream(s: Seq<TokenTree>)
    ensures
        view_stream(s).len() == s.len(),
        forall|i: int| 0 <= i < s.len() ==> #[trigger] view_stream(s)[i] == view_token(s[i]),
    decreases s.len(),
{
    if s.len() > 0 {
        lemma_view_stream(s.subrange(0, s.len() - 1));
    }
}

/// Viewing a stream with one more token appends the token's view.
pub proof fn lemma_view_stream_push(s: Seq<TokenTree>, t: TokenTree)
    ensures
        view_stream(s.push(t)) == view_stream(s).push(view_token(t)),
{
    assert(s.push(t).subrange(0, s.len() as int) =~= s);
}

/// Viewing the concatenation of two streams concatenates their views.
pub proof fn lemma_view_stream_add(a: Seq<TokenTree>, b: Seq<TokenTree>)
    ensures
        view_stream(a + b) == view_stream(a) + view_stream(b),
{
    lemma_view_stream(a);
    lemma_view_stream(b);
    lemma_view_stream(a + b);
    assert(view_stream(a + b) =~= view_stream(a) + view_stream(b));
}

/// A deep copy of a token tree.
pub fn copy_token(t: &TokenTree) -> (r: TokenTree)
    ensures
        view_token(r) == view_token(*t),
    decreases *t, 1int,
{
    match t {
        TokenTree::Group { delimiter, stream, span, open_span } => {
            let s = copy_stream(stream);
            TokenTree::Group { delimiter: *delimiter, stream: s, span: *span, open_span: *open_span }
        },
        TokenTree::Ident { text, span } => {
            let mut c: Vec<char> = Vec::new();
            crate::text::push_text(&mut c, text);
            assert(c@ =~= text@);
            TokenTree::Ident { text: c, span: *span }
        },
        TokenTree::Punct { ch, spacing, span } => TokenTree::Punct {
            ch: *ch,
            spacing: *spacing,
            span: *span,
        },
        TokenTree::Literal { text, span } => {
            let mut c: Vec<char> = Vec::new();
            crate::text::push_text(&mut c, text);
            assert(c@ =~= text@);
            TokenTree::Literal { text: c, span: *span }
        },
    }
}

/// A deep copy of a token stream.
pub fn copy_stream(s: &Vec<TokenTree>) -> (r: Vec<TokenTree>)
    ensures
        view_stream(r@) == view_stream(s@),
    decreases s@, 0int,
{
    let mut r: Vec<TokenTree> = Vec::new();
    let mut i: usize = 0;
    while i < s.len()
        invariant
            i <= s.len(),
            view_stream(r@) == view_stream(s@.subrange(0, i as int)),
        decreases s.len() - i,
    {
        let t = copy_token(&s[i]);
        proof {
            lemma_view_stream_push(r@, t);
            lemma_view_stream_push(s@.subrange(0, i as int), s@[i as int]);
            assert(s@.subrange(0, i as int).push(s@[i as int]) =~= s@.subrange(0, i + 1));
        }
        r.push(t);
        i += 1;
    }
    assert(s@.subrange(0, s@.len() as int) =~= s@);
    r
}

/// Appends a deep copy of the tokens of `s` to `out`.
pub fn extend_stream(out: &mut Vec<TokenTree>, s: &Vec<TokenTree>)
    ensures
        view_stream(final(out)@) == view_stream(old(out)@) + view_stream(s@),
{
    let ghost start = out@;
    let mut i: usize = 0;
    while i < s.len()
        invariant
            i <= s.len(),
            view_stream(out@) == view_stream(start) + view_stream(s@.subrange(0, i as int)),
        decreases s.len() - i,
    {
        let t = copy_token(&s[i]);
        proof {
            lemma_view_stream_push(out@, t);
            lemma_view_stream_push(s@.subrange(0, i as int), s@[i as int]);
            assert(s@.subrange(0, i as int).push(s@[i as int]) =~= s@.subrange(0, i + 1));
        }
        out.push(t);
        i += 1;
    }
    assert(s@.subrange(0, s@.len() as int) =~= s@);
}

} // verus!
