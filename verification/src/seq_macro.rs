//! The `seq!` macro: `seq!(N in 0..8 { ... })` repeats its body once per
//! value of `N`.
//!
//! Inside the body, an identifier `N` becomes the current value as an
//! unsuffixed integer literal, `name # N` becomes one identifier with the
//! value appended to `name`, and `#( ... )*` repeats only the parenthesised
//! part over the whole range; once such a section has been expanded as the
//! last thing of the body, the body itself is expanded only once.
use vstd::prelude::*;
use crate::text::{
    chars_of, copy_text, decimal, decimal_text, parse_u64, parse_u64_spec, push_decimal, push_str,
    text_eq, text_is, IntParseError,
};
use crate::tokens::{
    copy_stream, copy_token, lemma_view_stream, lemma_view_stream_add, lemma_view_stream_push, view_stream,
    view_token, Delimiter, Spacing, TokenTree, TokenView, CALL_SITE,
};

verus! {

// ---------------------------------------------------------------------------
// What an expansion produces
// ---------------------------------------------------------------------------

pub open spec fn is_hash(t: TokenView) -> bool {
    t matches TokenView::Punct(c, _, _) && c == '#'
}

pub open spec fn is_ident_named(t: TokenView, name: Seq<char>) -> bool {
    t matches TokenView::Ident(x, _) && x == name
}

/// What `parse_tree` makes of the first token of `s`: the produced token,
/// how many tokens of `s` are used up, and whether a `#( ... )*` section
/// was expanded (at this token or, for a group, as the last thing inside it).
pub open spec fn expand_step(
    s: Seq<TokenView>,
    var: Seq<char>,
    value: u64,
    start: u64,
    end: u64,
) -> (TokenView, int, bool)
    decreases s, 1int,
{
    if s.len() == 0 {
        (TokenView::Punct('#', Spacing::Alone, CALL_SITE), 1, false)
    } else {
        match s[0] {
            TokenView::Group(d, inner, _, _) => {
                let e = expand_stream(inner, var, value, start, end);
                (
                    TokenView::Group(d, e.0, CALL_SITE, CALL_SITE),
                    if e.1 { 3int } else { 1int },
                    e.1,
                )
            },
            TokenView::Ident(name, _) => {
                if s.len() > 2 && is_hash(s[1]) && is_ident_named(s[2], var) {
                    (TokenView::Ident(name + decimal(value as nat), CALL_SITE), 3, false)
                } else if name == var {
                    (TokenView::Literal(decimal(value as nat), CALL_SITE), 1, false)
                } else {
                    (s[0], 1, false)
                }
            },
            TokenView::Punct(c, _, _) => {
                if c == '#' && s.len() > 1 && s[1] is Group && s[1]->Group_0
                    == Delimiter::Parenthesis {
                    (
                        TokenView::Group(
                            Delimiter::NoDelim,
                            expand_range(s[1]->Group_1, var, start, end, start as int),
                            CALL_SITE,
                            CALL_SITE,
                        ),
                        3,
                        true,
                    )
                } else {
                    (s[0], 1, false)
                }
            },
            TokenView::Literal(_, _) => (s[0], 1, false),
        }
    }
}

/// The expansion of a token stream for one value of the variable, and
/// whether its last expanded token ended a `#( ... )*` section.
pub open spec fn expand_stream(
    s: Seq<TokenView>,
    var: Seq<char>,
    value: u64,
    start: u64,
    end: u64,
) -> (Seq<TokenView>, bool)
    decreases s, 2int,
{
    if s.len() == 0 {
        (Seq::empty(), false)
    } else {
        let st = expand_step(s, var, value, start, end);
        let next = if st.1 < 1 {
            1
        } else if st.1 >= s.len() {
            s.len() as int
        } else {
            st.1
        };
        let rest = s.subrange(next, s.len() as int);
        let e = expand_stream(rest, var, value, start, end);
        (seq![st.0] + e.0, if rest.len() == 0 { st.2 } else { e.1 })
    }
}

/// The expansion of `body` for the values `i`, `i + 1`, ... below `end`,
/// stopping after the first value whose expansion ended a `#( ... )*`
/// section.
pub open spec fn expand_range(
    body: Seq<TokenView>,
    var: Seq<char>,
    start: u64,
    end: u64,
    i: int,
) -> Seq<TokenView>
    decreases body, end - i + 3,
{
    if i >= end || i < 0 {
        Seq::empty()
    } else {
        let e = expand_stream(body, var, i as u64, start, end);
        if e.1 {
            e.0
        } else {
            e.0 + expand_range(body, var, start, end, i + 1)
        }
    }
}

// ---------------------------------------------------------------------------
// Expansion
// ---------------------------------------------------------------------------

/// The range of values that a `seq!` invocation repeats over.
#[derive(Clone, Copy, Debug)]
pub struct RepeatRange {
    pub start: u64,
    pub end: u64,
}

fn is_hash_token(t: &TokenTree) -> (r: bool)
    ensures
        r == is_hash(view_token(*t)),
{
    match t {
        TokenTree::Punct { ch, .. } => *ch == '#',
        _ => false,
    }
}

fn is_ident_token_named(t: &TokenTree, name: &Vec<char>) -> (r: bool)
    ensures
        r == is_ident_named(view_token(*t), name@),
{
    match t {
        TokenTree::Ident { text, .. } => text_eq(text, name),
        _ => false,
    }
}

/// Expands the token at `pos` of `s`, looking at it and the two tokens after
/// it; returns the produced token, how many tokens it used up,
/// and whether it ended a `#( ... )*` section.
fn parse_tree(
    s: &Vec<TokenTree>,
    pos: usize,
    range: &RepeatRange,
    old: &Vec<char>,
    new: u64,
) -> (r: (TokenTree, usize, bool))
    requires
        pos < s.len(),
    ensures
        (view_token(r.0), r.1 as int, r.2) == expand_step(
            view_stream(s@).subrange(pos as int, s@.len() as int),
            old@,
            new,
            range.start,
            range.end,
        ),
    decreases s@, 1int,
{
    let ghost vs = view_stream(s@).subrange(pos as int, s@.len() as int);
    proof {
        lemma_view_stream(s@);
        assert(vs[0] == view_token(s@[pos as int]));
        if pos + 1 < s.len() {
            assert(vs[1] == view_token(s@[pos + 1]));
        }
        if pos + 2 < s.len() {
            assert(vs[2] == view_token(s@[pos + 2]));
        }
    }
    match &s[pos] {
        TokenTree::Group { delimiter, stream, .. } => {
            let (inner, b) = parse(stream, range, old, new);
            let g = TokenTree::Group {
                delimiter: *delimiter,
                stream: inner,
                span: CALL_SITE,
                open_span: CALL_SITE,
            };
            (g, if b { 3 } else { 1 }, b)
        },
        TokenTree::Ident { text, .. } => {
            let with_sharp = pos + 1 < s.len() && is_hash_token(&s[pos + 1]);
            let with_ident = s.len() - pos > 2 && is_ident_token_named(&s[pos + 2], old);
            if with_sharp && with_ident {
                let mut name = copy_text(text);
                push_decimal(&mut name, new);
                (TokenTree::Ident { text: name, span: CALL_SITE }, 3, false)
            } else if text_eq(text, old) {
                (TokenTree::Literal { text: decimal_text(new), span: CALL_SITE }, 1, false)
            } else {
                (copy_token(&s[pos]), 1, false)
            }
        },
        TokenTree::Punct { ch, .. } => {
            if *ch == '#' && pos + 1 < s.len() {
                match &s[pos + 1] {
                    TokenTree::Group { delimiter: Delimiter::Parenthesis, stream, .. } => {
                        let expanded = parse_range(stream, range, old);
                        let g = TokenTree::Group {
                            delimiter: Delimiter::NoDelim,
                            stream: expanded,
                            span: CALL_SITE,
                            open_span: CALL_SITE,
                        };
                        (g, 3, true)
                    },
                    _ => (copy_token(&s[pos]), 1, false),
                }
            } else {
                (copy_token(&s[pos]), 1, false)
            }
        },
        TokenTree::Literal { .. } => (copy_token(&s[pos]), 1, false),
    }
}

/// Expands a token stream for one value `new` of the variable `old`;
/// also returns whether its last expanded token ended a `#( ... )*` section.
fn parse(s: &Vec<TokenTree>, range: &RepeatRange, old: &Vec<char>, new: u64) -> (r: (
    Vec<TokenTree>,
    bool,
))
    ensures
        (view_stream(r.0@), r.1) == expand_stream(
            view_stream(s@),
            old@,
            new,
            range.start,
            range.end,
        ),
    decreases s@, 2int,
{
    let ghost full = expand_stream(view_stream(s@), old@, new, range.start, range.end);
    let ghost len = s@.len() as int;
    let mut v: Vec<TokenTree> = Vec::new();
    let mut rage_break = false;
    let mut pos: usize = 0;
    proof {
        lemma_view_stream(s@);
        assert(view_stream(s@).subrange(0, len) =~= view_stream(s@));
    }
    while pos < s.len()
        invariant
            pos <= s.len(),
            len == s@.len(),
            full == expand_stream(view_stream(s@), old@, new, range.start, range.end),
            view_stream(v@) + expand_stream(
                view_stream(s@).subrange(pos as int, len),
                old@,
                new,
                range.start,
                range.end,
            ).0 == full.0,
            pos < len ==> expand_stream(
                view_stream(s@).subrange(pos as int, len),
                old@,
                new,
                range.start,
                range.end,
            ).1 == full.1,
            pos == len ==> rage_break == full.1,
        decreases s.len() - pos,
    {
        let (tt, used, rb) = parse_tree(s, pos, range, old, new);
        let next: usize = if used < 1 {
            pos + 1
        } else if used >= s.len() - pos {
            s.len()
        } else {
            pos + used
        };
        proof {
            lemma_view_stream(s@);
            let sub = view_stream(s@).subrange(pos as int, len);
            let st = expand_step(sub, old@, new, range.start, range.end);
            let k = if st.1 < 1 {
                1
            } else if st.1 >= sub.len() {
                sub.len() as int
            } else {
                st.1
            };
            assert(k + pos == next);
            assert(sub.subrange(k, sub.len() as int) =~= view_stream(s@).subrange(
                next as int,
                len,
            ));
            lemma_view_stream_push(v@, tt);
            let e = expand_stream(view_stream(s@).subrange(next as int, len), old@, new, range.start, range.end);
            assert(view_stream(v@.push(tt)) + e.0 =~= view_stream(v@) + (seq![view_token(tt)] + e.0));
        }
        v.push(tt);
        rage_break = rb;
        pos = next;
    }
    (v, rage_break)
}

/// Expands `stream` once per value of the range, stopping after a value
/// whose expansion ended a `#( ... )*` section.
fn parse_range(stream: &Vec<TokenTree>, range: &RepeatRange, old: &Vec<char>) -> (r: Vec<
    TokenTree,
>)
    ensures
        view_stream(r@) == expand_range(
            view_stream(stream@),
            old@,
            range.start,
            range.end,
            range.start as int,
        ),
    decreases stream@, 3int,
{
    let ghost full = expand_range(
        view_stream(stream@),
        old@,
        range.start,
        range.end,
        range.start as int,
    );
    let mut out: Vec<TokenTree> = Vec::new();
    let mut i: u64 = range.start;
    proof {
        assert(view_stream(out@) =~= Seq::<TokenView>::empty());
        assert(view_stream(out@) + full =~= full);
    }
    while i < range.end
        invariant
            range.start <= i,
            view_stream(out@) + expand_range(
                view_stream(stream@),
                old@,
                range.start,
                range.end,
                i as int,
            ) == full,
            full == expand_range(
                view_stream(stream@),
                old@,
                range.start,
                range.end,
                range.start as int,
            ),
        decreases range.end - i,
    {
        let (mut s, range_break) = parse(stream, range, old, i);
        let ghost before = out@;
        let ghost sv = s@;
        out.append(&mut s);
        proof {
            lemma_view_stream_add(before, sv);
            assert(out@ == before + sv);
        }
        if range_break {
            return out;
        }
        proof {
            let rest = expand_range(view_stream(stream@), old@, range.start, range.end, i + 1);
            assert(view_stream(out@) + rest =~= view_stream(before) + (view_stream(sv) + rest));
        }
        i += 1;
    }
    proof {
        assert(view_stream(out@) + Seq::<TokenView>::empty() =~= view_stream(out@));
    }
    out
}

// ---------------------------------------------------------------------------
// The invocation: `N in START..END { BODY }`
// ---------------------------------------------------------------------------

/// The stream as a token parser sees it: invisible groups are looked into,
/// as if their tokens stood in their place.
pub open spec fn flatten_none(s: Seq<TokenView>) -> Seq<TokenView>
    decreases s,
{
    if s.len() == 0 {
        Seq::empty()
    } else {
        let head = match s[0] {
            TokenView::Group(Delimiter::NoDelim, inner, _, _) => flatten_none(inner),
            _ => seq![s[0]],
        };
        head + flatten_none(s.subrange(1, s.len() as int))
    }
}

/// The words that a parsed identifier may not be.
pub open spec fn is_reserved_word(w: Seq<char>) -> bool {
    ||| w == "_"@ ||| w == "abstract"@ ||| w == "as"@ ||| w == "become"@
    ||| w == "box"@ ||| w == "break"@ ||| w == "const"@ ||| w == "continue"@
    ||| w == "crate"@ ||| w == "do"@ ||| w == "else"@ ||| w == "enum"@
    ||| w == "extern"@ ||| w == "false"@ ||| w == "final"@ ||| w == "fn"@
    ||| w == "for"@ ||| w == "if"@ ||| w == "impl"@ ||| w == "in"@
    ||| w == "let"@ ||| w == "loop"@ ||| w == "macro"@ ||| w == "match"@
    ||| w == "mod"@ ||| w == "move"@ ||| w == "mut"@ ||| w == "override"@
    ||| w == "priv"@ ||| w == "pub"@ ||| w == "ref"@ ||| w == "return"@
    ||| w == "Self"@ ||| w == "self"@ ||| w == "static"@ ||| w == "struct"@
    ||| w == "super"@ ||| w == "trait"@ ||| w == "true"@ ||| w == "type"@
    ||| w == "typeof"@ ||| w == "unsafe"@ ||| w == "unsized"@ ||| w == "use"@
    ||| w == "virtual"@ ||| w == "where"@ ||| w == "while"@ ||| w == "yield"@
}

/// The span that an error at this token points to (a group's opening
/// delimiter for a group).
pub open spec fn open_span_of(t: TokenView) -> u64 {
    match t {
        TokenView::Group(_, _, _, open) => open,
        TokenView::Ident(_, sp) => sp,
        TokenView::Punct(_, _, sp) => sp,
        TokenView::Literal(_, sp) => sp,
    }
}

/// The span of a whole token.
pub open spec fn span_of(t: TokenView) -> u64 {
    match t {
        TokenView::Group(_, _, sp, _) => sp,
        TokenView::Ident(_, sp) => sp,
        TokenView::Punct(_, _, sp) => sp,
        TokenView::Literal(_, sp) => sp,
    }
}

/// An error of a macro invocation: where it points (`None` for the macro
/// call site) and its message.
pub struct MacroErrorView {
    pub span: Option<u64>,
    pub message: Seq<char>,
}

/// The error that an expectation that fails at token `k` gives: at the token,
/// or at the end of the input with a note that the input ended.
pub open spec fn expected_at(f: Seq<TokenView>, k: int, what: Seq<char>) -> MacroErrorView {
    if k < f.len() {
        MacroErrorView { span: Some(open_span_of(f[k])), message: what }
    } else {
        MacroErrorView { span: None, message: "unexpected end of input, "@ + what }
    }
}

/// The message of an integer parse error (as `ParseIntError` displays it).
pub open spec fn int_error_message(e: IntParseError) -> Seq<char> {
    match e {
        IntParseError::Empty => "cannot parse integer from empty string"@,
        IntParseError::InvalidDigit => "invalid digit found in string"@,
        IntParseError::PosOverflow => "number too large to fit in target type"@,
    }
}

/// A parsed invocation: the variable, the range and the body.
pub struct SeqHeaderView {
    pub var: Seq<char>,
    pub start: u64,
    pub end: u64,
    pub body: Seq<TokenView>,
}

/// The meaning of the tokens of an invocation, given as the parser sees them
/// (`f` = `flatten_none` of the input): an identifier that is no reserved
/// word, `in`, an integer literal, `..`, an integer literal, and a group in
/// parentheses, braces or brackets, with nothing after it.
pub open spec fn parse_header(f: Seq<TokenView>) -> Result<SeqHeaderView, MacroErrorView> {
    if !(f.len() > 0 && f[0] is Ident && !is_reserved_word(f[0]->Ident_0)) {
        Err(expected_at(f, 0, "expected identifier"@))
    } else if !(f.len() > 1 && is_ident_named(f[1], "in"@)) {
        Err(expected_at(f, 1, "expected `in`"@))
    } else if !(f.len() > 2 && f[2] is Literal) {
        Err(expected_at(f, 2, "expected literal token"@))
    } else if parse_u64_spec(f[2]->Literal_0) is Err {
        Err(
            MacroErrorView {
                span: Some(span_of(f[2])),
                message: int_error_message(parse_u64_spec(f[2]->Literal_0)->Err_0),
            },
        )
    } else if !(f.len() > 4 && f[3] is Punct && f[3]->Punct_0 == '.' && f[3]->Punct_1
        == Spacing::Joint && f[4] is Punct && f[4]->Punct_0 == '.') {
        Err(
            MacroErrorView {
                span: if f.len() > 3 {
                    Some(open_span_of(f[3]))
                } else {
                    None
                },
                message: "expected `..`"@,
            },
        )
    } else if !(f.len() > 5 && f[5] is Literal) {
        Err(expected_at(f, 5, "expected literal token"@))
    } else if parse_u64_spec(f[5]->Literal_0) is Err {
        Err(
            MacroErrorView {
                span: Some(span_of(f[5])),
                message: int_error_message(parse_u64_spec(f[5]->Literal_0)->Err_0),
            },
        )
    } else if !(f.len() > 6 && f[6] is Group && f[6]->Group_0 != Delimiter::NoDelim) {
        Err(expected_at(f, 6, "expected group token"@))
    } else if f.len() > 7 {
        Err(MacroErrorView { span: Some(span_of(f[7])), message: "unexpected token"@ })
    } else {
        Ok(
            SeqHeaderView {
                var: f[0]->Ident_0,
                start: parse_u64_spec(f[2]->Literal_0)->Ok_0,
                end: parse_u64_spec(f[5]->Literal_0)->Ok_0,
                body: f[6]->Group_1,
            },
        )
    }
}

/// The whole expansion of an invocation given as token stream `input`.
pub open spec fn seq_expansion(input: Seq<TokenView>) -> Result<Seq<TokenView>, MacroErrorView> {
    match parse_header(flatten_none(input)) {
        Ok(h) => Ok(expand_range(h.body, h.var, h.start, h.end, h.start as int)),
        Err(e) => Err(e),
    }
}

/// An error of a macro invocation, to be reported as a compile error.
#[derive(Debug)]
pub struct MacroError {
    /// The span handle the error points to; `None` for the call site.
    pub span: Option<u64>,
    pub message: Vec<char>,
}

impl View for MacroError {
    type V = MacroErrorView;

    open spec fn view(&self) -> MacroErrorView {
        MacroErrorView { span: self.span, message: self.message@ }
    }
}

/// A parsed `seq!` invocation.
#[derive(Debug)]
pub struct SeqInput {
    /// The loop variable.
    pub var: Vec<char>,
    pub start: u64,
    pub end: u64,
    pub stream: Vec<TokenTree>,
}

impl View for SeqInput {
    type V = SeqHeaderView;

    open spec fn view(&self) -> SeqHeaderView {
        SeqHeaderView {
            var: self.var@,
            start: self.start,
            end: self.end,
            body: view_stream(self.stream@),
        }
    }
}

/// Appends the tokens of `s`, with invisible groups replaced by their
/// flattened contents, to `out`.
fn flatten_none_into(out: &mut Vec<TokenTree>, s: &Vec<TokenTree>)
    ensures
        view_stream(final(out)@) == view_stream(old(out)@) + flatten_none(view_stream(s@)),
    decreases s@,
{
    let ghost start = view_stream(out@);
    let ghost all = flatten_none(view_stream(s@));
    let ghost len = s@.len() as int;
    let mut i: usize = 0;
    proof {
        lemma_view_stream(s@);
        assert(view_stream(s@).subrange(0, len) =~= view_stream(s@));
        assert(start + all =~= start + all);
    }
    while i < s.len()
        invariant
            i <= s.len(),
            len == s@.len(),
            all == flatten_none(view_stream(s@)),
            view_stream(out@) + flatten_none(view_stream(s@).subrange(i as int, len)) == start
                + all,
        decreases s.len() - i,
    {
        let ghost before = view_stream(out@);
        let ghost sub = view_stream(s@).subrange(i as int, len);
        proof {
            lemma_view_stream(s@);
            assert(sub[0] == view_token(s@[i as int]));
            assert(sub.subrange(1, sub.len() as int) =~= view_stream(s@).subrange(i + 1, len));
        }
        match &s[i] {
            TokenTree::Group { delimiter: Delimiter::NoDelim, stream, .. } => {
                flatten_none_into(out, stream);
            },
            _ => {
                let t = copy_token(&s[i]);
                proof {
                    lemma_view_stream_push(out@, t);
                }
                out.push(t);
            },
        }
        proof {
            let rest = flatten_none(view_stream(s@).subrange(i + 1, len));
            assert(view_stream(out@) + rest =~= before + flatten_none(sub));
        }
        i += 1;
    }
    proof {
        assert(view_stream(s@).subrange(len, len) =~= Seq::<TokenView>::empty());
        assert(view_stream(out@) + Seq::<TokenView>::empty() =~= view_stream(out@));
    }
}

fn reserved_word(w: &Vec<char>) -> (r: bool)
    ensures
        r == is_reserved_word(w@),
{
    text_is(w, "_") || text_is(w, "abstract") || text_is(w, "as") || text_is(w, "become")
        || text_is(w, "box") || text_is(w, "break") || text_is(w, "const") || text_is(
        w,
        "continue",
    ) || text_is(w, "crate") || text_is(w, "do") || text_is(w, "else") || text_is(w, "enum")
        || text_is(w, "extern") || text_is(w, "false") || text_is(w, "final") || text_is(w, "fn")
        || text_is(w, "for") || text_is(w, "if") || text_is(w, "impl") || text_is(w, "in")
        || text_is(w, "let") || text_is(w, "loop") || text_is(w, "macro") || text_is(w, "match")
        || text_is(w, "mod") || text_is(w, "move") || text_is(w, "mut") || text_is(
        w,
        "override",
    ) || text_is(w, "priv") || text_is(w, "pub") || text_is(w, "ref") || text_is(w, "return")
        || text_is(w, "Self") || text_is(w, "self") || text_is(w, "static") || text_is(
        w,
        "struct",
    ) || text_is(w, "super") || text_is(w, "trait") || text_is(w, "true") || text_is(w, "type")
        || text_is(w, "typeof") || text_is(w, "unsafe") || text_is(w, "unsized") || text_is(
        w,
        "use",
    ) || text_is(w, "virtual") || text_is(w, "where") || text_is(w, "while") || text_is(
        w,
        "yield",
    )
}

fn token_open_span(t: &TokenTree) -> (r: u64)
    ensures
        r == open_span_of(view_token(*t)),
{
    match t {
        TokenTree::Group { open_span, .. } => *open_span,
        TokenTree::Ident { span, .. } => *span,
        TokenTree::Punct { span, .. } => *span,
        TokenTree::Literal { span, .. } => *span,
    }
}

fn token_span(t: &TokenTree) -> (r: u64)
    ensures
        r == span_of(view_token(*t)),
{
    match t {
        TokenTree::Group { span, .. } => *span,
        TokenTree::Ident { span, .. } => *span,
        TokenTree::Punct { span, .. } => *span,
        TokenTree::Literal { span, .. } => *span,
    }
}

fn expected_error(f: &Vec<TokenTree>, k: usize, what: &str) -> (r: MacroError)
    ensures
        r@ == expected_at(view_stream(f@), k as int, what@),
{
    proof {
        lemma_view_stream(f@);
    }
    if k < f.len() {
        MacroError { span: Some(token_open_span(&f[k])), message: chars_of(what) }
    } else {
        let mut m = chars_of("unexpected end of input, ");
        push_str(&mut m, what);
        MacroError { span: None, message: m }
    }
}

fn int_error_text(e: IntParseError) -> (r: Vec<char>)
    ensures
        r@ == int_error_message(e),
{
    match e {
        IntParseError::Empty => chars_of("cannot parse integer from empty string"),
        IntParseError::InvalidDigit => chars_of("invalid digit found in string"),
        IntParseError::PosOverflow => chars_of("number too large to fit in target type"),
    }
}

/// Reads an integer literal at `k` of `f`.
fn literal_value(f: &Vec<TokenTree>, k: usize) -> (r: Result<u64, MacroError>)
    requires
        k < f.len(),
        view_stream(f@)[k as int] is Literal,
    ensures
        match parse_u64_spec(view_stream(f@)[k as int]->Literal_0) {
            Ok(v) => r == Ok::<u64, MacroError>(v),
            Err(e) => r is Err && r->Err_0@ == (MacroErrorView {
                span: Some(span_of(view_stream(f@)[k as int])),
                message: int_error_message(e),
            }),
        },
{
    proof {
        lemma_view_stream(f@);
    }
    match &f[k] {
        TokenTree::Literal { text, span } => match parse_u64(text) {
            Ok(v) => Ok(v),
            Err(e) => Err(MacroError { span: Some(*span), message: int_error_text(e) }),
        },
        _ => {
            proof {
                assert(false);
            }
            Err(MacroError { span: None, message: Vec::new() })
        },
    }
}

impl SeqInput {
    /// Parses `N in START..END { BODY }`.
    pub fn parse(input: &Vec<TokenTree>) -> (r: Result<SeqInput, MacroError>)
        ensures
            match parse_header(flatten_none(view_stream(input@))) {
                Ok(h) => r is Ok && r->Ok_0@ == h,
                Err(e) => r is Err && r->Err_0@ == e,
            },
    {
        let mut f: Vec<TokenTree> = Vec::new();
        flatten_none_into(&mut f, input);
        let ghost fv = view_stream(f@);
        proof {
            assert(view_stream(Seq::<TokenTree>::empty()) =~= Seq::<TokenView>::empty());
            assert(fv =~= flatten_none(view_stream(input@)));
            lemma_view_stream(f@);
        }
        let var = match f.len() > 0 {
            true => match &f[0] {
                TokenTree::Ident { text, .. } => {
                    if reserved_word(text) {
                        return Err(expected_error(&f, 0, "expected identifier"));
                    }
                    copy_text(text)
                },
                _ => return Err(expected_error(&f, 0, "expected identifier")),
            },
            false => return Err(expected_error(&f, 0, "expected identifier")),
        };
        let is_in = f.len() > 1 && match &f[1] {
            TokenTree::Ident { text, .. } => text_is(text, "in"),
            _ => false,
        };
        if !is_in {
            return Err(expected_error(&f, 1, "expected `in`"));
        }
        let lit_start = f.len() > 2 && match &f[2] {
            TokenTree::Literal { .. } => true,
            _ => false,
        };
        if !lit_start {
            return Err(expected_error(&f, 2, "expected literal token"));
        }
        let start = literal_value(&f, 2)?;
        let dots = f.len() > 4 && match (&f[3], &f[4]) {
            (
                TokenTree::Punct { ch: c3, spacing: Spacing::Joint, .. },
                TokenTree::Punct { ch: c4, .. },
            ) => *c3 == '.' && *c4 == '.',
            _ => false,
        };
        if !dots {
            let span = if f.len() > 3 {
                Some(token_open_span(&f[3]))
            } else {
                None
            };
            return Err(MacroError { span, message: chars_of("expected `..`") });
        }
        let lit_end = f.len() > 5 && match &f[5] {
            TokenTree::Literal { .. } => true,
            _ => false,
        };
        if !lit_end {
            return Err(expected_error(&f, 5, "expected literal token"));
        }
        let end = literal_value(&f, 5)?;
        if f.len() <= 6 {
            return Err(expected_error(&f, 6, "expected group token"));
        }
        let stream = match &f[6] {
            TokenTree::Group { delimiter, stream, .. } => {
                if *delimiter == Delimiter::NoDelim {
                    return Err(expected_error(&f, 6, "expected group token"));
                }
                copy_stream(stream)
            },
            _ => return Err(expected_error(&f, 6, "expected group token")),
        };
        if f.len() > 7 {
            return Err(
                MacroError { span: Some(token_span(&f[7])), message: chars_of("unexpected token") },
            );
        }
        Ok(SeqInput { var, start, end, stream })
    }
}

/// Expands a `seq!` invocation, or gives the error that the invocation
/// is reported with.
pub fn seq(input: &Vec<TokenTree>) -> (r: Result<Vec<TokenTree>, MacroError>)
    ensures
        match seq_expansion(view_stream(input@)) {
            Ok(out) => r is Ok && view_stream(r->Ok_0@) == out,
            Err(e) => r is Err && r->Err_0@ == e,
        },
{
    let parsed = SeqInput::parse(input)?;
    let range = RepeatRange { start: parsed.start, end: parsed.end };
    let out = parse_range(&parsed.stream, &range, &parsed.var);
    Ok(out)
}

// ---------------------------------------------------------------------------
// Laws
// ---------------------------------------------------------------------------

/// The stream holds no `#` and no identifier named `var`, at any depth.
pub open spec fn untouched(s: Seq<TokenView>, var: Seq<char>) -> bool
    decreases s,
{
    if s.len() == 0 {
        true
    } else {
        let head = match s[0] {
            TokenView::Group(_, inner, _, _) => untouched(inner, var),
            TokenView::Ident(name, _) => name != var,
            TokenView::Punct(c, _, _) => c != '#',
            TokenView::Literal(_, _) => true,
        };
        head && untouched(s.subrange(1, s.len() as int), var)
    }
}

/// The stream with every group rebuilt at the call site (the expansion
/// rebuilds groups, so their spans become the call site's).
pub open spec fn respan_groups(s: Seq<TokenView>) -> Seq<TokenView>
    decreases s,
{
    if s.len() == 0 {
        Seq::empty()
    } else {
        let head = match s[0] {
            TokenView::Group(d, inner, _, _) => TokenView::Group(
                d,
                respan_groups(inner),
                CALL_SITE,
                CALL_SITE,
            ),
            _ => s[0],
        };
        seq![head] + respan_groups(s.subrange(1, s.len() as int))
    }
}

/// `n` copies of `s`, one after the other.
pub open spec fn repeat(s: Seq<TokenView>, n: int) -> Seq<TokenView>
    decreases n,
{
    if n <= 0 {
        Seq::empty()
    } else {
        s + repeat(s, n - 1)
    }
}

/// A stream that never mentions the variable and holds no `#` expands to
/// itself (with its groups rebuilt at the call site), whatever the value.
pub proof fn law_untouched_stream_expands_to_itself(
    s: Seq<TokenView>,
    var: Seq<char>,
    value: u64,
    start: u64,
    end: u64,
)
    requires
        untouched(s, var),
    ensures
        expand_stream(s, var, value, start, end) == (respan_groups(s), false),
    decreases s,
{
    if s.len() > 0 {
        let rest = s.subrange(1, s.len() as int);
        law_untouched_stream_expands_to_itself(rest, var, value, start, end);
        match s[0] {
            TokenView::Group(d, inner, _, _) => {
                law_untouched_stream_expands_to_itself(inner, var, value, start, end);
            },
            TokenView::Ident(name, _) => {
                if s.len() > 2 {
                    assert(s[1] == rest[0]);
                    assert(untouched(rest, var));
                    assert(!is_hash(rest[0]));
                }
            },
            _ => {},
        }
        let st = expand_step(s, var, value, start, end);
        assert(st.1 == 1);
        assert(s.subrange(1, s.len() as int) == rest);
    }
}

/// Repeating a body that never mentions the variable and holds no `#`
/// copies it once per remaining value of the range.
pub proof fn law_untouched_body_is_repeated(
    body: Seq<TokenView>,
    var: Seq<char>,
    start: u64,
    end: u64,
    i: int,
)
    requires
        untouched(body, var),
        0 <= i,
    ensures
        expand_range(body, var, start, end, i) == repeat(respan_groups(body), end - i),
    decreases end - i,
{
    if i < end {
        law_untouched_stream_expands_to_itself(body, var, i as u64, start, end);
        law_untouched_body_is_repeated(body, var, start, end, i + 1);
    }
}

/// `seq!(N in a..b { body })` with a body that never mentions `N` and holds
/// no `#` gives the body `b - a` times (none when `b <= a`).
pub proof fn law_seq_repeats_body(input: Seq<TokenView>)
    requires
        parse_header(flatten_none(input)) is Ok,
        untouched(
            parse_header(flatten_none(input))->Ok_0.body,
            parse_header(flatten_none(input))->Ok_0.var,
        ),
    ensures
        ({
            let h = parse_header(flatten_none(input))->Ok_0;
            seq_expansion(input) == Ok::<Seq<TokenView>, MacroErrorView>(
                repeat(respan_groups(h.body), h.end - h.start),
            )
        }),
{
    let h = parse_header(flatten_none(input))->Ok_0;
    law_untouched_body_is_repeated(h.body, h.var, h.start, h.end, h.start as int);
}

/// A body that is the variable alone expands to the values of the range,
/// in increasing order, each as an integer literal.
pub proof fn law_variable_becomes_each_value(
    var: Seq<char>,
    span: u64,
    start: u64,
    end: u64,
    i: int,
)
    requires
        0 <= i,
    ensures
        ({
            let out = expand_range(seq![TokenView::Ident(var, span)], var, start, end, i);
            &&& out.len() == (if end > i { end - i } else { 0 })
            &&& forall|k: int|
                0 <= k < out.len() ==> out[k] == TokenView::Literal(
                    decimal((i + k) as nat),
                    CALL_SITE,
                )
        }),
    decreases end - i,
{
    let body = seq![TokenView::Ident(var, span)];
    if i < end {
        law_variable_becomes_each_value(var, span, start, end, i + 1);
        let e = expand_stream(body, var, i as u64, start, end);
        let rest = body.subrange(1, 1);
        assert(rest =~= Seq::<TokenView>::empty());
        assert((i as u64) as nat == i as nat);
        let st = expand_step(body, var, i as u64, start, end);
        assert(st == (TokenView::Literal(decimal(i as nat), CALL_SITE), 1int, false));
        assert(expand_stream(rest, var, i as u64, start, end) == (Seq::<TokenView>::empty(), false));
        assert(e.0 =~= seq![TokenView::Literal(decimal(i as nat), CALL_SITE)]);
        assert(!e.1);
        let out = expand_range(body, var, start, end, i);
        let tail = expand_range(body, var, start, end, i + 1);
        assert(out == e.0 + tail);
        assert forall|k: int| 0 <= k < out.len() implies out[k] == TokenView::Literal(
            decimal((i + k) as nat),
            CALL_SITE,
        ) by {
            if k > 0 {
                assert(out[k] == tail[k - 1]);
            }
        }
    }
}


/// `name # N` at the head of a stream becomes the single identifier `name`
/// followed by the full decimal numeral of the current value, and the three
/// tokens are used up; the rest of the stream expands on its own.
pub proof fn law_pasted_identifier(
    name: Seq<char>,
    span: u64,
    hash: TokenView,
    v: TokenView,
    rest: Seq<TokenView>,
    var: Seq<char>,
    value: u64,
    start: u64,
    end: u64,
)
    requires
        is_hash(hash),
        is_ident_named(v, var),
    ensures
        expand_stream(seq![TokenView::Ident(name, span), hash, v] + rest, var, value, start, end).0
            == seq![TokenView::Ident(name + decimal(value as nat), CALL_SITE)] + expand_stream(
            rest,
            var,
            value,
            start,
            end,
        ).0,
{
    let s = seq![TokenView::Ident(name, span), hash, v] + rest;
    assert(s[0] == TokenView::Ident(name, span));
    assert(s[1] == hash && s[2] == v);
    let st = expand_step(s, var, value, start, end);
    assert(st == (TokenView::Ident(name + decimal(value as nat), CALL_SITE), 3int, false));
    assert(s.subrange(3, s.len() as int) =~= rest);
}

/// A body whose expansion for each value `v` of `i..end` is the single
/// token `g(v)` gives, over the range, `g(i), g(i + 1), ...`.
proof fn lemma_range_of_single_tokens(
    body: Seq<TokenView>,
    var: Seq<char>,
    start: u64,
    end: u64,
    i: int,
    g: spec_fn(int) -> TokenView,
)
    requires
        0 <= i,
        forall|v: int|
            #![trigger g(v)]
            i <= v < end ==> expand_stream(body, var, v as u64, start, end) == (seq![g(v)], false),
    ensures
        ({
            let out = expand_range(body, var, start, end, i);
            &&& out.len() == (if end > i { end - i } else { 0 })
            &&& forall|k: int| 0 <= k < out.len() ==> out[k] == g(i + k)
        }),
    decreases end - i,
{
    if i < end {
        assert(expand_stream(body, var, i as u64, start, end) == (seq![g(i)], false));
        lemma_range_of_single_tokens(body, var, start, end, i + 1, g);
        let out = expand_range(body, var, start, end, i);
        let tail = expand_range(body, var, start, end, i + 1);
        assert(out == seq![g(i)] + tail);
        assert forall|k: int| 0 <= k < out.len() implies out[k] == g(i + k) by {
            if k > 0 {
                assert(out[k] == tail[k - 1]);
            }
        }
    }
}

/// What a `#( inner )*` section at the head of a stream gives: one
/// invisible group, holding the expansion of `inner` over the invocation's
/// range, and the mark that a section was expanded.
proof fn lemma_section_head(
    hash: TokenView,
    inner: Seq<TokenView>,
    sp1: u64,
    sp2: u64,
    third: TokenView,
    var: Seq<char>,
    value: u64,
    start: u64,
    end: u64,
)
    requires
        is_hash(hash),
    ensures
        expand_stream(
            seq![hash, TokenView::Group(Delimiter::Parenthesis, inner, sp1, sp2), third],
            var,
            value,
            start,
            end,
        ) == (
            seq![
                TokenView::Group(
                    Delimiter::NoDelim,
                    expand_range(inner, var, start, end, start as int),
                    CALL_SITE,
                    CALL_SITE,
                ),
            ],
            true,
        ),
{
    let s = seq![hash, TokenView::Group(Delimiter::Parenthesis, inner, sp1, sp2), third];
    let st = expand_step(s, var, value, start, end);
    assert(st.1 == 3);
    let rest = s.subrange(3, 3);
    assert(rest =~= Seq::<TokenView>::empty());
    assert(expand_stream(rest, var, value, start, end) == (Seq::<TokenView>::empty(), false));
    assert(seq![st.0] + Seq::<TokenView>::empty() =~= seq![st.0]);
}

/// A section `#( N )*` gives the literals `start, start + 1, ..., end - 1`
/// of the invocation's range and nothing else, whatever the current value,
/// and it marks the body as expanded once.
pub proof fn law_section_of_the_variable(
    hash: TokenView,
    span: u64,
    sp1: u64,
    sp2: u64,
    third: TokenView,
    var: Seq<char>,
    value: u64,
    start: u64,
    end: u64,
)
    requires
        is_hash(hash),
    ensures
        ({
            let e = expand_stream(
                seq![
                    hash,
                    TokenView::Group(
                        Delimiter::Parenthesis,
                        seq![TokenView::Ident(var, span)],
                        sp1,
                        sp2,
                    ),
                    third,
                ],
                var,
                value,
                start,
                end,
            );
            &&& e.1
            &&& e.0.len() == 1
            &&& e.0[0] is Group
            &&& e.0[0]->Group_0 == Delimiter::NoDelim
            &&& e.0[0]->Group_1.len() == (if end > start { end - start } else { 0 })
            &&& forall|k: int|
                0 <= k < e.0[0]->Group_1.len() ==> e.0[0]->Group_1[k] == TokenView::Literal(
                    decimal((start + k) as nat),
                    CALL_SITE,
                )
        }),
{
    lemma_section_head(
        hash,
        seq![TokenView::Ident(var, span)],
        sp1,
        sp2,
        third,
        var,
        value,
        start,
        end,
    );
    law_variable_becomes_each_value(var, span, start, end, start as int);
}

/// A section `#( name # N )*` gives the identifiers `name` followed by the
/// full decimal numeral of each value of the invocation's range, in
/// increasing order.
pub proof fn law_section_pastes_each_value(
    hash: TokenView,
    name: Seq<char>,
    span: u64,
    inner_hash: TokenView,
    v: TokenView,
    sp1: u64,
    sp2: u64,
    third: TokenView,
    var: Seq<char>,
    value: u64,
    start: u64,
    end: u64,
)
    requires
        is_hash(hash),
        is_hash(inner_hash),
        is_ident_named(v, var),
    ensures
        ({
            let inner = seq![TokenView::Ident(name, span), inner_hash, v];
            let e = expand_stream(
                seq![hash, TokenView::Group(Delimiter::Parenthesis, inner, sp1, sp2), third],
                var,
                value,
                start,
                end,
            );
            &&& e.1
            &&& e.0.len() == 1
            &&& e.0[0] is Group
            &&& e.0[0]->Group_0 == Delimiter::NoDelim
            &&& e.0[0]->Group_1.len() == (if end > start { end - start } else { 0 })
            &&& forall|k: int|
                0 <= k < e.0[0]->Group_1.len() ==> e.0[0]->Group_1[k] == TokenView::Ident(
                    name + decimal((start + k) as nat),
                    CALL_SITE,
                )
        }),
{
    let inner = seq![TokenView::Ident(name, span), inner_hash, v];
    lemma_section_head(hash, inner, sp1, sp2, third, var, value, start, end);
    let g = |x: int| TokenView::Ident(name + decimal(x as nat), CALL_SITE);
    assert forall|x: int|
        #![trigger g(x)]
        start <= x < end implies expand_stream(inner, var, x as u64, start, end) == (
        seq![g(x)],
        false,
    ) by {
        let empty = Seq::<TokenView>::empty();
        assert(inner + empty =~= inner);
        law_pasted_identifier(name, span, inner_hash, v, empty, var, x as u64, start, end);
        assert(expand_stream(empty, var, x as u64, start, end) == (empty, false));
        let s = inner;
        let st = expand_step(s, var, x as u64, start, end);
        assert(st.1 == 3 && !st.2);
        assert(s.subrange(3, 3) =~= empty);
        assert(seq![g(x)] + empty =~= seq![g(x)]);
    }
    lemma_range_of_single_tokens(inner, var, start, end, start as int, g);
}

/// `seq!(N in a..b { #( N )* })` gives one invisible group holding the
/// literals `a, ..., b - 1`, or nothing when the range is empty.
pub proof fn law_seq_section_gives_each_value(input: Seq<TokenView>)
    requires
        parse_header(flatten_none(input)) is Ok,
        ({
            let h = parse_header(flatten_none(input))->Ok_0;
            &&& h.body.len() == 3
            &&& is_hash(h.body[0])
            &&& h.body[1] is Group
            &&& h.body[1]->Group_0 == Delimiter::Parenthesis
            &&& h.body[1]->Group_1.len() == 1
            &&& is_ident_named(h.body[1]->Group_1[0], h.var)
        }),
    ensures
        ({
            let h = parse_header(flatten_none(input))->Ok_0;
            let out = seq_expansion(input)->Ok_0;
            &&& seq_expansion(input) is Ok
            &&& h.end <= h.start ==> out.len() == 0
            &&& h.start < h.end ==> {
                &&& out.len() == 1
                &&& out[0] is Group
                &&& out[0]->Group_0 == Delimiter::NoDelim
                &&& out[0]->Group_1.len() == h.end - h.start
                &&& forall|k: int|
                    0 <= k < h.end - h.start ==> out[0]->Group_1[k] == TokenView::Literal(
                        decimal((h.start + k) as nat),
                        CALL_SITE,
                    )
            }
        }),
{
    let h = parse_header(flatten_none(input))->Ok_0;
    let b = h.body;
    let g = b[1];
    let span = g->Group_1[0]->Ident_1;
    assert(g->Group_1 =~= seq![TokenView::Ident(h.var, span)]);
    assert(b =~= seq![
        b[0],
        TokenView::Group(Delimiter::Parenthesis, seq![TokenView::Ident(h.var, span)], g->Group_2, g->Group_3),
        b[2],
    ]);
    if h.start < h.end {
        law_section_of_the_variable(b[0], span, g->Group_2, g->Group_3, b[2], h.var, h.start, h.start, h.end);
        let e = expand_stream(b, h.var, h.start, h.start, h.end);
        assert((h.start as int) as u64 == h.start);
        assert(expand_range(b, h.var, h.start, h.end, h.start as int) == e.0);
    }
}

} // verus!
