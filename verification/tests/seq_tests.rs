use macro_workshop::seq_macro::{MacroError, SeqInput};
use macro_workshop::tokens::{Delimiter, Spacing, TokenTree, CALL_SITE};
use proc_macro2::TokenStream;
use std::str::FromStr;

fn text(s: &str) -> Vec<char> {
    s.chars().collect()
}

fn string(t: &[char]) -> String {
    t.iter().collect()
}

struct Spans {
    next: u64,
}

fn to_model(stream: TokenStream, spans: &mut Spans) -> Vec<TokenTree> {
    stream
        .into_iter()
        .map(|tt| {
            spans.next += 1;
            let span = spans.next;
            match tt {
                proc_macro2::TokenTree::Group(g) => {
                    let delimiter = match g.delimiter() {
                        proc_macro2::Delimiter::Parenthesis => Delimiter::Parenthesis,
                        proc_macro2::Delimiter::Brace => Delimiter::Brace,
                        proc_macro2::Delimiter::Bracket => Delimiter::Bracket,
                        proc_macro2::Delimiter::None => Delimiter::NoDelim,
                    };
                    spans.next += 1;
                    let open_span = spans.next;
                    TokenTree::Group { delimiter, stream: to_model(g.stream(), spans), span, open_span }
                }
                proc_macro2::TokenTree::Ident(i) => TokenTree::Ident { text: text(&i.to_string()), span },
                proc_macro2::TokenTree::Punct(p) => TokenTree::Punct {
                    ch: p.as_char(),
                    spacing: match p.spacing() {
                        proc_macro2::Spacing::Alone => Spacing::Alone,
                        proc_macro2::Spacing::Joint => Spacing::Joint,
                    },
                    span,
                },
                proc_macro2::TokenTree::Literal(l) => TokenTree::Literal { text: text(&l.to_string()), span },
            }
        })
        .collect()
}

/// The tokens of the model written out, one token per word, groups with
/// their delimiters (an invisible group as `<` `>`).
fn render(stream: &[TokenTree]) -> String {
    let mut words: Vec<String> = Vec::new();
    for t in stream {
        match t {
            TokenTree::Group { delimiter, stream, .. } => {
                let (open, close) = match delimiter {
                    Delimiter::Parenthesis => ("(", ")"),
                    Delimiter::Brace => ("{", "}"),
                    Delimiter::Bracket => ("[", "]"),
                    Delimiter::NoDelim => ("<", ">"),
                };
                let inner = render(stream);
                if inner.is_empty() {
                    words.push(format!("{}{}", open, close));
                } else {
                    words.push(format!("{} {} {}", open, inner, close));
                }
            }
            TokenTree::Ident { text, .. } => words.push(string(text)),
            TokenTree::Punct { ch, .. } => words.push(ch.to_string()),
            TokenTree::Literal { text, .. } => words.push(string(text)),
        }
    }
    words.join(" ")
}

fn model(src: &str) -> Vec<TokenTree> {
    let mut spans = Spans { next: 0 };
    to_model(TokenStream::from_str(src).unwrap(), &mut spans)
}

fn expand(src: &str) -> Result<String, MacroError> {
    macro_workshop::seq_macro::seq(&model(src)).map(|out| render(&out))
}

fn error_of(src: &str) -> (Option<u64>, String) {
    match macro_workshop::seq_macro::seq(&model(src)) {
        Ok(out) => panic!("expected an error, got {}", render(&out)),
        Err(e) => (e.span, string(&e.message)),
    }
}

#[test]
fn parses_the_invocation() {
    let parsed = SeqInput::parse(&model("N in 0..4 { x }")).unwrap();
    assert_eq!(string(&parsed.var), "N");
    assert_eq!(parsed.start, 0);
    assert_eq!(parsed.end, 4);
    assert_eq!(render(&parsed.stream), "x");
}

#[test]
fn repeats_the_body_with_the_value() {
    let out = expand("N in 0..4 { compile_error!(concat!(\"error number \", stringify!(N))); }").unwrap();
    let one = |n: u32| format!("compile_error ! ( concat ! ( \"error number \" , stringify ! ( {} ) ) ) ;", n);
    assert_eq!(out, format!("{} {} {} {}", one(0), one(1), one(2), one(3)));
}

#[test]
fn pastes_the_value_onto_identifiers() {
    let out = expand("N in 1..4 { fn f#N () -> u64 { N * 2 } }").unwrap();
    assert_eq!(
        out,
        "fn f1 () - > u64 { 1 * 2 } fn f2 () - > u64 { 2 * 2 } fn f3 () - > u64 { 3 * 2 }"
    );
}

#[test]
fn repeats_only_the_marked_section() {
    let out = expand("N in 0..3 { enum Interrupt { #( Irq#N, )* } }").unwrap();
    assert_eq!(out, "enum Interrupt { < Irq0 , Irq1 , Irq2 , > }");
}

#[test]
fn section_followed_by_more_tokens_repeats_the_body() {
    // The marked section is not the last thing of the body, so the body
    // itself is repeated too, each time with the whole section.
    let out = expand("N in 0..2 { a #(b)* c }").unwrap();
    assert_eq!(out, "a < b b > c a < b b > c");
}

#[test]
fn section_at_the_end_of_a_group_skips_two_tokens() {
    let out = expand("N in 0..2 { [#(x)*] y z w }").unwrap();
    assert_eq!(out, "[ < x x > ] w [ < x x > ] w");
}

#[test]
fn empty_range_gives_nothing() {
    assert_eq!(expand("N in 4..2 { x }").unwrap(), "");
    assert_eq!(expand("N in 3..3 { x }").unwrap(), "");
}

#[test]
fn variable_alone_becomes_each_value() {
    let out = macro_workshop::seq_macro::seq(&model("N in 3..6 { N }")).unwrap();
    assert_eq!(out.len(), 3);
    for (k, t) in out.iter().enumerate() {
        match t {
            TokenTree::Literal { text, span } => {
                assert_eq!(string(text), (3 + k).to_string());
                assert_eq!(*span, CALL_SITE);
            }
            _ => panic!("expected a literal"),
        }
    }
}

#[test]
fn untouched_body_is_copied_per_value() {
    assert_eq!(expand("I in 0..3 { struct S; }").unwrap(), "struct S ; struct S ; struct S ;");
}

#[test]
fn group_spans_move_to_the_call_site() {
    let out = macro_workshop::seq_macro::seq(&model("N in 0..1 { (a) }")).unwrap();
    match &out[0] {
        TokenTree::Group { span, open_span, .. } => {
            assert_eq!(*span, CALL_SITE);
            assert_eq!(*open_span, CALL_SITE);
        }
        _ => panic!("expected a group"),
    }
    match &out[0] {
        TokenTree::Group { stream, .. } => match &stream[0] {
            TokenTree::Ident { span, .. } => assert_ne!(*span, CALL_SITE),
            _ => panic!("expected an identifier"),
        },
        _ => unreachable!(),
    }
}

#[test]
fn other_variables_and_hashes_stay() {
    assert_eq!(expand("N in 0..1 { M # x #[attr] }").unwrap(), "M # x # [ attr ]");
}

#[test]
fn invisible_groups_in_the_invocation_are_looked_into() {
    let inner = vec![
        TokenTree::Ident { text: text("N"), span: 1 },
        TokenTree::Ident { text: text("in"), span: 2 },
    ];
    let mut input = vec![TokenTree::Group { delimiter: Delimiter::NoDelim, stream: inner, span: 3, open_span: 4 }];
    input.extend(model("0..2 { N }"));
    let out = macro_workshop::seq_macro::seq(&input).unwrap();
    assert_eq!(render(&out), "0 1");
}

#[test]
fn error_for_a_missing_variable() {
    assert_eq!(error_of(""), (None, "unexpected end of input, expected identifier".to_string()));
    let (span, message) = error_of("5 in 0..1 {}");
    assert_eq!(message, "expected identifier");
    assert_eq!(span, Some(1));
}

#[test]
fn error_for_a_reserved_word() {
    let (span, message) = error_of("fn in 0..1 {}");
    assert_eq!((span, message.as_str()), (Some(1), "expected identifier"));
}

#[test]
fn error_for_a_missing_in() {
    let (span, message) = error_of("N on 0..1 {}");
    assert_eq!((span, message.as_str()), (Some(2), "expected `in`"));
    let (span, message) = error_of("N");
    assert_eq!((span, message.as_str()), (None, "unexpected end of input, expected `in`"));
}

#[test]
fn error_for_a_missing_literal() {
    let (span, message) = error_of("N in x..1 {}");
    assert_eq!((span, message.as_str()), (Some(3), "expected literal token"));
    let (span, message) = error_of("N in 0..{}");
    assert_eq!((span, message.as_str()), (Some(7), "expected literal token"));
}

#[test]
fn error_for_a_literal_that_is_no_integer() {
    let (span, message) = error_of("N in 0x10..1 {}");
    assert_eq!((span, message.as_str()), (Some(3), "invalid digit found in string"));
    let (span, message) = error_of("N in 0..1u8 {}");
    assert_eq!((span, message.as_str()), (Some(6), "invalid digit found in string"));
    let (span, message) = error_of("N in 0..18446744073709551616 {}");
    assert_eq!((span, message.as_str()), (Some(6), "number too large to fit in target type"));
}

#[test]
fn error_for_a_missing_range() {
    let (span, message) = error_of("N in 0 . . 4 {}");
    assert_eq!((span, message.as_str()), (Some(4), "expected `..`"));
    let (span, message) = error_of("N in 0");
    assert_eq!((span, message.as_str()), (None, "expected `..`"));
    let (span, message) = error_of("N in 0 {}");
    // the error points at the opening brace of the group
    assert_eq!((span, message.as_str()), (Some(5), "expected `..`"));
}

#[test]
fn error_for_a_missing_body() {
    let (span, message) = error_of("N in 0..4");
    assert_eq!((span, message.as_str()), (None, "unexpected end of input, expected group token"));
    let (span, message) = error_of("N in 0..4 x");
    assert_eq!((span, message.as_str()), (Some(7), "expected group token"));
}

#[test]
fn error_for_tokens_after_the_body() {
    let (span, message) = error_of("N in 0..4 {} x");
    assert_eq!((span, message.as_str()), (Some(9), "unexpected token"));
}

#[test]
fn largest_range_end_is_accepted() {
    let parsed = SeqInput::parse(&model("N in 18446744073709551614..18446744073709551615 { N }")).unwrap();
    assert_eq!(parsed.end, u64::MAX);
    assert_eq!(expand("N in 18446744073709551614..18446744073709551615 { N }").unwrap(), "18446744073709551614");
}
