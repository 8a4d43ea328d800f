use macro_workshop::sorted_check::{
    check, show_path_str, show_str, sorted, sorted_variants, ArmModel, AttrModel, ItemModel,
    MatchError, MatchModel, PatModel, PathModel, PathSegmentModel, VariantModel, Visitor,
};
use quote::ToTokens;
use syn::{ExprMatch, Pat, PathArguments};

fn text(s: &str) -> Vec<char> {
    s.chars().collect()
}

fn string(t: &[char]) -> String {
    t.iter().collect()
}

fn variants(names: &[&str]) -> Vec<VariantModel> {
    names
        .iter()
        .enumerate()
        .map(|(i, n)| VariantModel { name: text(n), span: 10 + i as u64 })
        .collect()
}

fn path_model(p: &syn::Path) -> PathModel {
    PathModel {
        leading_colon: p.leading_colon.is_some(),
        segments: p
            .segments
            .iter()
            .map(|s| PathSegmentModel {
                ident: text(&s.ident.to_string()),
                has_arguments: !matches!(s.arguments, PathArguments::None),
                text: text(&s.to_token_stream().to_string()),
            })
            .collect(),
    }
}

fn match_model(src: &str) -> MatchModel {
    let em: ExprMatch = syn::parse_str(src).unwrap();
    MatchModel {
        attrs: em
            .attrs
            .iter()
            .enumerate()
            .map(|(position, a)| AttrModel { position, path: path_model(&a.path) })
            .collect(),
        arms: em
            .arms
            .iter()
            .map(|arm| ArmModel {
                pat: match &arm.pat {
                    Pat::TupleStruct(p) => PatModel::TupleStruct { path: path_model(&p.path) },
                    Pat::Path(p) => PatModel::Path { path: path_model(&p.path) },
                    Pat::Ident(i) => PatModel::Ident { ident: text(&i.ident.to_string()) },
                    Pat::Wild(_) => PatModel::Wild,
                    _ => PatModel::Other,
                },
                key: text(&arm.pat.to_token_stream().to_string()),
            })
            .collect(),
    }
}

#[test]
fn sorted_enum_passes() {
    let vs = variants(&["RustBeltRust", "RustConf", "RustFest", "RustLatam", "RustRush"]);
    assert!(sorted_variants(&vs).is_ok());
    assert!(sorted(&ItemModel::Enum { variants: vs }).is_ok());
}

#[test]
fn empty_and_repeated_names_pass() {
    assert!(sorted_variants(&variants(&[])).is_ok());
    assert!(sorted_variants(&variants(&["A", "A", "B"])).is_ok());
}

#[test]
fn unsorted_enum_is_reported_at_the_variant_that_belongs_there() {
    let vs = variants(&["ThatFailed", "ThisFailed", "SomethingFailed", "WhoKnowsWhatFailed"]);
    let e = sorted_variants(&vs).unwrap_err();
    assert_eq!(string(&e.message), "SomethingFailed should sort before ThatFailed");
    assert_eq!(e.span, Some(12));
}

#[test]
fn first_of_equal_smallest_names_is_reported() {
    let vs = variants(&["B", "C", "A", "B", "A"]);
    let e = sorted_variants(&vs).unwrap_err();
    assert_eq!(string(&e.message), "A should sort before B");
    assert_eq!(e.span, Some(12));
}

#[test]
fn order_is_by_character_code() {
    // Upper-case letters come before lower-case ones.
    assert!(sorted_variants(&variants(&["Zeta", "alpha"])).is_ok());
    let e = sorted_variants(&variants(&["alpha", "Zeta"])).unwrap_err();
    assert_eq!(string(&e.message), "Zeta should sort before alpha");
    // A prefix comes first.
    let e = sorted_variants(&variants(&["Ab", "A"])).unwrap_err();
    assert_eq!(string(&e.message), "A should sort before Ab");
}

#[test]
fn non_enum_is_reported() {
    let e = sorted(&ItemModel::Other).unwrap_err();
    assert_eq!(string(&e.message), "expected enum or match expression");
    assert_eq!(e.span, None);
}

#[test]
fn shows_paths_without_spaces() {
    let m = match_model("match x { ::std::fmt::Error => 0, Vec::<u8>::new => 1, Error::Io(e) => 2, e => 3, _ => 4 }");
    match &m.arms[0].pat {
        PatModel::Path { path } => assert_eq!(string(&show_path_str(path)), "::std::fmt::Error"),
        _ => panic!("expected a path"),
    }
    assert_eq!(string(&show_str(&m.arms[1].pat)), "Vec :: < u8 >::new");
    assert_eq!(string(&show_str(&m.arms[2].pat)), "Error::Io");
    assert_eq!(string(&show_str(&m.arms[3].pat)), "e");
    assert_eq!(string(&show_str(&m.arms[4].pat)), "");
}

#[test]
fn sorted_match_passes_and_loses_its_attribute() {
    let mut ms = vec![match_model(
        "#[sorted] match e { Error::Fmt(e) => 1, Error::Io(e) => 2, Error::Utf8(e) => 3, _ => 4 }",
    )];
    assert!(check(&mut ms).is_none());
    assert!(ms[0].attrs.is_empty());
    assert_eq!(ms[0].arms.len(), 4);
}

#[test]
fn unsorted_match_is_reported() {
    let mut ms = vec![match_model(
        "#[sorted] match e { Error::Io(e) => 1, Error::Fmt(e) => 2 }",
    )];
    let err = check(&mut ms).unwrap();
    assert_eq!(err.match_index, 0);
    match err.error {
        MatchError::OutOfOrder { arm, message } => {
            assert_eq!(arm, 1);
            assert_eq!(string(&message), "Error::Fmt should sort before Error::Io");
        }
        _ => panic!("expected an order error"),
    }
}

#[test]
fn identifier_arms_are_named_by_identifier() {
    let mut ms = vec![match_model("#[sorted] match x { b => 1, a => 2 }")];
    match check(&mut ms).unwrap().error {
        MatchError::OutOfOrder { arm, message } => {
            assert_eq!(arm, 1);
            assert_eq!(string(&message), "a should sort before b");
        }
        _ => panic!("expected an order error"),
    }
}

#[test]
fn wildcard_before_the_last_arm_is_reported() {
    let mut ms = vec![match_model("#[sorted] match x { A => 1, _ => 2, B => 3 }")];
    match check(&mut ms).unwrap().error {
        MatchError::WildcardNotLast { arm } => assert_eq!(arm, 1),
        _ => panic!("expected a wildcard error"),
    }
}

#[test]
fn unsupported_pattern_is_reported() {
    let mut ms = vec![match_model("#[sorted] match x { A => 1, Error::Fmt { .. } => 2, 0 => 3 }")];
    match check(&mut ms).unwrap().error {
        MatchError::Unsupported { arm } => assert_eq!(arm, 1),
        _ => panic!("expected an unsupported-pattern error"),
    }
}

#[test]
fn unmarked_match_is_left_alone() {
    let mut ms = vec![match_model("#[inline] match x { B => 1, A => 2 }")];
    assert!(check(&mut ms).is_none());
    assert_eq!(ms[0].attrs.len(), 1);
    assert_eq!(ms[0].attrs[0].position, 0);
}

#[test]
fn only_the_sorted_attributes_are_removed() {
    let mut ms = vec![match_model("#[a] #[sorted] #[b] #[sorted] match x { A => 1 }")];
    assert!(check(&mut ms).is_none());
    let positions: Vec<usize> = ms[0].attrs.iter().map(|a| a.position).collect();
    assert_eq!(positions, vec![0, 2]);
}

#[test]
fn qualified_sorted_attribute_does_not_count() {
    let mut ms = vec![match_model("#[my::sorted] match x { B => 1, A => 2 }")];
    assert!(check(&mut ms).is_none());
    assert_eq!(ms[0].attrs.len(), 1);
}

#[test]
fn the_last_error_is_kept() {
    let mut ms = vec![
        match_model("#[sorted] match x { B => 1, A => 2 }"),
        match_model("match x { D => 1, C => 2 }"),
        match_model("#[sorted] match x { Z => 1, Y => 2 }"),
        match_model("#[sorted] match x { P => 1, Q => 2 }"),
    ];
    let err = check(&mut ms).unwrap();
    assert_eq!(err.match_index, 2);
    match err.error {
        MatchError::OutOfOrder { message, .. } => assert_eq!(string(&message), "Y should sort before Z"),
        _ => panic!("expected an order error"),
    }
}

#[test]
fn sort_key_is_the_printed_pattern() {
    // Sorting goes by the printed pattern ("A (x)" before "A :: B"), the
    // comparison by the path alone: `A(x)` and `A::B` in this order pass.
    let mut ms = vec![match_model("#[sorted] match x { A(x) => 1, A::B => 2 }")];
    assert!(check(&mut ms).is_none());
    let mut ms = vec![match_model("#[sorted] match x { A::B => 1, A(x) => 2 }")];
    match check(&mut ms).unwrap().error {
        MatchError::OutOfOrder { arm, message } => {
            assert_eq!(arm, 1);
            assert_eq!(string(&message), "A should sort before A::B");
        }
        _ => panic!("expected an order error"),
    }
}

#[test]
fn visitor_records_one_match() {
    let mut v = Visitor { err: None };
    let mut m = match_model("#[sorted] match x { B => 1, A => 2 }");
    v.visit_expr_match_mut(7, &mut m);
    assert!(m.attrs.is_empty());
    assert_eq!(v.err.as_ref().unwrap().match_index, 7);
    let mut n = match_model("#[sorted] match x { A => 1, B => 2 }");
    v.visit_expr_match_mut(8, &mut n);
    assert_eq!(v.err.unwrap().match_index, 7);
}
