use macro_workshop::builder::{
    contain_option_type, contain_type_by, derive_supported, extract_generics_type,
    extract_meta_by_atribute, extract_option_generics_type, extract_vector_generics_type, fields,
    quote_build_fields, quote_builder_fields, quote_init_for_builder_fields, quote_setter,
    BuildPlan, BuilderError, BuilderFieldPlan, DataModel, DeriveInputModel, FieldModel,
    FieldsModel, GenericArgModel, InitPlan, MetaModel, NestedMetaModel, PathArgsModel, SetterPlan,
    TypeModel, TypeSegmentModel,
};
use quote::ToTokens;
use syn::{Data, DeriveInput, Fields, GenericArgument, Lit, Meta, NestedMeta, PathArguments, Type};

fn text(s: &str) -> Vec<char> {
    s.chars().collect()
}

fn string(t: &[char]) -> String {
    t.iter().collect()
}

/// The model of a derive input, with the printed text of each numbered type.
struct Parsed {
    model: DeriveInputModel,
    types: Vec<String>,
}

fn type_model(ty: &Type, types: &mut Vec<String>) -> TypeModel {
    match ty {
        Type::Path(p) => TypeModel::Path {
            segments: p
                .path
                .segments
                .iter()
                .map(|s| TypeSegmentModel {
                    ident: text(&s.ident.to_string()),
                    arguments: match &s.arguments {
                        PathArguments::None => PathArgsModel::NoArgs,
                        PathArguments::AngleBracketed(g) => PathArgsModel::AngleBracketed {
                            args: g
                                .args
                                .iter()
                                .map(|a| match a {
                                    GenericArgument::Type(t) => {
                                        types.push(t.to_token_stream().to_string());
                                        GenericArgModel::Type { ty: (types.len() - 1) as u64 }
                                    }
                                    _ => GenericArgModel::Other,
                                })
                                .collect(),
                        },
                        PathArguments::Parenthesized(_) => PathArgsModel::Parenthesized,
                    },
                })
                .collect(),
        },
        _ => TypeModel::Other,
    }
}

fn meta_model(attr: &syn::Attribute) -> MetaModel {
    match attr.parse_meta() {
        Ok(Meta::Path(_)) => MetaModel::Path,
        Ok(Meta::NameValue(_)) => MetaModel::NameValue,
        Ok(Meta::List(list)) => MetaModel::List {
            nested: list
                .nested
                .iter()
                .map(|n| match n {
                    NestedMeta::Meta(Meta::NameValue(nv)) => match &nv.lit {
                        Lit::Str(s) => NestedMetaModel::NameValueStr { value: text(&s.value()) },
                        _ => NestedMetaModel::OtherMeta,
                    },
                    NestedMeta::Meta(_) => NestedMetaModel::OtherMeta,
                    NestedMeta::Lit(_) => NestedMetaModel::Lit,
                })
                .collect(),
        },
        Err(_) => MetaModel::Unparsable,
    }
}

fn parse(src: &str) -> Parsed {
    let input: DeriveInput = syn::parse_str(src).unwrap();
    let mut types: Vec<String> = Vec::new();
    let data = match &input.data {
        Data::Struct(s) => DataModel::Struct {
            fields: match &s.fields {
                Fields::Named(named) => FieldsModel::Named {
                    named: named
                        .named
                        .iter()
                        .map(|f| {
                            types.push(f.ty.to_token_stream().to_string());
                            let ty = (types.len() - 1) as u64;
                            FieldModel {
                                ident: text(&f.ident.as_ref().unwrap().to_string()),
                                ty,
                                shape: type_model(&f.ty, &mut types),
                                attrs: f.attrs.iter().map(meta_model).collect(),
                            }
                        })
                        .collect(),
                },
                Fields::Unnamed(_) => FieldsModel::Unnamed,
                Fields::Unit => FieldsModel::Unit,
            },
        },
        Data::Enum(_) => DataModel::Enum,
        Data::Union(_) => DataModel::Union,
    };
    Parsed { model: DeriveInputModel { ident: text(&input.ident.to_string()), data }, types }
}

fn named(p: &Parsed) -> &Vec<FieldModel> {
    match &p.model.data {
        DataModel::Struct { fields: FieldsModel::Named { named } } => named,
        _ => panic!("expected named fields"),
    }
}

const COMMAND: &str = r#"
    pub struct Command {
        executable: String,
        #[builder(each = "arg")]
        args: Vec<String>,
        #[builder(each = "env")]
        env: Vec<String>,
        current_dir: Option<String>,
    }
"#;

#[test]
fn builder_name_and_fields() {
    let p = parse(COMMAND);
    let e = macro_workshop::builder::derive(&p.model);
    assert_eq!(string(&e.name), "Command");
    assert_eq!(string(&e.builder_name), "CommandBuilder");
    assert_eq!(e.builder_fields.len(), 4);
    match &e.builder_fields[0] {
        BuilderFieldPlan::Optional { name, ty } => {
            assert_eq!(string(name), "executable");
            assert_eq!(p.types[*ty as usize], "String");
        }
        _ => panic!("a plain field gets an optional slot"),
    }
    match &e.builder_fields[1] {
        BuilderFieldPlan::Each { name, elem } => {
            assert_eq!(string(name), "arg");
            assert_eq!(p.types[*elem as usize], "String");
        }
        _ => panic!("an each field gets a vector slot"),
    }
    match &e.builder_fields[3] {
        BuilderFieldPlan::AsIs { name, ty } => {
            assert_eq!(string(name), "current_dir");
            assert_eq!(p.types[*ty as usize], "Option < String >");
        }
        _ => panic!("an optional field keeps its type"),
    }
}

#[test]
fn setters_inits_and_builds() {
    let p = parse(COMMAND);
    let e = macro_workshop::builder::derive(&p.model);
    match &e.setters[0] {
        SetterPlan::Assign { field, arg } => {
            assert_eq!(string(field), "executable");
            assert_eq!(p.types[*arg as usize], "String");
        }
        _ => panic!(),
    }
    match &e.setters[2] {
        SetterPlan::Each { method, elem } => {
            assert_eq!(string(method), "env");
            assert_eq!(p.types[*elem as usize], "String");
        }
        _ => panic!(),
    }
    match &e.setters[3] {
        SetterPlan::Assign { field, arg } => {
            assert_eq!(string(field), "current_dir");
            assert_eq!(p.types[*arg as usize], "String");
        }
        _ => panic!(),
    }
    assert!(matches!(&e.inits[0], InitPlan::NoValue { name } if string(name) == "executable"));
    assert!(matches!(&e.inits[1], InitPlan::EmptyVec { name } if string(name) == "arg"));
    assert!(matches!(&e.builds[0], BuildPlan::TakeUnwrap { field } if string(field) == "executable"));
    assert!(
        matches!(&e.builds[1], BuildPlan::CloneVec { field, from } if string(field) == "args" && string(from) == "arg")
    );
    assert!(matches!(&e.builds[3], BuildPlan::Take { field } if string(field) == "current_dir"));
}

#[test]
fn raw_type_name_gets_a_plain_builder_name() {
    let p = parse("struct r#Type { x: u8 }");
    assert_eq!(string(&macro_workshop::builder::derive(&p.model).builder_name), "TypeBuilder");
}

#[test]
fn each_on_a_field_that_is_no_vector() {
    // The slot is declared under the field's name but initialised and read
    // under the each name (the generated code does not compile).
    let p = parse(r#"struct S { #[builder(each = "x")] xs: String }"#);
    let e = macro_workshop::builder::derive(&p.model);
    assert!(matches!(&e.builder_fields[0], BuilderFieldPlan::Optional { name, .. } if string(name) == "xs"));
    assert!(matches!(&e.setters[0], SetterPlan::Assign { field, .. } if string(field) == "xs"));
    assert!(matches!(&e.inits[0], InitPlan::EmptyVec { name } if string(name) == "x"));
    assert!(matches!(&e.builds[0], BuildPlan::CloneVec { from, .. } if string(from) == "x"));
}

#[test]
fn only_the_first_parsable_attribute_counts() {
    let p = parse(r#"struct S { #[doc = "d"] #[builder(each = "x")] xs: Vec<u8> }"#);
    assert!(extract_meta_by_atribute(&named(&p)[0]).is_none());
    let p = parse(r#"struct S { #[builder(flag, each = "x", each = "y")] xs: Vec<u8> }"#);
    assert_eq!(string(&extract_meta_by_atribute(&named(&p)[0]).unwrap()), "x");
    let p = parse(r#"struct S { #[other(key = "v")] xs: Vec<u8> }"#);
    assert_eq!(string(&extract_meta_by_atribute(&named(&p)[0]).unwrap()), "v");
    let p = parse(r#"struct S { #[builder(each = 1)] xs: Vec<u8> }"#);
    assert!(extract_meta_by_atribute(&named(&p)[0]).is_none());
}

#[test]
fn reads_type_paths() {
    let p = parse("struct S { a: std::option::Option<u8>, b: Vec<Option<u8>>, c: (u8, u8), d: Option<'static> }");
    let f = named(&p);
    assert!(contain_option_type(&f[0].shape));
    assert!(contain_type_by(&f[1].shape, "Vec"));
    assert!(!contain_option_type(&f[1].shape));
    assert!(!contain_option_type(&f[2].shape));
    assert_eq!(p.types[extract_option_generics_type(&f[0].shape).unwrap() as usize], "u8");
    assert_eq!(p.types[extract_vector_generics_type(&f[1].shape).unwrap() as usize], "Option < u8 >");
    assert!(extract_generics_type(&f[2].shape, "Vec").is_none());
    assert!(extract_option_generics_type(&f[3].shape).is_none());
}

#[test]
fn rejects_what_is_no_struct_with_named_fields() {
    for src in ["struct T(u8);", "struct U;", "enum E { A }"] {
        let p = parse(src);
        assert!(!derive_supported(&p.model));
        assert!(matches!(quote_setter(&p.model.data), Err(BuilderError::NotNamedStruct)));
        assert!(matches!(quote_builder_fields(&p.model.data), Err(BuilderError::NotNamedStruct)));
        assert!(matches!(quote_init_for_builder_fields(&p.model.data), Err(BuilderError::NotNamedStruct)));
        assert!(matches!(quote_build_fields(&p.model.data), Err(BuilderError::NotNamedStruct)));
    }
    let p = parse("struct T(u8);");
    match &p.model.data {
        DataModel::Struct { fields: f } => assert!(fields(f).is_err()),
        _ => unreachable!(),
    }
}

#[test]
fn inputs_the_derive_panics_on_are_recognised() {
    assert!(derive_supported(&parse(COMMAND).model));
    assert!(!derive_supported(&parse("struct S { a: Vec<> }").model));
    assert!(!derive_supported(&parse("struct S { a: Option<> }").model));
    assert!(!derive_supported(&parse("struct S { a: Option<'static> }").model));
    assert!(!derive_supported(&parse("struct S { a: foo::Option }").model));
    // An each field whose type is a vector never reads `Option`.
    assert!(derive_supported(&parse(r#"struct S { #[builder(each = "a")] a: Vec<u8> }"#).model));
}

#[test]
fn empty_struct_builds_nothing() {
    let e = macro_workshop::builder::derive(&parse("struct S {}").model);
    assert!(e.builder_fields.is_empty() && e.setters.is_empty() && e.inits.is_empty() && e.builds.is_empty());
}
