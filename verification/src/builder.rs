//! The `Builder` derive: what it generates for a struct with named fields.
//!
//! For each field the derive decides four things: the slot the builder keeps
//! for it, the setter method, the slot's initial value and how `build`
//! obtains the field's value. A field of type `Option<T>` is optional; a
//! field of type `Vec<T>` with `#[builder(each = "name")]` gets a setter
//! `name` that pushes one element.
//!
//! Types are handles into the caller's table of the input's types; the
//! caller that builds the model from the parsed input numbers every field
//! type and every type argument of a field type's path.
use vstd::prelude::*;
use crate::search::first_index;
use crate::text::{copy_text, push_str, push_text, text_is};

verus! {

/// A generic argument of a path segment.
#[derive(Debug)]
pub enum GenericArgModel {
    /// A type argument (its handle).
    Type { ty: u64 },
    /// A lifetime, constant, binding or constraint.
    Other,
}

/// The arguments of a path segment.
#[derive(Debug)]
pub enum PathArgsModel {
    NoArgs,
    /// `<...>`
    AngleBracketed { args: Vec<GenericArgModel> },
    /// `(...) -> ...`
    Parenthesized,
}

/// A segment of a type path.
#[derive(Debug)]
pub struct TypeSegmentModel {
    pub ident: Vec<char>,
    pub arguments: PathArgsModel,
}

/// The shape of a field type, as far as the derive reads it.
#[derive(Debug)]
pub enum TypeModel {
    /// A path type such as `std::option::Option<String>`.
    Path { segments: Vec<TypeSegmentModel> },
    /// Any other type.
    Other,
}

/// An item of a `name(...)` attribute list.
#[derive(Debug)]
pub enum NestedMetaModel {
    /// `key = "value"` with a string literal; holds the string's value.
    NameValueStr { value: Vec<char> },
    /// Any other meta item.
    OtherMeta,
    /// A bare literal.
    Lit,
}

/// An attribute read as a meta item.
#[derive(Debug)]
pub enum MetaModel {
    /// The attribute does not parse as a meta item.
    Unparsable,
    /// `#[name]`
    Path,
    /// `#[name = value]`
    NameValue,
    /// `#[name(...)]`
    List { nested: Vec<NestedMetaModel> },
}

/// A named field: its name, its type (handle and shape) and its attributes.
#[derive(Debug)]
pub struct FieldModel {
    pub ident: Vec<char>,
    pub ty: u64,
    pub shape: TypeModel,
    pub attrs: Vec<MetaModel>,
}

/// The fields of a struct.
#[derive(Debug)]
pub enum FieldsModel {
    Named { named: Vec<FieldModel> },
    Unnamed,
    Unit,
}

/// The data of the derive input.
#[derive(Debug)]
pub enum DataModel {
    Struct { fields: FieldsModel },
    Enum,
    Union,
}

/// The derive input: the type's name (as written, possibly `r#name`) and
/// its data.
#[derive(Debug)]
pub struct DeriveInputModel {
    pub ident: Vec<char>,
    pub data: DataModel,
}

/// The input is not a struct with named fields.
#[derive(Clone, Copy, Debug, PartialEq, Eq, Structural)]
pub enum BuilderError {
    NotNamedStruct,
}

// ---------------------------------------------------------------------------
// Reading types and attributes
// ---------------------------------------------------------------------------

/// The position of the first path segment named `ident`.
pub open spec fn segment_index(segs: Seq<TypeSegmentModel>, ident: Seq<char>) -> int {
    first_index(|k: int| segs[k].ident@ == ident, 0, segs.len() as int)
}

/// Some segment of the type's path is named `ident`.
pub open spec fn contains_type(t: TypeModel, ident: Seq<char>) -> bool {
    match t {
        TypeModel::Path { segments } => exists|k: int|
            0 <= k < segments@.len() && (#[trigger] segments@[k]).ident@ == ident,
        TypeModel::Other => false,
    }
}

/// Reading the type argument of the segment named `ident` fails outright:
/// the segment has empty angle brackets.
pub open spec fn generics_panics(t: TypeModel, ident: Seq<char>) -> bool {
    match t {
        TypeModel::Path { segments } => {
            let k = segment_index(segments@, ident);
            k < segments@.len() && segments@[k].arguments is AngleBracketed
                && segments@[k].arguments->AngleBracketed_args@.len() == 0
        },
        TypeModel::Other => false,
    }
}

/// The first generic argument of the first segment named `ident`, if that
/// segment has angle-bracketed arguments and the first is a type.
pub open spec fn generics_type(t: TypeModel, ident: Seq<char>) -> Option<u64> {
    match t {
        TypeModel::Path { segments } => {
            let k = segment_index(segments@, ident);
            if k < segments@.len() && segments@[k].arguments is AngleBracketed {
                let args = segments@[k].arguments->AngleBracketed_args@;
                if args.len() > 0 && args[0] is Type {
                    Some(args[0]->Type_ty)
                } else {
                    None
                }
            } else {
                None
            }
        },
        TypeModel::Other => None,
    }
}

/// The string of the first `key = "..."` item in the first attribute that
/// parses as a meta item, if that attribute is a list.
pub open spec fn field_meta(f: FieldModel) -> Option<Seq<char>> {
    let attrs = f.attrs@;
    let a = first_index(|k: int| !(attrs[k] is Unparsable), 0, attrs.len() as int);
    if a < attrs.len() && attrs[a] is List {
        let nested = attrs[a]->List_nested@;
        let b = first_index(|k: int| nested[k] is NameValueStr, 0, nested.len() as int);
        if b < nested.len() {
            Some(nested[b]->NameValueStr_value@)
        } else {
            None
        }
    } else {
        None
    }
}

/// Whether some segment of the type path is named `ident`.
#[verifier::loop_isolation(false)]
pub fn contain_type_by(ty: &TypeModel, ident: &str) -> (r: bool)
    ensures
        r == contains_type(*ty, ident@),
{
    match ty {
        TypeModel::Path { segments } => {
            let mut k: usize = 0;
            while k < segments.len()
                invariant
                    k <= segments.len(),
                    forall|j: int| 0 <= j < k ==> (#[trigger] segments@[j]).ident@ != ident@,
                decreases segments.len() - k,
            {
                if text_is(&segments[k].ident, ident) {
                    assert(segments@[k as int].ident@ == ident@);
                    return true;
                }
                k += 1;
            }
            false
        },
        TypeModel::Other => false,
    }
}

/// Whether the type mentions `Option`.
pub fn contain_option_type(ty: &TypeModel) -> (r: bool)
    ensures
        r == contains_type(*ty, "Option"@),
{
    contain_type_by(ty, "Option")
}

/// The type argument of the first segment named `ident`.
pub fn extract_generics_type(ty: &TypeModel, ident: &str) -> (r: Option<u64>)
    requires
        !generics_panics(*ty, ident@),
    ensures
        r == generics_type(*ty, ident@),
{
    match ty {
        TypeModel::Path { segments } => {
            let k = segment_position(segments, ident);
            if k == segments.len() {
                return None;
            }
            match &segments[k].arguments {
                PathArgsModel::AngleBracketed { args } => match &args[0] {
                    GenericArgModel::Type { ty } => Some(*ty),
                    GenericArgModel::Other => None,
                },
                _ => None,
            }
        },
        TypeModel::Other => None,
    }
}

/// The position of the first segment named `ident`, or the number of segments.
fn segment_position(segments: &Vec<TypeSegmentModel>, ident: &str) -> (k: usize)
    ensures
        k as int == segment_index(segments@, ident@),
        k <= segments.len(),
{
    let ghost pred = |k: int| segments@[k].ident@ == ident@;
    let mut k: usize = 0;
    while k < segments.len() && !text_is(&segments[k].ident, ident)
        invariant
            k <= segments.len(),
            pred == (|k: int| segments@[k].ident@ == ident@),
            first_index(pred, 0, segments@.len() as int) == first_index(
                pred,
                k as int,
                segments@.len() as int,
            ),
        decreases segments.len() - k,
    {
        k += 1;
    }
    k
}

/// Whether reading the type argument of the segment named `ident` fails
/// outright (see `generics_panics`).
fn generics_would_panic(ty: &TypeModel, ident: &str) -> (r: bool)
    ensures
        r == generics_panics(*ty, ident@),
{
    match ty {
        TypeModel::Path { segments } => {
            let k = segment_position(segments, ident);
            k < segments.len() && match &segments[k].arguments {
                PathArgsModel::AngleBracketed { args } => args.len() == 0,
                _ => false,
            }
        },
        TypeModel::Other => false,
    }
}

/// The type argument of `Option`.
pub fn extract_option_generics_type(ty: &TypeModel) -> (r: Option<u64>)
    requires
        !generics_panics(*ty, "Option"@),
    ensures
        r == generics_type(*ty, "Option"@),
{
    extract_generics_type(ty, "Option")
}

/// The element type of `Vec`.
pub fn extract_vector_generics_type(ty: &TypeModel) -> (r: Option<u64>)
    requires
        !generics_panics(*ty, "Vec"@),
    ensures
        r == generics_type(*ty, "Vec"@),
{
    extract_generics_type(ty, "Vec")
}

/// The `each` name of a field's `#[builder(each = "...")]` attribute (see
/// `field_meta` for exactly which string is taken).
pub fn extract_meta_by_atribute(field: &FieldModel) -> (r: Option<Vec<char>>)
    ensures
        match field_meta(*field) {
            Some(m) => r is Some && r->Some_0@ == m,
            None => r is None,
        },
{
    let attrs = &field.attrs;
    let ghost pa = |k: int| !(attrs@[k] is Unparsable);
    let mut a: usize = 0;
    while a < attrs.len() && is_unparsable(&attrs[a])
        invariant
            a <= attrs.len(),
            attrs == &field.attrs,
            pa == (|k: int| !(attrs@[k] is Unparsable)),
            first_index(pa, 0, attrs@.len() as int) == first_index(
                pa,
                a as int,
                attrs@.len() as int,
            ),
        decreases attrs.len() - a,
    {
        a += 1;
    }
    if a == attrs.len() {
        return None;
    }
    match &attrs[a] {
        MetaModel::List { nested } => {
            let ghost pb = |k: int| nested@[k] is NameValueStr;
            let mut b: usize = 0;
            while b < nested.len() && !is_name_value_str(&nested[b])
                invariant
                    b <= nested.len(),
                    pb == (|k: int| nested@[k] is NameValueStr),
                    first_index(pb, 0, nested@.len() as int) == first_index(
                        pb,
                        b as int,
                        nested@.len() as int,
                    ),
                decreases nested.len() - b,
            {
                b += 1;
            }
            if b == nested.len() {
                return None;
            }
            match &nested[b] {
                NestedMetaModel::NameValueStr { value } => Some(copy_text(value)),
                _ => None,
            }
        },
        _ => None,
    }
}

fn is_unparsable(m: &MetaModel) -> (r: bool)
    ensures
        r == (*m is Unparsable),
{
    match m {
        MetaModel::Unparsable => true,
        _ => false,
    }
}

fn is_name_value_str(m: &NestedMetaModel) -> (r: bool)
    ensures
        r == (*m is NameValueStr),
{
    match m {
        NestedMetaModel::NameValueStr { .. } => true,
        _ => false,
    }
}

/// The named fields of a struct.
pub fn fields(fs: &FieldsModel) -> (r: Result<&Vec<FieldModel>, BuilderError>)
    ensures
        match fs {
            FieldsModel::Named { named } => r == Ok::<&Vec<FieldModel>, BuilderError>(named),
            _ => r == Err::<&Vec<FieldModel>, BuilderError>(BuilderError::NotNamedStruct),
        },
{
    if let FieldsModel::Named { named } = fs {
        return Ok(named);
    }
    Err(BuilderError::NotNamedStruct)
}

// ---------------------------------------------------------------------------
// What is generated for each field
// ---------------------------------------------------------------------------

/// A setter method of the builder.
#[derive(Debug)]
pub enum SetterPlan {
    /// `fn method(&mut self, method: elem) -> &mut Self` pushing onto the
    /// builder slot `method`.
    Each { method: Vec<char>, elem: u64 },
    /// `fn field(&mut self, field: arg) -> &mut Self` storing `Some(field)`.
    Assign { field: Vec<char>, arg: u64 },
}

/// A slot of the builder struct.
#[derive(Debug)]
pub enum BuilderFieldPlan {
    /// `name: Vec<elem>`
    Each { name: Vec<char>, elem: u64 },
    /// `name: ty` (the field type is already optional)
    AsIs { name: Vec<char>, ty: u64 },
    /// `name: Option<ty>`
    Optional { name: Vec<char>, ty: u64 },
}

/// The initial value of a slot in `builder()`.
#[derive(Debug)]
pub enum InitPlan {
    /// `name: Vec::new()`
    EmptyVec { name: Vec<char> },
    /// `name: None`
    NoValue { name: Vec<char> },
}

/// How `build` obtains a field of the struct.
#[derive(Debug)]
pub enum BuildPlan {
    /// `field: self.from.clone()`
    CloneVec { field: Vec<char>, from: Vec<char> },
    /// `field: self.field.take()`
    Take { field: Vec<char> },
    /// `field: self.field.take().unwrap()`
    TakeUnwrap { field: Vec<char> },
}

pub enum SetterView {
    Each(Seq<char>, u64),
    Assign(Seq<char>, u64),
}

pub enum BuilderFieldView {
    Each(Seq<char>, u64),
    AsIs(Seq<char>, u64),
    Optional(Seq<char>, u64),
}

pub enum InitView {
    EmptyVec(Seq<char>),
    NoValue(Seq<char>),
}

pub enum BuildView {
    CloneVec(Seq<char>, Seq<char>),
    Take(Seq<char>),
    TakeUnwrap(Seq<char>),
}

impl View for SetterPlan {
    type V = SetterView;

    open spec fn view(&self) -> SetterView {
        match self {
            SetterPlan::Each { method, elem } => SetterView::Each(method@, *elem),
            SetterPlan::Assign { field, arg } => SetterView::Assign(field@, *arg),
        }
    }
}

impl View for BuilderFieldPlan {
    type V = BuilderFieldView;

    open spec fn view(&self) -> BuilderFieldView {
        match self {
            BuilderFieldPlan::Each { name, elem } => BuilderFieldView::Each(name@, *elem),
            BuilderFieldPlan::AsIs { name, ty } => BuilderFieldView::AsIs(name@, *ty),
            BuilderFieldPlan::Optional { name, ty } => BuilderFieldView::Optional(name@, *ty),
        }
    }
}

impl View for InitPlan {
    type V = InitView;

    open spec fn view(&self) -> InitView {
        match self {
            InitPlan::EmptyVec { name } => InitView::EmptyVec(name@),
            InitPlan::NoValue { name } => InitView::NoValue(name@),
        }
    }
}

impl View for BuildPlan {
    type V = BuildView;

    open spec fn view(&self) -> BuildView {
        match self {
            BuildPlan::CloneVec { field, from } => BuildView::CloneVec(field@, from@),
            BuildPlan::Take { field } => BuildView::Take(field@),
            BuildPlan::TakeUnwrap { field } => BuildView::TakeUnwrap(field@),
        }
    }
}

/// The setter of a field: a pushing setter for a `Vec` field with an
/// `each` name, otherwise a setter named after the field taking the
/// field's type (its inner type if it is optional).
pub open spec fn setter_of(f: FieldModel) -> SetterView {
    if field_meta(f) is Some && generics_type(f.shape, "Vec"@) is Some {
        SetterView::Each(field_meta(f)->Some_0, generics_type(f.shape, "Vec"@)->Some_0)
    } else if contains_type(f.shape, "Option"@) {
        SetterView::Assign(f.ident@, generics_type(f.shape, "Option"@)->Some_0)
    } else {
        SetterView::Assign(f.ident@, f.ty)
    }
}

/// The builder slot of a field.
pub open spec fn builder_field_of(f: FieldModel) -> BuilderFieldView {
    if field_meta(f) is Some && generics_type(f.shape, "Vec"@) is Some {
        BuilderFieldView::Each(field_meta(f)->Some_0, generics_type(f.shape, "Vec"@)->Some_0)
    } else if contains_type(f.shape, "Option"@) {
        BuilderFieldView::AsIs(f.ident@, f.ty)
    } else {
        BuilderFieldView::Optional(f.ident@, f.ty)
    }
}

/// The initial value of a field's slot.
pub open spec fn init_of(f: FieldModel) -> InitView {
    if field_meta(f) is Some {
        InitView::EmptyVec(field_meta(f)->Some_0)
    } else {
        InitView::NoValue(f.ident@)
    }
}

/// How `build` obtains a field.
pub open spec fn build_of(f: FieldModel) -> BuildView {
    if field_meta(f) is Some {
        BuildView::CloneVec(f.ident@, field_meta(f)->Some_0)
    } else if contains_type(f.shape, "Option"@) {
        BuildView::Take(f.ident@)
    } else {
        BuildView::TakeUnwrap(f.ident@)
    }
}

/// Computing the setter of this field does not panic.
pub open spec fn setter_defined(f: FieldModel) -> bool {
    &&& !generics_panics(f.shape, "Vec"@)
    &&& (field_meta(f) is Some && generics_type(f.shape, "Vec"@) is Some) || !contains_type(
        f.shape,
        "Option"@,
    ) || (!generics_panics(f.shape, "Option"@) && generics_type(f.shape, "Option"@) is Some)
}

/// Computing the builder slot of this field does not panic.
pub open spec fn builder_field_defined(f: FieldModel) -> bool {
    !generics_panics(f.shape, "Vec"@)
}

pub open spec fn all_setters_defined(fs: Seq<FieldModel>) -> bool {
    forall|i: int| 0 <= i < fs.len() ==> setter_defined(#[trigger] fs[i])
}

pub open spec fn all_builder_fields_defined(fs: Seq<FieldModel>) -> bool {
    forall|i: int| 0 <= i < fs.len() ==> builder_field_defined(#[trigger] fs[i])
}

/// The named fields of the data, if it is a struct with named fields.
pub open spec fn named_fields(data: DataModel) -> Option<Seq<FieldModel>> {
    match data {
        DataModel::Struct { fields } => match fields {
            FieldsModel::Named { named } => Some(named@),
            _ => None,
        },
        _ => None,
    }
}

pub open spec fn setters_of(fs: Seq<FieldModel>) -> Seq<SetterView> {
    Seq::new(fs.len(), |i: int| setter_of(fs[i]))
}

pub open spec fn builder_fields_of(fs: Seq<FieldModel>) -> Seq<BuilderFieldView> {
    Seq::new(fs.len(), |i: int| builder_field_of(fs[i]))
}

pub open spec fn inits_of(fs: Seq<FieldModel>) -> Seq<InitView> {
    Seq::new(fs.len(), |i: int| init_of(fs[i]))
}

pub open spec fn builds_of(fs: Seq<FieldModel>) -> Seq<BuildView> {
    Seq::new(fs.len(), |i: int| build_of(fs[i]))
}

pub open spec fn view_setters(v: Seq<SetterPlan>) -> Seq<SetterView> {
    Seq::new(v.len(), |i: int| v[i]@)
}

pub open spec fn view_builder_fields(v: Seq<BuilderFieldPlan>) -> Seq<BuilderFieldView> {
    Seq::new(v.len(), |i: int| v[i]@)
}

pub open spec fn view_inits(v: Seq<InitPlan>) -> Seq<InitView> {
    Seq::new(v.len(), |i: int| v[i]@)
}

pub open spec fn view_builds(v: Seq<BuildPlan>) -> Seq<BuildView> {
    Seq::new(v.len(), |i: int| v[i]@)
}

fn setter_for(x: &FieldModel) -> (r: SetterPlan)
    requires
        setter_defined(*x),
    ensures
        r@ == setter_of(*x),
{
    let meta = extract_meta_by_atribute(x);
    let inner_type = extract_vector_generics_type(&x.shape);
    if let (Some(m), Some(t)) = (meta, inner_type) {
        return SetterPlan::Each { method: m, elem: t };
    }
    let args_type = if contain_option_type(&x.shape) {
        match extract_option_generics_type(&x.shape) {
            Some(t) => t,
            None => {
                proof {
                    assert(false);
                }
                x.ty
            },
        }
    } else {
        x.ty
    };
    SetterPlan::Assign { field: copy_text(&x.ident), arg: args_type }
}

fn builder_field_for(x: &FieldModel) -> (r: BuilderFieldPlan)
    requires
        builder_field_defined(*x),
    ensures
        r@ == builder_field_of(*x),
{
    let meta = extract_meta_by_atribute(x);
    let inner_type = extract_vector_generics_type(&x.shape);
    if let (Some(m), Some(t)) = (meta, inner_type) {
        return BuilderFieldPlan::Each { name: m, elem: t };
    }
    if contain_option_type(&x.shape) {
        BuilderFieldPlan::AsIs { name: copy_text(&x.ident), ty: x.ty }
    } else {
        BuilderFieldPlan::Optional { name: copy_text(&x.ident), ty: x.ty }
    }
}

fn init_for(x: &FieldModel) -> (r: InitPlan)
    ensures
        r@ == init_of(*x),
{
    let meta = extract_meta_by_atribute(x);
    if let Some(m) = meta {
        return InitPlan::EmptyVec { name: m };
    }
    InitPlan::NoValue { name: copy_text(&x.ident) }
}

fn build_for(x: &FieldModel) -> (r: BuildPlan)
    ensures
        r@ == build_of(*x),
{
    let meta = extract_meta_by_atribute(x);
    if let Some(m) = meta {
        return BuildPlan::CloneVec { field: copy_text(&x.ident), from: m };
    }
    if contain_option_type(&x.shape) {
        BuildPlan::Take { field: copy_text(&x.ident) }
    } else {
        BuildPlan::TakeUnwrap { field: copy_text(&x.ident) }
    }
}

/// The setters of the builder, one per field in order.
pub fn quote_setter(data: &DataModel) -> (r: Result<Vec<SetterPlan>, BuilderError>)
    requires
        match named_fields(*data) {
            Some(fs) => all_setters_defined(fs),
            None => true,
        },
    ensures
        match named_fields(*data) {
            Some(fs) => r is Ok && view_setters(r->Ok_0@) == setters_of(fs),
            None => r == Err::<Vec<SetterPlan>, BuilderError>(BuilderError::NotNamedStruct),
        },
{
    if let DataModel::Struct { fields: f } = data {
        let named = match fields(f) {
            Ok(named) => named,
            Err(e) => return Err(e),
        };
        let mut out: Vec<SetterPlan> = Vec::new();
        let mut i: usize = 0;
        while i < named.len()
            invariant
                named_fields(*data) == Some(named@),
                i <= named.len(),
                forall|j: int| 0 <= j < named@.len() ==> setter_defined(#[trigger] named@[j]),
                out@.len() == i,
                forall|j: int| 0 <= j < i ==> (#[trigger] out@[j])@ == setter_of(named@[j]),
            decreases named.len() - i,
        {
            out.push(setter_for(&named[i]));
            i += 1;
        }
        assert(view_setters(out@) =~= setters_of(named@));
        return Ok(out);
    }
    Err(BuilderError::NotNamedStruct)
}

/// The slots of the builder, one per field in order.
pub fn quote_builder_fields(data: &DataModel) -> (r: Result<Vec<BuilderFieldPlan>, BuilderError>)
    requires
        match named_fields(*data) {
            Some(fs) => all_builder_fields_defined(fs),
            None => true,
        },
    ensures
        match named_fields(*data) {
            Some(fs) => r is Ok && view_builder_fields(r->Ok_0@) == builder_fields_of(fs),
            None => r == Err::<Vec<BuilderFieldPlan>, BuilderError>(BuilderError::NotNamedStruct),
        },
{
    if let DataModel::Struct { fields: f } = data {
        let named = match fields(f) {
            Ok(named) => named,
            Err(e) => return Err(e),
        };
        let mut out: Vec<BuilderFieldPlan> = Vec::new();
        let mut i: usize = 0;
        while i < named.len()
            invariant
                named_fields(*data) == Some(named@),
                i <= named.len(),
                forall|j: int| 0 <= j < named@.len() ==> builder_field_defined(#[trigger] named@[j]),
                out@.len() == i,
                forall|j: int| 0 <= j < i ==> (#[trigger] out@[j])@ == builder_field_of(named@[j]),
            decreases named.len() - i,
        {
            out.push(builder_field_for(&named[i]));
            i += 1;
        }
        assert(view_builder_fields(out@) =~= builder_fields_of(named@));
        return Ok(out);
    }
    Err(BuilderError::NotNamedStruct)
}

/// The initial values of the builder's slots, one per field in order.
pub fn quote_init_for_builder_fields(data: &DataModel) -> (r: Result<Vec<InitPlan>, BuilderError>)
    ensures
        match named_fields(*data) {
            Some(fs) => r is Ok && view_inits(r->Ok_0@) == inits_of(fs),
            None => r == Err::<Vec<InitPlan>, BuilderError>(BuilderError::NotNamedStruct),
        },
{
    if let DataModel::Struct { fields: f } = data {
        let named = match fields(f) {
            Ok(named) => named,
            Err(e) => return Err(e),
        };
        let mut out: Vec<InitPlan> = Vec::new();
        let mut i: usize = 0;
        while i < named.len()
            invariant
                named_fields(*data) == Some(named@),
                i <= named.len(),
                out@.len() == i,
                forall|j: int| 0 <= j < i ==> (#[trigger] out@[j])@ == init_of(named@[j]),
            decreases named.len() - i,
        {
            out.push(init_for(&named[i]));
            i += 1;
        }
        assert(view_inits(out@) =~= inits_of(named@));
        return Ok(out);
    }
    Err(BuilderError::NotNamedStruct)
}

/// The fields of the `build` result, one per field in order.
pub fn quote_build_fields(data: &DataModel) -> (r: Result<Vec<BuildPlan>, BuilderError>)
    ensures
        match named_fields(*data) {
            Some(fs) => r is Ok && view_builds(r->Ok_0@) == builds_of(fs),
            None => r == Err::<Vec<BuildPlan>, BuilderError>(BuilderError::NotNamedStruct),
        },
{
    if let DataModel::Struct { fields: f } = data {
        let named = match fields(f) {
            Ok(named) => named,
            Err(e) => return Err(e),
        };
        let mut out: Vec<BuildPlan> = Vec::new();
        let mut i: usize = 0;
        while i < named.len()
            invariant
                named_fields(*data) == Some(named@),
                i <= named.len(),
                out@.len() == i,
                forall|j: int| 0 <= j < i ==> (#[trigger] out@[j])@ == build_of(named@[j]),
            decreases named.len() - i,
        {
            out.push(build_for(&named[i]));
            i += 1;
        }
        assert(view_builds(out@) =~= builds_of(named@));
        return Ok(out);
    }
    Err(BuilderError::NotNamedStruct)
}

// ---------------------------------------------------------------------------
// The whole derive
// ---------------------------------------------------------------------------

/// An identifier without its raw prefix `r#` (as a name fragment).
pub open spec fn unraw(name: Seq<char>) -> Seq<char> {
    if name.len() >= 2 && name[0] == 'r' && name[1] == '#' {
        name.subrange(2, name.len() as int)
    } else {
        name
    }
}

/// The name of the builder type: the input's name followed by `Builder`.
pub open spec fn builder_name_of(name: Seq<char>) -> Seq<char> {
    unraw(name) + "Builder"@
}

/// The derive is defined on this input: a struct with named fields whose
/// types can be read; on any other input the derive panics.
pub open spec fn derive_defined(input: DeriveInputModel) -> bool {
    match named_fields(input.data) {
        Some(fs) => all_setters_defined(fs),
        None => false,
    }
}

/// Everything the derive generates: the builder type `builder_name` with
/// its slots, the setters, `builder()`'s initial slots and `build`'s fields.
#[derive(Debug)]
pub struct BuilderExpansion {
    pub name: Vec<char>,
    pub builder_name: Vec<char>,
    pub builder_fields: Vec<BuilderFieldPlan>,
    pub setters: Vec<SetterPlan>,
    pub inits: Vec<InitPlan>,
    pub builds: Vec<BuildPlan>,
}

/// The expansion of the derive is determined by the input: `r@` of the
/// returned expansion is exactly what `BuilderExpansion::spec_of` says.
pub open spec fn expansion_matches(r: BuilderExpansion, input: DeriveInputModel) -> bool {
    let fs = named_fields(input.data)->Some_0;
    &&& r.name@ == input.ident@
    &&& r.builder_name@ == builder_name_of(input.ident@)
    &&& view_builder_fields(r.builder_fields@) == builder_fields_of(fs)
    &&& view_setters(r.setters@) == setters_of(fs)
    &&& view_inits(r.inits@) == inits_of(fs)
    &&& view_builds(r.builds@) == builds_of(fs)
}

fn unraw_name(name: &Vec<char>) -> (r: Vec<char>)
    ensures
        r@ == unraw(name@),
{
    let mut r: Vec<char> = Vec::new();
    let mut i: usize = if name.len() >= 2 && name[0] == 'r' && name[1] == '#' {
        2
    } else {
        0
    };
    let ghost s = i;
    while i < name.len()
        invariant
            s <= i <= name.len(),
            s == (if name@.len() >= 2 && name@[0] == 'r' && name@[1] == '#' { 2int } else { 0int }),
            r@ == name@.subrange(s as int, i as int),
        decreases name.len() - i,
    {
        r.push(name[i]);
        i += 1;
        assert(r@ =~= name@.subrange(s as int, i as int));
    }
    assert(name@.subrange(0, name@.len() as int) =~= name@);
    r
}

/// Whether the derive is defined on `input` (see `derive_defined`).
pub fn derive_supported(input: &DeriveInputModel) -> (r: bool)
    ensures
        r == derive_defined(*input),
{
    let named = match &input.data {
        DataModel::Struct { fields: FieldsModel::Named { named } } => named,
        _ => return false,
    };
    let mut i: usize = 0;
    while i < named.len()
        invariant
            named_fields(input.data) == Some(named@),
            i <= named.len(),
            forall|j: int| 0 <= j < i ==> setter_defined(#[trigger] named@[j]),
        decreases named.len() - i,
    {
        let x = &named[i];
        if generics_would_panic(&x.shape, "Vec") {
            assert(!setter_defined(named@[i as int]));
            return false;
        }
        let meta = extract_meta_by_atribute(x);
        let inner = extract_vector_generics_type(&x.shape);
        let each = meta.is_some() && inner.is_some();
        if !each && contain_option_type(&x.shape) {
            if generics_would_panic(&x.shape, "Option") {
                assert(!setter_defined(named@[i as int]));
                return false;
            }
            if extract_option_generics_type(&x.shape).is_none() {
                assert(!setter_defined(named@[i as int]));
                return false;
            }
        }
        i += 1;
    }
    true
}

/// What `#[derive(Builder)]` generates for `input`.
pub fn derive(input: &DeriveInputModel) -> (r: BuilderExpansion)
    requires
        derive_defined(*input),
    ensures
        expansion_matches(r, *input),
{
    let name = copy_text(&input.ident);
    let mut builder_name = unraw_name(&input.ident);
    push_str(&mut builder_name, "Builder");
    proof {
        let fs = named_fields(input.data)->Some_0;
        assert forall|i: int| 0 <= i < fs.len() implies builder_field_defined(#[trigger] fs[i]) by {
            assert(setter_defined(fs[i]));
        }
        assert(all_builder_fields_defined(fs));
    }
    let builder_fields = match quote_builder_fields(&input.data) {
        Ok(v) => v,
        Err(_) => Vec::new(),
    };
    let setters = match quote_setter(&input.data) {
        Ok(v) => v,
        Err(_) => Vec::new(),
    };
    let inits = match quote_init_for_builder_fields(&input.data) {
        Ok(v) => v,
        Err(_) => Vec::new(),
    };
    let builds = match quote_build_fields(&input.data) {
        Ok(v) => v,
        Err(_) => Vec::new(),
    };
    BuilderExpansion { name, builder_name, builder_fields, setters, inits, builds }
}

// ---------------------------------------------------------------------------
// Laws
// ---------------------------------------------------------------------------

/// The builder slot a setter writes to.
pub open spec fn setter_slot(s: SetterView) -> Seq<char> {
    match s {
        SetterView::Each(m, _) => m,
        SetterView::Assign(f, _) => f,
    }
}

/// The name of a builder slot.
pub open spec fn builder_slot(b: BuilderFieldView) -> Seq<char> {
    match b {
        BuilderFieldView::Each(n, _) => n,
        BuilderFieldView::AsIs(n, _) => n,
        BuilderFieldView::Optional(n, _) => n,
    }
}

/// The builder slot that `builder()` initialises.
pub open spec fn init_slot(i: InitView) -> Seq<char> {
    match i {
        InitView::EmptyVec(n) => n,
        InitView::NoValue(n) => n,
    }
}

/// The builder slot that `build` reads.
pub open spec fn build_source(b: BuildView) -> Seq<char> {
    match b {
        BuildView::CloneVec(_, from) => from,
        BuildView::Take(f) => f,
        BuildView::TakeUnwrap(f) => f,
    }
}

/// The struct field that `build` sets.
pub open spec fn build_target(b: BuildView) -> Seq<char> {
    match b {
        BuildView::CloneVec(f, _) => f,
        BuildView::Take(f) => f,
        BuildView::TakeUnwrap(f) => f,
    }
}

/// For a field without an `each` name, or with one on a `Vec` field, the
/// builder declares, initialises, sets and reads one and the same slot,
/// and that slot is a vector exactly when the field has an `each` name.
pub proof fn law_builder_slots_agree(f: FieldModel)
    requires
        field_meta(f) is None || generics_type(f.shape, "Vec"@) is Some,
    ensures
        builder_slot(builder_field_of(f)) == init_slot(init_of(f)),
        init_slot(init_of(f)) == build_source(build_of(f)),
        build_source(build_of(f)) == setter_slot(setter_of(f)),
        (builder_field_of(f) is Each) == (init_of(f) is EmptyVec),
        (init_of(f) is EmptyVec) == (build_of(f) is CloneVec),
        (build_of(f) is CloneVec) == (setter_of(f) is Each),
{
}

/// `build` sets every field of the struct exactly once, in declaration
/// order, and the builder has one slot, one setter and one initial value
/// per field.
pub proof fn law_one_plan_per_field(fs: Seq<FieldModel>)
    ensures
        builds_of(fs).len() == fs.len(),
        builder_fields_of(fs).len() == fs.len(),
        setters_of(fs).len() == fs.len(),
        inits_of(fs).len() == fs.len(),
        forall|i: int| 0 <= i < fs.len() ==> build_target(#[trigger] builds_of(fs)[i]) == fs[i].ident@,
{
}


/// For a field without an `each` name the generated code fits together
/// with the field's type: the builder starts the slot at `None`; the slot
/// holds an `Option` (the field's own type when that type path has an
/// `Option` segment, `Option<field type>` otherwise); a field whose type has
/// no `Option` segment is set with a value of its type; and `build` unwraps
/// the slot exactly when the field's type has no `Option` segment, so it
/// always yields a value of the field's type.
pub proof fn law_plain_field_is_typed_consistently(f: FieldModel)
    requires
        field_meta(f) is None,
    ensures
        init_of(f) == InitView::NoValue(f.ident@),
        match builder_field_of(f) {
            BuilderFieldView::Optional(name, ty) => name == f.ident@ && ty == f.ty && !contains_type(
                f.shape,
                "Option"@,
            ),
            BuilderFieldView::AsIs(name, ty) => name == f.ident@ && ty == f.ty && contains_type(
                f.shape,
                "Option"@,
            ),
            BuilderFieldView::Each(_, _) => false,
        },
        !contains_type(f.shape, "Option"@) ==> setter_of(f) == SetterView::Assign(f.ident@, f.ty),
        (build_of(f) == BuildView::TakeUnwrap(f.ident@)) == !contains_type(f.shape, "Option"@),
        (build_of(f) == BuildView::Take(f.ident@)) == contains_type(f.shape, "Option"@),
{
}

} // verus!
