//! The `#[sorted]` checks: the variants of an enum, and the arms of a
//! `match` marked `#[sorted]` inside a function marked `#[check]`, must be in
//! alphabetical order.
use vstd::prelude::*;
use crate::text::{
    chars_of, copy_text, lemma_text_lt_irreflexive, lemma_text_lt_total, lemma_text_lt_transitive,
    push_str, push_text, text_eq, text_is, text_less, text_lt,
};
use crate::seq_macro::{MacroError, MacroErrorView};
use crate::search::{first_index, lemma_first_index};

verus! {

// ---------------------------------------------------------------------------
// Enum variants
// ---------------------------------------------------------------------------

/// An enum variant: its name and the span handle of its identifier.
#[derive(Debug)]
pub struct VariantModel {
    pub name: Vec<char>,
    pub span: u64,
}

/// The item that `#[sorted]` is attached to.
#[derive(Debug)]
pub enum ItemModel {
    Enum { variants: Vec<VariantModel> },
    Other,
}

pub open spec fn variant_names(vs: Seq<VariantModel>) -> Seq<Seq<char>> {
    Seq::new(vs.len(), |i: int| vs[i].name@)
}

/// Some name after position `i` sorts strictly before the name at `i`.
pub open spec fn has_later_smaller(names: Seq<Seq<char>>, i: int) -> bool {
    exists|j: int| i < j < names.len() && text_lt(names[j], names[i])
}

/// The names are in non-decreasing order.
pub open spec fn names_sorted(names: Seq<Seq<char>>) -> bool {
    forall|i: int, j: int| 0 <= i < j < names.len() ==> !text_lt(names[j], names[i])
}

/// The first position of a name that some later name sorts before.
pub open spec fn first_out_of_order(names: Seq<Seq<char>>) -> int {
    first_index(|i: int| has_later_smaller(names, i), 0, names.len() as int)
}

/// The first position, at `lo` or after, of the smallest name from `lo` on.
pub open spec fn first_min_from(names: Seq<Seq<char>>, lo: int) -> int
    decreases names.len() - lo,
{
    if lo + 1 >= names.len() {
        lo
    } else {
        let m = first_min_from(names, lo + 1);
        if text_lt(names[m], names[lo]) {
            m
        } else {
            lo
        }
    }
}

/// The message of an order error: `a` should sort before `b`.
pub open spec fn order_message(a: Seq<char>, b: Seq<char>) -> Seq<char> {
    a + " should sort before "@ + b
}

/// The verdict on the variants of an enum: with the variants sorted
/// (stably), the first position where the sorted name differs from the
/// name written there is reported at the variant that belongs there.
pub open spec fn variants_verdict(vs: Seq<VariantModel>) -> Result<(), MacroErrorView> {
    let names = variant_names(vs);
    let i = first_out_of_order(names);
    if i >= names.len() {
        Ok(())
    } else {
        let j = first_min_from(names, i);
        Err(
            MacroErrorView {
                span: Some(vs[j].span),
                message: order_message(names[j], names[i]),
            },
        )
    }
}

/// `first_min_from` lies in the range and names a smallest name there,
/// the first of its value.
pub proof fn lemma_first_min_from(names: Seq<Seq<char>>, lo: int)
    requires
        0 <= lo < names.len(),
    ensures
        lo <= first_min_from(names, lo) < names.len(),
        forall|k: int|
            lo <= k < names.len() ==> !text_lt(names[k], names[first_min_from(names, lo)]),
        forall|k: int|
            lo <= k < first_min_from(names, lo) ==> #[trigger] names[k] != names[first_min_from(names, lo)],
    decreases names.len() - lo,
{
    if lo + 1 < names.len() {
        lemma_first_min_from(names, lo + 1);
        let m = first_min_from(names, lo + 1);
        if text_lt(names[m], names[lo]) {
            assert forall|k: int| lo <= k < names.len() implies !text_lt(names[k], names[m]) by {
                if k == lo {
                    if text_lt(names[lo], names[m]) {
                        lemma_text_lt_transitive(names[lo], names[m], names[lo]);
                        lemma_text_lt_irreflexive(names[lo]);
                    }
                }
            }
            assert forall|k: int| lo <= k < m implies names[k] != names[m] by {
                if k == lo {
                    lemma_text_lt_irreflexive(names[m]);
                }
            }
        } else {
            assert forall|k: int| lo <= k < names.len() implies !text_lt(names[k], names[lo]) by {
                if k == lo {
                    lemma_text_lt_irreflexive(names[lo]);
                } else if text_lt(names[k], names[lo]) {
                    lemma_text_lt_total(names[k], names[m]);
                    if text_lt(names[m], names[k]) {
                        lemma_text_lt_transitive(names[m], names[k], names[lo]);
                    }
                }
            }
        }
    } else {
        lemma_text_lt_irreflexive(names[lo]);
    }
}

/// Checks that the variants of an enum are sorted by name.
pub fn sorted_variants(variants: &Vec<VariantModel>) -> (r: Result<(), MacroError>)
    ensures
        match variants_verdict(variants@) {
            Ok(()) => r is Ok,
            Err(e) => r is Err && r->Err_0@ == e,
        },
{
    let ghost names = variant_names(variants@);
    let ghost pred = |i: int| has_later_smaller(names, i);
    let n = variants.len();
    let mut i: usize = 0;
    while i < n
        invariant
            i <= n,
            n == variants@.len(),
            names == variant_names(variants@),
            pred == (|i: int| has_later_smaller(names, i)),
            first_index(pred, 0, n as int) == first_index(pred, i as int, n as int),
        decreases n - i,
    {
        let mut j: usize = i + 1;
        let mut found = false;
        while j < n && !found
            invariant
                i < n,
                i + 1 <= j <= n,
                n == variants@.len(),
                names == variant_names(variants@),
                found ==> j < n && text_lt(names[j as int], names[i as int]),
                forall|k: int| i < k < j ==> !text_lt(names[k], names[i as int]),
            decreases n - j + (if found { 0int } else { 1int }),
        {
            if text_less(&variants[j].name, &variants[i].name) {
                found = true;
            } else {
                j += 1;
            }
        }
        if found {
            assert(has_later_smaller(names, i as int));
            // The smallest name from position i on, the first of its value.
            let mut m: usize = n - 1;
            let mut lo: usize = n - 1;
            while lo > i
                invariant
                    i <= lo < n,
                    lo <= m < n,
                    n == variants@.len(),
                    names == variant_names(variants@),
                    m == first_min_from(names, lo as int),
                decreases lo,
            {
                lo -= 1;
                if !text_less(&variants[m].name, &variants[lo].name) {
                    m = lo;
                }
            }
            let mut message = copy_text(&variants[m].name);
            push_str(&mut message, " should sort before ");
            push_text(&mut message, &variants[i].name);
            return Err(MacroError { span: Some(variants[m].span), message });
        }
        assert(!has_later_smaller(names, i as int));
        i += 1;
    }
    Ok(())
}

/// Checks an item marked `#[sorted]`: it must be an enum whose variants
/// are sorted.
pub fn sorted(item: &ItemModel) -> (r: Result<(), MacroError>)
    ensures
        match item {
            ItemModel::Enum { variants } => match variants_verdict(variants@) {
                Ok(()) => r is Ok,
                Err(e) => r is Err && r->Err_0@ == e,
            },
            ItemModel::Other => r is Err && r->Err_0@ == (MacroErrorView {
                span: None,
                message: "expected enum or match expression"@,
            }),
        },
{
    match item {
        ItemModel::Enum { variants } => sorted_variants(variants),
        ItemModel::Other => Err(
            MacroError { span: None, message: chars_of("expected enum or match expression") },
        ),
    }
}

// ---------------------------------------------------------------------------
// Match arms
// ---------------------------------------------------------------------------

/// A segment of a path: its identifier, whether it carries generic or
/// parenthesised arguments, and its text as the token printer writes it.
#[derive(Debug)]
pub struct PathSegmentModel {
    pub ident: Vec<char>,
    pub has_arguments: bool,
    pub text: Vec<char>,
}

/// A path, such as `Error::Io` or `::std::fmt::Error`.
#[derive(Debug)]
pub struct PathModel {
    pub leading_colon: bool,
    pub segments: Vec<PathSegmentModel>,
}

/// The pattern of a match arm, as far as the check reads it.
#[derive(Debug)]
pub enum PatModel {
    /// `Path(..)`
    TupleStruct { path: PathModel },
    /// `Path`
    Path { path: PathModel },
    /// `name`, possibly with `ref`, `mut` or `@ subpattern`
    Ident { ident: Vec<char> },
    /// `_`
    Wild,
    /// Any other pattern.
    Other,
}

/// A match arm: its pattern, and the pattern's text as the token printer
/// writes it (the key the arms are sorted by).
#[derive(Debug)]
pub struct ArmModel {
    pub pat: PatModel,
    pub key: Vec<char>,
}

/// An attribute of a `match` expression: its position among the match's
/// attributes, and its path.
#[derive(Debug)]
pub struct AttrModel {
    pub position: usize,
    pub path: PathModel,
}

/// A `match` expression: its attributes and its arms.
#[derive(Debug)]
pub struct MatchModel {
    pub attrs: Vec<AttrModel>,
    pub arms: Vec<ArmModel>,
}

/// The path is the single identifier `name`.
pub open spec fn path_is_ident(p: PathModel, name: Seq<char>) -> bool {
    &&& !p.leading_colon
    &&& p.segments@.len() == 1
    &&& !p.segments@[0].has_arguments
    &&& p.segments@[0].ident@ == name
}

/// The attribute is `#[sorted]`.
pub open spec fn is_sorted_attr(a: AttrModel) -> bool {
    path_is_ident(a.path, "sorted"@)
}

pub open spec fn has_sorted_attr(m: MatchModel) -> bool {
    exists|k: int| 0 <= k < m.attrs@.len() && is_sorted_attr(#[trigger] m.attrs@[k])
}

/// The attributes that are not `#[sorted]`, in their order.
pub open spec fn kept_attrs(s: Seq<AttrModel>) -> Seq<AttrModel>
    decreases s.len(),
{
    if s.len() == 0 {
        s
    } else {
        let r = kept_attrs(s.subrange(0, s.len() - 1));
        if is_sorted_attr(s[s.len() - 1]) {
            r
        } else {
            r.push(s[s.len() - 1])
        }
    }
}

/// The segment texts joined by `::`.
pub open spec fn join_segments(segs: Seq<PathSegmentModel>) -> Seq<char>
    decreases segs.len(),
{
    if segs.len() == 0 {
        Seq::empty()
    } else if segs.len() == 1 {
        segs[0].text@
    } else {
        join_segments(segs.subrange(0, segs.len() - 1)) + "::"@ + segs[segs.len() - 1].text@
    }
}

/// A path written without spaces around `::`.
pub open spec fn path_text(p: PathModel) -> Seq<char> {
    if p.leading_colon {
        "::"@ + join_segments(p.segments@)
    } else {
        join_segments(p.segments@)
    }
}

/// How an arm is named in order messages: its path, or its identifier.
pub open spec fn pat_text(p: PatModel) -> Seq<char> {
    match p {
        PatModel::TupleStruct { path } => path_text(path),
        PatModel::Path { path } => path_text(path),
        PatModel::Ident { ident } => ident@,
        _ => Seq::empty(),
    }
}

/// The patterns whose order the check can judge.
pub open spec fn is_supported(p: PatModel) -> bool {
    p is TupleStruct || p is Path || p is Ident
}

/// `a` goes before `b` in the stable order of the keys: by key, and by
/// position among equal keys.
pub open spec fn key_before(keys: Seq<Seq<char>>, a: int, b: int) -> bool {
    text_lt(keys[a], keys[b]) || (keys[a] == keys[b] && a < b)
}

/// `order` lists every position of `keys` once, in stable key order.
pub open spec fn is_stable_order(keys: Seq<Seq<char>>, order: Seq<usize>) -> bool {
    &&& order.len() == keys.len()
    &&& forall|k: int| 0 <= k < order.len() ==> #[trigger] order[k] < keys.len()
    &&& forall|i: int| 0 <= i < keys.len() ==> #[trigger] order.contains(i as usize)
    &&& forall|a: int, b: int|
        0 <= a < b < order.len() ==> key_before(keys, #[trigger] order[a] as int, #[trigger] order[b] as int)
}

/// The stable key order of `keys` (there is exactly one).
pub open spec fn stable_order(keys: Seq<Seq<char>>) -> Seq<usize> {
    choose|o: Seq<usize>| is_stable_order(keys, o)
}

/// The keys of the first `c` arms.
pub open spec fn arm_keys(arms: Seq<ArmModel>, c: int) -> Seq<Seq<char>> {
    Seq::new(c as nat, |k: int| arms[k].key@)
}

/// What a `#[sorted]` match is reported with.
pub enum MatchErrorView {
    WildcardNotLast(usize),
    Unsupported(usize),
    OutOfOrder(usize, Seq<char>),
}

/// The verdict on a `match`: `None` if it is not marked `#[sorted]` or its
/// arms are in order. A `_` arm may only come last, and is then left out;
/// the other arms must be paths, tuple-struct patterns or identifiers.
/// Sorting the arms stably by their printed text, the first position where
/// the sorted arm's name differs from the name written there is reported
/// at the arm that belongs there.
pub open spec fn match_verdict(m: MatchModel) -> Option<MatchErrorView> {
    let arms = m.arms@;
    let n = arms.len() as int;
    if !has_sorted_attr(m) || n == 0 {
        None
    } else {
        let w = first_index(|k: int| arms[k].pat is Wild, 0, n - 1);
        if w < n - 1 {
            Some(MatchErrorView::WildcardNotLast(w as usize))
        } else {
            let c = if arms[n - 1].pat is Wild {
                n - 1
            } else {
                n
            };
            let u = first_index(|k: int| !is_supported(arms[k].pat), 0, c);
            if u < c {
                Some(MatchErrorView::Unsupported(u as usize))
            } else {
                let order = stable_order(arm_keys(arms, c));
                let k = first_index(
                    |k: int| pat_text(arms[k].pat) != pat_text(arms[order[k] as int].pat),
                    0,
                    c,
                );
                if k < c {
                    Some(
                        MatchErrorView::OutOfOrder(
                            order[k],
                            order_message(
                                pat_text(arms[order[k] as int].pat),
                                pat_text(arms[k].pat),
                            ),
                        ),
                    )
                } else {
                    None
                }
            }
        }
    }
}

/// The stable key order is unique.
pub proof fn lemma_stable_order_unique(keys: Seq<Seq<char>>, p: Seq<usize>, q: Seq<usize>)
    requires
        is_stable_order(keys, p),
        is_stable_order(keys, q),
    ensures
        p == q,
{
    assert forall|a: int| 0 <= a < p.len() implies p[a] == q[a] by {
        lemma_stable_order_prefix(keys, p, q, a);
    }
    assert(p =~= q);
}

proof fn lemma_key_before_asymmetric(keys: Seq<Seq<char>>, x: int, y: int)
    requires
        0 <= x < keys.len(),
        0 <= y < keys.len(),
    ensures
        !(key_before(keys, x, y) && key_before(keys, y, x)),
{
    lemma_text_lt_irreflexive(keys[x]);
    if text_lt(keys[x], keys[y]) && text_lt(keys[y], keys[x]) {
        lemma_text_lt_transitive(keys[x], keys[y], keys[x]);
    }
}

proof fn lemma_stable_order_prefix(keys: Seq<Seq<char>>, p: Seq<usize>, q: Seq<usize>, a: int)
    requires
        is_stable_order(keys, p),
        is_stable_order(keys, q),
        0 <= a < p.len(),
    ensures
        forall|b: int| 0 <= b <= a ==> p[b] == q[b],
    decreases a,
{
    if a > 0 {
        lemma_stable_order_prefix(keys, p, q, a - 1);
    }
    let x = p[a];
    let y = q[a];
    if x != y {
        assert(q[a] < keys.len() && p[a] < keys.len());
        let yi = y as int;
        let xi = x as int;
        assert(p.contains(yi as usize));
        let b = choose|b: int| 0 <= b < p.len() && p[b] == y;
        assert(q.contains(xi as usize));
        let d = choose|d: int| 0 <= d < q.len() && q[d] == x;
        lemma_text_lt_irreflexive(keys[y as int]);
        lemma_text_lt_irreflexive(keys[x as int]);
        if b < a {
            assert(q[b] == y);
            assert(key_before(keys, q[b] as int, q[a] as int));
        } else if d < a {
            assert(p[d] == x);
            assert(key_before(keys, p[d] as int, p[a] as int));
        } else {
            assert(key_before(keys, p[a] as int, p[b] as int));
            assert(key_before(keys, q[a] as int, q[d] as int));
            lemma_key_before_asymmetric(keys, x as int, y as int);
        }
    }
}

/// The error of a `#[sorted]` match.
#[derive(Debug)]
pub enum MatchError {
    /// A `_` arm before the last arm; reported as the `_` pattern itself.
    WildcardNotLast { arm: usize },
    /// An arm the check cannot judge; reported at the arm's pattern.
    Unsupported { arm: usize },
    /// Arms out of order; reported at the path (or identifier) of `arm`.
    OutOfOrder { arm: usize, message: Vec<char> },
}

impl View for MatchError {
    type V = MatchErrorView;

    open spec fn view(&self) -> MatchErrorView {
        match self {
            MatchError::WildcardNotLast { arm } => MatchErrorView::WildcardNotLast(*arm),
            MatchError::Unsupported { arm } => MatchErrorView::Unsupported(*arm),
            MatchError::OutOfOrder { arm, message } => MatchErrorView::OutOfOrder(*arm, message@),
        }
    }
}

/// An error of `#[check]`: the position of the match in visiting order,
/// and the match's error.
#[derive(Debug)]
pub struct CheckError {
    pub match_index: usize,
    pub error: MatchError,
}

pub struct CheckErrorView {
    pub match_index: usize,
    pub error: MatchErrorView,
}

impl View for CheckError {
    type V = CheckErrorView;

    open spec fn view(&self) -> CheckErrorView {
        CheckErrorView { match_index: self.match_index, error: self.error@ }
    }
}

pub open spec fn option_error_view(e: Option<CheckError>) -> Option<CheckErrorView> {
    match e {
        Some(e) => Some(e@),
        None => None,
    }
}

fn path_is_ident_exec(p: &PathModel, name: &str) -> (r: bool)
    ensures
        r == path_is_ident(*p, name@),
{
    !p.leading_colon && p.segments.len() == 1 && !p.segments[0].has_arguments && text_is(
        &p.segments[0].ident,
        name,
    )
}

/// Writes the path without spaces around `::` (`show_path_str`).
pub fn show_path_str(p: &PathModel) -> (r: Vec<char>)
    ensures
        r@ == path_text(*p),
{
    let mut out: Vec<char> = Vec::new();
    if p.leading_colon {
        push_str(&mut out, "::");
    }
    let ghost lead = out@;
    let mut i: usize = 0;
    while i < p.segments.len()
        invariant
            i <= p.segments.len(),
            out@ == lead + join_segments(p.segments@.subrange(0, i as int)),
            lead == (if p.leading_colon { "::"@ } else { Seq::<char>::empty() }),
        decreases p.segments.len() - i,
    {
        let ghost before = out@;
        if i > 0 {
            push_str(&mut out, "::");
        }
        push_text(&mut out, &p.segments[i].text);
        proof {
            let segs = p.segments@.subrange(0, i + 1);
            assert(segs.subrange(0, i as int) =~= p.segments@.subrange(0, i as int));
            if i == 0 {
                assert(join_segments(p.segments@.subrange(0, 0)) =~= Seq::<char>::empty());
            }
        }
        i += 1;
        proof {
            assert(out@ =~= lead + join_segments(p.segments@.subrange(0, i as int)));
        }
    }
    proof {
        assert(p.segments@.subrange(0, p.segments@.len() as int) =~= p.segments@);
        if !p.leading_colon {
            assert(out@ =~= join_segments(p.segments@));
        }
    }
    out
}

/// How an arm is named in order messages (`show_str`).
pub fn show_str(p: &PatModel) -> (r: Vec<char>)
    ensures
        r@ == pat_text(*p),
{
    match p {
        PatModel::TupleStruct { path } => show_path_str(path),
        PatModel::Path { path } => show_path_str(path),
        PatModel::Ident { ident } => copy_text(ident),
        _ => Vec::new(),
    }
}

/// The positions `0..c` of the arms in stable order of their keys
/// (an insertion sort).
fn stable_order_of(arms: &Vec<ArmModel>, c: usize) -> (order: Vec<usize>)
    requires
        c <= arms.len(),
    ensures
        is_stable_order(arm_keys(arms@, c as int), order@),
{
    let ghost keys = arm_keys(arms@, c as int);
    let mut order: Vec<usize> = Vec::new();
    let mut m: usize = 0;
    while m < c
        invariant
            m <= c <= arms.len(),
            keys == arm_keys(arms@, c as int),
            order@.len() == m,
            forall|k: int| 0 <= k < m ==> #[trigger] order@[k] < m,
            forall|i: int| 0 <= i < m ==> #[trigger] order@.contains(i as usize),
            forall|a: int, b: int|
                0 <= a < b < m ==> key_before(keys, #[trigger] order@[a] as int, #[trigger] order@[b] as int),
        decreases c - m,
    {
        // The first position whose key is strictly greater than the key of m.
        let mut pos: usize = 0;
        while pos < m && !text_less(&arms[m].key, &arms[order[pos]].key)
            invariant
                pos <= m < c <= arms.len(),
                order@.len() == m,
                keys == arm_keys(arms@, c as int),
                forall|k: int| 0 <= k < m ==> #[trigger] order@[k] < m,
                forall|k: int| 0 <= k < pos ==> !text_lt(keys[m as int], keys[#[trigger] order@[k] as int]),
            decreases m - pos,
        {
            pos += 1;
        }
        let ghost old_order = order@;
        proof {
            lemma_insert_in_order(keys, old_order, pos as int, m as int);
        }
        order.insert(pos, m);
        m += 1;
    }
    order
}

proof fn lemma_insert_in_order(keys: Seq<Seq<char>>, o: Seq<usize>, pos: int, m: int)
    requires
        0 <= pos <= o.len() == m < keys.len(),
        m < usize::MAX,
        forall|k: int| 0 <= k < m ==> #[trigger] o[k] < m,
        forall|i: int| 0 <= i < m ==> #[trigger] o.contains(i as usize),
        forall|a: int, b: int|
            0 <= a < b < m ==> key_before(keys, #[trigger] o[a] as int, #[trigger] o[b] as int),
        forall|k: int| 0 <= k < pos ==> !text_lt(keys[m], keys[#[trigger] o[k] as int]),
        pos < m ==> text_lt(keys[m], keys[o[pos] as int]),
    ensures
        ({
            let n = o.insert(pos, m as usize);
            &&& n.len() == m + 1
            &&& forall|k: int| 0 <= k < m + 1 ==> #[trigger] n[k] < m + 1
            &&& forall|i: int| 0 <= i < m + 1 ==> #[trigger] n.contains(i as usize)
            &&& forall|a: int, b: int|
                0 <= a < b < m + 1 ==> key_before(keys, #[trigger] n[a] as int, #[trigger] n[b] as int)
        }),
{
    let n = o.insert(pos, m as usize);
    assert forall|i: int| 0 <= i < m + 1 implies #[trigger] n.contains(i as usize) by {
        if i == m {
            assert(n[pos] == m as usize);
        } else {
            assert(o.contains(i as usize));
            let j = choose|j: int| 0 <= j < o.len() && o[j] == i as usize;
            if j < pos {
                assert(n[j] == o[j]);
            } else {
                assert(n[j + 1] == o[j]);
            }
        }
    }
    assert(n[pos] == m as usize);
    assert forall|a: int, b: int| 0 <= a < b < m + 1 implies key_before(
        keys,
        #[trigger] n[a] as int,
        #[trigger] n[b] as int,
    ) by {
        if b < pos {
            assert(n[a] == o[a] && n[b] == o[b]);
            assert(key_before(keys, o[a] as int, o[b] as int));
        } else if b == pos {
            assert(n[a] == o[a]);
            assert(o[a] < m);
            assert(!text_lt(keys[m], keys[o[a] as int]));
            lemma_text_lt_total(keys[m], keys[o[a] as int]);
            assert(key_before(keys, o[a] as int, m));
        } else if a == pos {
            assert(n[b] == o[b - 1]);
            assert(n[a] == m as usize);
            assert(text_lt(keys[m], keys[o[pos] as int]));
            if b - 1 > pos {
                assert(key_before(keys, o[pos] as int, o[b - 1] as int));
                if text_lt(keys[o[pos] as int], keys[o[b - 1] as int]) {
                    lemma_text_lt_transitive(keys[m], keys[o[pos] as int], keys[o[b - 1] as int]);
                }
            }
            assert(text_lt(keys[m], keys[o[b - 1] as int]));
        } else if a < pos {
            assert(n[a] == o[a] && n[b] == o[b - 1]);
            assert(key_before(keys, o[a] as int, o[b - 1] as int));
        } else {
            assert(n[a] == o[a - 1] && n[b] == o[b - 1]);
            assert(key_before(keys, o[a - 1] as int, o[b - 1] as int));
        }
    }
}

fn has_sorted_attr_exec(m: &MatchModel) -> (r: bool)
    ensures
        r == has_sorted_attr(*m),
{
    let mut k: usize = 0;
    while k < m.attrs.len()
        invariant
            k <= m.attrs.len(),
            forall|j: int| 0 <= j < k ==> !is_sorted_attr(#[trigger] m.attrs@[j]),
        decreases m.attrs.len() - k,
    {
        if path_is_ident_exec(&m.attrs[k].path, "sorted") {
            return true;
        }
        k += 1;
    }
    false
}

/// Removes the `#[sorted]` attributes of a match, keeping the others in order.
fn remove_sorted_attrs(em: &mut MatchModel)
    ensures
        final(em).attrs@ == kept_attrs(old(em).attrs@),
        final(em).arms == old(em).arms,
{
    let mut rest: Vec<AttrModel> = Vec::new();
    std::mem::swap(&mut rest, &mut em.attrs);
    let ghost all = rest@;
    let mut kept: Vec<AttrModel> = Vec::new();
    let total = rest.len();
    let mut i: usize = 0;
    assert(all.subrange(0, 0) =~= Seq::<AttrModel>::empty());
    assert(all.subrange(0, all.len() as int) =~= all);
    while rest.len() > 0
        invariant
            i <= all.len(),
            all.len() == total,
            all.len() == i + rest.len(),
            rest@ == all.subrange(i as int, all.len() as int),
            kept@ == kept_attrs(all.subrange(0, i as int)),
        decreases rest.len(),
    {
        let a = rest.remove(0);
        proof {
            assert(all.subrange(0, i + 1).subrange(0, i as int) =~= all.subrange(0, i as int));
        }
        if !path_is_ident_exec(&a.path, "sorted") {
            kept.push(a);
        }
        i += 1;
        proof {
            assert(rest@ =~= all.subrange(i as int, all.len() as int));
        }
    }
    assert(all.subrange(0, i as int) =~= all);
    em.attrs = kept;
}

/// The first wildcard arm among the first `n` arms, or `n`.
fn first_wild(arms: &Vec<ArmModel>, n: usize) -> (r: usize)
    requires
        n <= arms.len(),
    ensures
        r == first_index(|k: int| arms@[k].pat is Wild, 0, n as int),
{
    let ghost pred = |k: int| arms@[k].pat is Wild;
    let mut i: usize = 0;
    while i < n
        invariant
            i <= n <= arms.len(),
            pred == (|k: int| arms@[k].pat is Wild),
            first_index(pred, 0, n as int) == first_index(pred, i as int, n as int),
        decreases n - i,
    {
        if let PatModel::Wild = arms[i].pat {
            return i;
        }
        i += 1;
    }
    n
}

/// The first arm among the first `n` that the check cannot judge, or `n`.
fn first_unsupported(arms: &Vec<ArmModel>, n: usize) -> (r: usize)
    requires
        n <= arms.len(),
    ensures
        r == first_index(|k: int| !is_supported(arms@[k].pat), 0, n as int),
{
    let ghost pred = |k: int| !is_supported(arms@[k].pat);
    let mut i: usize = 0;
    while i < n
        invariant
            i <= n <= arms.len(),
            pred == (|k: int| !is_supported(arms@[k].pat)),
            first_index(pred, 0, n as int) == first_index(pred, i as int, n as int),
        decreases n - i,
    {
        match arms[i].pat {
            PatModel::TupleStruct { .. } | PatModel::Path { .. } | PatModel::Ident { .. } => {},
            _ => {
                return i;
            },
        }
        i += 1;
    }
    n
}

/// The verdict on one `match` expression (the body of the visitor's
/// `visit_expr_match_mut`, without the descent into nested expressions).
#[verifier::loop_isolation(false)]
fn match_error(m: &MatchModel) -> (r: Option<MatchError>)
    ensures
        match match_verdict(*m) {
            Some(e) => r is Some && r->Some_0@ == e,
            None => r is None,
        },
{
    let arms = &m.arms;
    let n = arms.len();
    if !has_sorted_attr_exec(m) || n == 0 {
        return None;
    }
    let w = first_wild(arms, n - 1);
    if w < n - 1 {
        return Some(MatchError::WildcardNotLast { arm: w });
    }
    let c = match arms[n - 1].pat {
        PatModel::Wild => n - 1,
        _ => n,
    };
    let u = first_unsupported(arms, c);
    if u < c {
        return Some(MatchError::Unsupported { arm: u });
    }
    let order = stable_order_of(arms, c);
    let ghost keys = arm_keys(arms@, c as int);
    proof {
        lemma_stable_order_unique(keys, order@, stable_order(keys));
    }
    let ghost pred = |k: int|
        pat_text(m.arms@[k].pat) != pat_text(
            m.arms@[stable_order(arm_keys(m.arms@, c as int))[k] as int].pat,
        );
    let mut k: usize = 0;
    while k < c
        invariant
            k <= c <= n == arms.len(),
            order@.len() == c,
            forall|j: int| 0 <= j < c ==> #[trigger] order@[j] < c,
            order@ == stable_order(arm_keys(m.arms@, c as int)),
            arms == &m.arms,
            pred == (|k: int|
                pat_text(m.arms@[k].pat) != pat_text(
                    m.arms@[stable_order(arm_keys(m.arms@, c as int))[k] as int].pat,
                )),
            first_index(pred, 0, c as int) == first_index(pred, k as int, c as int),
        decreases c - k,
    {
        let original = show_str(&arms[k].pat);
        let sorted = show_str(&arms[order[k]].pat);
        if !text_eq(&original, &sorted) {
            let mut message = sorted;
            push_str(&mut message, " should sort before ");
            push_text(&mut message, &original);
            proof {
                assert(pred(k as int));
            }
            return Some(MatchError::OutOfOrder { arm: order[k], message });
        }
        k += 1;
    }
    None
}

/// Visits the `match` expressions of a function marked `#[check]`, in
/// the order a depth-first walk of the function body meets them, and keeps
/// the last error.
pub struct Visitor {
    pub err: Option<CheckError>,
}

impl Visitor {
    /// Checks one `match` expression, the `index`-th in visiting order:
    /// removes its `#[sorted]` attributes and, if it was marked and its arms
    /// are not in order, records its error.
    pub fn visit_expr_match_mut(&mut self, index: usize, em: &mut MatchModel)
        ensures
            final(em).attrs@ == kept_attrs(old(em).attrs@),
            final(em).arms == old(em).arms,
            option_error_view(final(self).err) == match match_verdict(*old(em)) {
                Some(e) => Some(CheckErrorView { match_index: index, error: e }),
                None => option_error_view(old(self).err),
            },
    {
        let verdict = match_error(em);
        remove_sorted_attrs(em);
        match verdict {
            Some(error) => {
                self.err = Some(CheckError { match_index: index, error });
            },
            None => {},
        }
    }
}

/// The error that `#[check]` reports for the matches (in visiting order):
/// that of the last match with an error.
pub open spec fn last_match_error(ms: Seq<MatchModel>, n: int) -> Option<CheckErrorView>
    decreases n,
{
    if n <= 0 {
        None
    } else {
        match match_verdict(ms[n - 1]) {
            Some(e) => Some(CheckErrorView { match_index: (n - 1) as usize, error: e }),
            None => last_match_error(ms, n - 1),
        }
    }
}

/// Checks the `match` expressions of a function marked `#[check]`, given
/// in visiting order: strips their `#[sorted]` attributes and returns the
/// error of the last one that is out of order.
pub fn check(matches: &mut Vec<MatchModel>) -> (r: Option<CheckError>)
    ensures
        final(matches)@.len() == old(matches)@.len(),
        forall|i: int|
            0 <= i < old(matches)@.len() ==> (#[trigger] final(matches)@[i]).attrs@ == kept_attrs(
                old(matches)@[i].attrs@,
            ) && final(matches)@[i].arms == old(matches)@[i].arms,
        option_error_view(r) == last_match_error(old(matches)@, old(matches)@.len() as int),
{
    let ghost all = matches@;
    let mut v = Visitor { err: None };
    let mut i: usize = 0;
    while i < matches.len()
        invariant
            i <= matches@.len() == all.len(),
            forall|j: int|
                0 <= j < i ==> (#[trigger] matches@[j]).attrs@ == kept_attrs(all[j].attrs@)
                    && matches@[j].arms == all[j].arms,
            forall|j: int| i <= j < all.len() ==> #[trigger] matches@[j] == all[j],
            option_error_view(v.err) == last_match_error(all, i as int),
        decreases all.len() - i,
    {
        let mut m = matches.remove(i);
        v.visit_expr_match_mut(i, &mut m);
        matches.insert(i, m);
        i += 1;
    }
    v.err
}

// ---------------------------------------------------------------------------
// Laws
// ---------------------------------------------------------------------------

/// `#[sorted]` accepts an enum exactly when its variant names are in
/// non-decreasing order.
pub proof fn law_variants_accepted_iff_sorted(vs: Seq<VariantModel>)
    ensures
        variants_verdict(vs) is Ok <==> names_sorted(variant_names(vs)),
{
    let names = variant_names(vs);
    let pred = |i: int| has_later_smaller(names, i);
    lemma_first_index(pred, 0, names.len() as int);
    let f = first_index(pred, 0, names.len() as int);
    if f < names.len() {
        assert(pred(f));
        let j = choose|j: int| f < j < names.len() && text_lt(names[j], names[f]);
        assert(!names_sorted(names));
    } else {
        assert forall|i: int, j: int| 0 <= i < j < names.len() implies !text_lt(
            names[j],
            names[i],
        ) by {
            assert(!pred(i));
        }
    }
}

/// When `#[sorted]` rejects an enum, the variant it points to comes after
/// the position it is reported against and sorts strictly before the name
/// written there, while every earlier variant is already in place.
pub proof fn law_reported_variant_sorts_before(vs: Seq<VariantModel>)
    requires
        variants_verdict(vs) is Err,
    ensures
        ({
            let names = variant_names(vs);
            let i = first_out_of_order(names);
            let j = first_min_from(names, i);
            &&& 0 <= i < j < vs.len()
            &&& text_lt(names[j], names[i])
            &&& forall|k: int, l: int|
                0 <= k < i && k < l < vs.len() ==> !text_lt(#[trigger] names[l], #[trigger] names[k])
        }),
{
    let names = variant_names(vs);
    let pred = |i: int| has_later_smaller(names, i);
    lemma_first_index(pred, 0, names.len() as int);
    let i = first_index(pred, 0, names.len() as int);
    assert(pred(i));
    let w = choose|w: int| i < w < names.len() && text_lt(names[w], names[i]);
    lemma_first_min_from(names, i);
    let j = first_min_from(names, i);
    assert(!text_lt(names[w], names[j]));
    lemma_text_lt_total(names[j], names[w]);
    if text_lt(names[j], names[w]) {
        lemma_text_lt_transitive(names[j], names[w], names[i]);
    }
    lemma_text_lt_irreflexive(names[i]);
    assert forall|k: int, l: int| 0 <= k < i && k < l < vs.len() implies !text_lt(
        names[l],
        names[k],
    ) by {
        assert(!pred(k));
    }
}

/// Arms already in the order of their keys are their own stable order.
proof fn lemma_identity_is_stable_order(keys: Seq<Seq<char>>)
    requires
        keys.len() <= usize::MAX,
        forall|a: int, b: int| 0 <= a < b < keys.len() ==> !text_lt(keys[b], keys[a]),
    ensures
        stable_order(keys) == Seq::new(keys.len(), |k: int| k as usize),
{
    let id = Seq::new(keys.len(), |k: int| k as usize);
    assert forall|i: int| 0 <= i < keys.len() implies #[trigger] id.contains(i as usize) by {
        assert(id[i] == i as usize);
    }
    assert forall|a: int, b: int| 0 <= a < b < id.len() implies key_before(
        keys,
        #[trigger] id[a] as int,
        #[trigger] id[b] as int,
    ) by {
        lemma_text_lt_total(keys[a], keys[b]);
    }
    assert(is_stable_order(keys, id));
    lemma_stable_order_unique(keys, id, stable_order(keys));
}

/// A `#[sorted]` match whose arms (other than a final `_`) are paths,
/// tuple-struct patterns or identifiers, written in the order of their
/// printed text, passes the check.
pub proof fn law_ordered_match_passes(m: MatchModel)
    requires
        m.arms@.len() > 0,
        ({
            let arms = m.arms@;
            let n = arms.len() as int;
            let c = if arms[n - 1].pat is Wild { n - 1 } else { n };
            &&& forall|k: int| 0 <= k < c ==> is_supported(#[trigger] arms[k].pat)
            &&& forall|a: int, b: int| 0 <= a < b < c ==> !text_lt(arms[b].key@, arms[a].key@)
        }),
    ensures
        match_verdict(m) is None,
{
    let arms = m.arms@;
    let n = arms.len() as int;
    let c = if arms[n - 1].pat is Wild { n - 1 } else { n };
    let pw = |k: int| arms[k].pat is Wild;
    lemma_first_index(pw, 0, n - 1);
    if first_index(pw, 0, n - 1) < n - 1 {
        assert(is_supported(arms[first_index(pw, 0, n - 1)].pat));
    }
    let pu = |k: int| !is_supported(arms[k].pat);
    lemma_first_index(pu, 0, c);
    let keys = arm_keys(arms, c);
    assert(m.arms@.len() == m.arms.len());
    assert forall|a: int, b: int| 0 <= a < b < keys.len() implies !text_lt(keys[b], keys[a]) by {
        assert(keys[a] == arms[a].key@ && keys[b] == arms[b].key@);
    }
    lemma_identity_is_stable_order(keys);
    let order = stable_order(keys);
    let pm = |k: int| pat_text(arms[k].pat) != pat_text(arms[order[k] as int].pat);
    lemma_first_index(pm, 0, c);
    if first_index(pm, 0, c) < c {
        let k = first_index(pm, 0, c);
        assert(order[k] == k as usize);
    }
}

/// The attributes left on a match never include `#[sorted]`, and a match
/// without `#[sorted]` keeps all of its attributes.
pub proof fn law_kept_attrs(s: Seq<AttrModel>)
    ensures
        forall|k: int| 0 <= k < kept_attrs(s).len() ==> !is_sorted_attr(#[trigger] kept_attrs(s)[k]),
        (forall|k: int| 0 <= k < s.len() ==> !is_sorted_attr(#[trigger] s[k])) ==> kept_attrs(s) == s,
    decreases s.len(),
{
    if s.len() > 0 {
        let init = s.subrange(0, s.len() - 1);
        law_kept_attrs(init);
        let r = kept_attrs(init);
        if !is_sorted_attr(s[s.len() - 1]) {
            assert forall|k: int| 0 <= k < r.push(s[s.len() - 1]).len() implies !is_sorted_attr(
                #[trigger] r.push(s[s.len() - 1])[k],
            ) by {
                if k < r.len() {
                    assert(r.push(s[s.len() - 1])[k] == r[k]);
                }
            }
        }
        if forall|k: int| 0 <= k < s.len() ==> !is_sorted_attr(#[trigger] s[k]) {
            assert forall|k: int| 0 <= k < init.len() implies !is_sorted_attr(#[trigger] init[k]) by {
                assert(init[k] == s[k]);
            }
            assert(!is_sorted_attr(s[s.len() - 1]));
            assert(init.push(s[s.len() - 1]) =~= s);
        }
    }
}

/// A match without `#[sorted]` is never reported and keeps its attributes.
pub proof fn law_unmarked_match_is_untouched(m: MatchModel)
    requires
        !has_sorted_attr(m),
    ensures
        match_verdict(m) is None,
        kept_attrs(m.attrs@) == m.attrs@,
{
    law_kept_attrs(m.attrs@);
}


/// A stable order of the first `m` positions of `keys`, built by inserting
/// each position after all those whose key is not greater.
proof fn lemma_stable_prefix(keys: Seq<Seq<char>>, m: int) -> (o: Seq<usize>)
    requires
        0 <= m <= keys.len(),
        keys.len() <= usize::MAX,
    ensures
        o.len() == m,
        forall|k: int| 0 <= k < m ==> #[trigger] o[k] < m,
        forall|i: int| 0 <= i < m ==> #[trigger] o.contains(i as usize),
        forall|a: int, b: int|
            0 <= a < b < m ==> key_before(keys, #[trigger] o[a] as int, #[trigger] o[b] as int),
    decreases m,
{
    if m == 0 {
        Seq::empty()
    } else {
        let prev = lemma_stable_prefix(keys, m - 1);
        let greater = |k: int| text_lt(keys[m - 1], keys[prev[k] as int]);
        let pos = first_index(greater, 0, m - 1);
        lemma_first_index(greater, 0, m - 1);
        assert forall|k: int| 0 <= k < pos implies !text_lt(
            keys[m - 1],
            keys[#[trigger] prev[k] as int],
        ) by {
            assert(!greater(k));
        }
        lemma_insert_in_order(keys, prev, pos, m - 1);
        prev.insert(pos, (m - 1) as usize)
    }
}

/// Every list of keys that fits in memory has its stable order.
pub proof fn lemma_stable_order_exists(keys: Seq<Seq<char>>)
    requires
        keys.len() <= usize::MAX,
    ensures
        is_stable_order(keys, stable_order(keys)),
{
    let o = lemma_stable_prefix(keys, keys.len() as int);
    assert(is_stable_order(keys, o));
}

/// A `#[sorted]` match that passes the check has, before a final `_`, only
/// paths, tuple-struct patterns and identifiers, and the names written at
/// its arms are the names listed when its arms are put in stable order of
/// their printed text: reordering the arms by their keys changes no name.
pub proof fn law_passing_match_keeps_names_in_key_order(m: MatchModel, o: Seq<usize>)
    requires
        has_sorted_attr(m),
        m.arms@.len() > 0,
        match_verdict(m) is None,
        ({
            let arms = m.arms@;
            let n = arms.len() as int;
            let c = if arms[n - 1].pat is Wild { n - 1 } else { n };
            is_stable_order(arm_keys(arms, c), o)
        }),
    ensures
        ({
            let arms = m.arms@;
            let n = arms.len() as int;
            let c = if arms[n - 1].pat is Wild { n - 1 } else { n };
            forall|k: int|
                0 <= k < c ==> is_supported(#[trigger] arms[k].pat) && pat_text(arms[k].pat)
                    == pat_text(arms[o[k] as int].pat)
        }),
{
    let arms = m.arms@;
    let n = arms.len() as int;
    let c = if arms[n - 1].pat is Wild { n - 1 } else { n };
    let pw = |k: int| arms[k].pat is Wild;
    lemma_first_index(pw, 0, n - 1);
    let pu = |k: int| !is_supported(arms[k].pat);
    lemma_first_index(pu, 0, c);
    let keys = arm_keys(arms, c);
    lemma_stable_order_unique(keys, o, stable_order(keys));
    let order = stable_order(keys);
    let pm = |k: int| pat_text(arms[k].pat) != pat_text(arms[order[k] as int].pat);
    lemma_first_index(pm, 0, c);
    assert forall|k: int| 0 <= k < c implies is_supported(#[trigger] arms[k].pat) && pat_text(
        arms[k].pat,
    ) == pat_text(arms[o[k] as int].pat) by {
        assert(!pu(k));
        assert(!pm(k));
    }
}

/// A `#[sorted]` match whose arms before a final `_` carry distinct names is
/// reported as soon as two of those arms are out of the order of their
/// printed text.
pub proof fn law_out_of_order_arms_are_reported(m: MatchModel, a: int, b: int)
    requires
        has_sorted_attr(m),
        m.arms@.len() > 0,
        ({
            let arms = m.arms@;
            let n = arms.len() as int;
            let c = if arms[n - 1].pat is Wild { n - 1 } else { n };
            &&& 0 <= a < b < c
            &&& text_lt(arms[b].key@, arms[a].key@)
            &&& forall|i: int, j: int|
                0 <= i < j < c ==> pat_text(#[trigger] arms[i].pat) != pat_text(
                    #[trigger] arms[j].pat,
                )
        }),
    ensures
        match_verdict(m) is Some,
{
    let arms = m.arms@;
    let n = arms.len() as int;
    let c = if arms[n - 1].pat is Wild { n - 1 } else { n };
    if match_verdict(m) is None {
        let keys = arm_keys(arms, c);
        assert(m.arms@.len() == m.arms.len());
        lemma_stable_order_exists(keys);
        let o = stable_order(keys);
        law_passing_match_keeps_names_in_key_order(m, o);
        assert forall|k: int| 0 <= k < c implies #[trigger] o[k] == k as usize by {
            let j = o[k] as int;
            assert(pat_text(arms[k].pat) == pat_text(arms[j].pat));
            if j < k {
                assert(pat_text(arms[j].pat) != pat_text(arms[k].pat));
            } else if k < j {
                assert(pat_text(arms[k].pat) != pat_text(arms[j].pat));
            }
        }
        assert(o[a] == a as usize && o[b] == b as usize);
        assert(key_before(keys, o[a] as int, o[b] as int));
        assert(keys[a] == arms[a].key@ && keys[b] == arms[b].key@);
        lemma_text_lt_irreflexive(keys[a]);
        if text_lt(keys[a], keys[b]) {
            lemma_text_lt_transitive(keys[a], keys[b], keys[a]);
        }
    }
}

} // verus!
