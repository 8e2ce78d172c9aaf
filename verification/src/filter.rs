//! Compiled filters: a tree of containment tests joined by "and" and "or",
//! and the canonical key under which the results of a filter are cached.

use vstd::prelude::*;
use vstd::string::StringExecFns;
use crate::order::{by_text, lemma_sorted_texts_unique, lines, sort_texts, sorted_texts};
use crate::text::{chars_of, text_of, texts};

verus! {

/// A compiled filter.
#[derive(Debug, PartialEq, Eq)]
pub enum Filter {
    /// The field holds one of the values. The values are in lexicographic
    /// order.
    In { field: String, values: Vec<String> },
    And(Box<Filter>, Box<Filter>),
    Or(Box<Filter>, Box<Filter>),
}

/// The mathematical value of a filter.
pub ghost enum FilterView {
    In { field: Seq<char>, values: Seq<Seq<char>> },
    And(Box<FilterView>, Box<FilterView>),
    Or(Box<FilterView>, Box<FilterView>),
}

/// The mathematical value of a filter.
pub open spec fn filter_view(f: Filter) -> FilterView
    decreases f,
{
    match f {
        Filter::In { field, values } => FilterView::In { field: field@, values: texts(values@) },
        Filter::And(l, r) => FilterView::And(Box::new(filter_view(*l)), Box::new(filter_view(*r))),
        Filter::Or(l, r) => FilterView::Or(Box::new(filter_view(*l)), Box::new(filter_view(*r))),
    }
}

impl View for Filter {
    type V = FilterView;

    open spec fn view(&self) -> FilterView {
        filter_view(*self)
    }
}

/// A decimal digit.
pub open spec fn is_digit(c: char) -> bool {
    '0' <= c && c <= '9'
}

/// The identifier of a question: the letter `q` followed by one or more
/// digits.
pub open spec fn is_question(ident: Seq<char>) -> bool {
    &&& ident.len() >= 2
    &&& ident[0] == 'q'
    &&& forall|i: int| 1 <= i < ident.len() ==> is_digit(#[trigger] ident[i])
}

/// The field that an identifier of the filter language addresses: for a
/// question, its ticked options; for the character and music lists, the
/// names of their items; else the identifier itself.
pub open spec fn rename_of(ident: Seq<char>) -> Seq<char> {
    if is_question(ident) {
        ident + ".opt"@
    } else if ident == "chars"@ {
        "chars.name"@
    } else if ident == "musics"@ {
        "musics.name"@
    } else {
        ident
    }
}

fn question_ident(ident: &Vec<char>) -> (r: bool)
    ensures
        r == is_question(ident@),
{
    if ident.len() < 2 || ident[0] != 'q' {
        return false;
    }
    let mut i: usize = 1;
    while i < ident.len()
        invariant
            1 <= i <= ident.len(),
            forall|k: int| 1 <= k < i ==> is_digit(#[trigger] ident[k]),
        decreases ident.len() - i,
    {
        if !('0' <= ident[i] && ident[i] <= '9') {
            return false;
        }
        i += 1;
    }
    true
}

/// The field that an identifier of the filter language addresses.
pub fn rename_ident(ident: &str) -> (field: String)
    ensures
        field@ == rename_of(ident@),
{
    let chars = chars_of(ident);
    if question_ident(&chars) {
        String::from_str(ident).concat(".opt")
    } else {
        let chars_list = String::from_str("chars");
        let musics_list = String::from_str("musics");
        let own = String::from_str(ident);
        if own == chars_list {
            String::from_str("chars.name")
        } else if own == musics_list {
            String::from_str("musics.name")
        } else {
            own
        }
    }
}

/// What `ident : [values]` compiles to: the renamed field holds one of the
/// values, which are listed in lexicographic order.
pub open spec fn in_condition_of(ident: Seq<char>, values: Seq<Seq<char>>) -> FilterView {
    FilterView::In { field: rename_of(ident), values: sorted_texts(values) }
}

/// What `ident = value` compiles to: the renamed field holds the value.
pub open spec fn eq_condition_of(ident: Seq<char>, value: Seq<char>) -> FilterView {
    FilterView::In { field: rename_of(ident), values: seq![value] }
}

/// Compiles `ident : [values]`.
pub fn in_condition(ident: &str, values: &Vec<String>) -> (f: Filter)
    ensures
        f@ == in_condition_of(ident@, texts(values@)),
{
    let mut rows: Vec<Vec<char>> = Vec::new();
    let mut i: usize = 0;
    while i < values.len()
        invariant
            i <= values.len(),
            rows.len() == i,
            forall|k: int| 0 <= k < i ==> (#[trigger] rows[k])@ == values[k]@,
        decreases values.len() - i,
    {
        rows.push(chars_of(values[i].as_str()));
        i += 1;
    }
    proof {
        assert(lines(rows@) =~= texts(values@));
    }
    let sorted = sort_texts(rows);
    let mut out: Vec<String> = Vec::new();
    let mut j: usize = 0;
    while j < sorted.len()
        invariant
            j <= sorted.len(),
            out.len() == j,
            forall|k: int| 0 <= k < j ==> (#[trigger] out[k])@ == sorted[k]@,
        decreases sorted.len() - j,
    {
        out.push(text_of(&sorted[j]));
        j += 1;
    }
    proof {
        assert(texts(out@) =~= lines(sorted@));
    }
    Filter::In { field: rename_ident(ident), values: out }
}

/// Compiles `ident = value`.
pub fn eq_condition(ident: &str, value: String) -> (f: Filter)
    ensures
        f@ == eq_condition_of(ident@, value@),
{
    let mut values: Vec<String> = Vec::new();
    values.push(value);
    proof {
        assert(texts(values@) =~= seq![value@]);
    }
    Filter::In { field: rename_ident(ident), values }
}

/// An equality test compiles to the containment test against the list of
/// its one value.
pub proof fn lemma_eq_is_in_of_one(ident: Seq<char>, value: Seq<char>)
    ensures
        eq_condition_of(ident, value) == in_condition_of(ident, seq![value]),
{
    let one = seq![value];
    assert(vstd::relations::sorted_by(one, by_text()));
    lemma_sorted_texts_unique(one, one);
}

/// Two containment tests on the same identifier whose value lists hold the
/// same values, in whatever order, compile to the same filter.
pub proof fn lemma_value_order_is_irrelevant(ident: Seq<char>, v: Seq<Seq<char>>, w: Seq<Seq<char>>)
    requires
        v.to_multiset() == w.to_multiset(),
    ensures
        in_condition_of(ident, v) == in_condition_of(ident, w),
{
    crate::order::lemma_text_order_total();
    w.lemma_sort_by_ensures(by_text());
    lemma_sorted_texts_unique(v, sorted_texts(w));
}

/// `bson::Document`: an ordered map from field names to values. The engine
/// builds documents and hands them on; it never looks inside one.
#[verifier::external_type_specification]
#[verifier::external_body]
pub struct ExDocument(bson::Document);

/// What a field of a document holds, as far as the engine builds documents:
/// a list of texts (an empty array is read as an empty list of texts), a
/// document, or a list of documents that is not empty.
pub ghost enum FieldView {
    Texts(Seq<Seq<char>>),
    Doc(Seq<(Seq<char>, FieldView)>),
    Docs(Seq<Seq<(Seq<char>, FieldView)>>),
}

/// The fields of a document, in the order in which they were inserted.
pub uninterp spec fn document_fields(d: bson::Document) -> Seq<(Seq<char>, FieldView)>;

/// The text that `bson` prints with `{:?}` for a document of these fields.
pub uninterp spec fn document_text(fields: Seq<(Seq<char>, FieldView)>) -> Seq<char>;

/// The fields of each document of a list.
pub open spec fn fields_of_each(docs: Seq<bson::Document>) -> Seq<Seq<(Seq<char>, FieldView)>> {
    docs.map_values(|x: bson::Document| document_fields(x))
}

/// `bson::Document::new`: a document without fields.
#[verifier::external_body]
fn new_document() -> (d: bson::Document)
    ensures
        document_fields(d) == Seq::<(Seq<char>, FieldView)>::empty(),
{
    bson::Document::new()
}

/// `bson::Document::insert` of a list of strings into a document without
/// fields: the document then holds that one field.
#[verifier::external_body]
fn insert_texts(d: &mut bson::Document, key: &str, values: &Vec<String>)
    requires
        document_fields(*old(d)).len() == 0,
    ensures
        document_fields(*final(d)) == seq![(key@, FieldView::Texts(texts(values@)))],
{
    d.insert(key, values.clone());
}

/// `bson::Document::insert` of a document into a document without fields:
/// the outer document then holds that one field.
#[verifier::external_body]
fn insert_document(d: &mut bson::Document, key: &str, inner: bson::Document)
    requires
        document_fields(*old(d)).len() == 0,
    ensures
        document_fields(*final(d)) == seq![(key@, FieldView::Doc(document_fields(inner)))],
{
    d.insert(key, inner);
}

/// `bson::Document::insert` of a list of documents, not empty, into a
/// document without fields: the outer document then holds that one field.
/// An empty list is left out: `bson` keeps it as the same empty array as an
/// empty list of strings, which `insert_texts` reads as texts.
#[verifier::external_body]
fn insert_documents(d: &mut bson::Document, key: &str, inner: Vec<bson::Document>)
    requires
        document_fields(*old(d)).len() == 0,
        inner@.len() > 0,
    ensures
        document_fields(*final(d)) == seq![(key@, FieldView::Docs(fields_of_each(inner@)))],
{
    d.insert(key, inner);
}

/// Formats the document with its `Debug` implementation: the text depends
/// on the fields of the document alone.
#[verifier::external_body]
fn document_debug(d: &bson::Document) -> (s: String)
    ensures
        s@ == document_text(document_fields(*d)),
{
    format!("{:?}", d)
}

/// The fields of the document that the ballot store is asked with for a
/// filter: a containment test is `{ field: { "$in": values } }`; a
/// conjunction is `{ "$and": [left, right] }`; a disjunction is
/// `{ "$or": [left, right] }`.
pub open spec fn fields_of(f: FilterView) -> Seq<(Seq<char>, FieldView)>
    decreases f,
{
    match f {
        FilterView::In { field, values } => seq![(field, FieldView::Doc(seq![("$in"@, FieldView::Texts(values))]))],
        FilterView::And(l, r) => seq![("$and"@, FieldView::Docs(seq![fields_of(*l), fields_of(*r)]))],
        FilterView::Or(l, r) => seq![("$or"@, FieldView::Docs(seq![fields_of(*l), fields_of(*r)]))],
    }
}

/// The document tells filters apart: two filters whose documents hold the
/// same fields are the same filter.
pub proof fn lemma_fields_tell_filters_apart(f: FilterView, g: FilterView)
    requires
        fields_of(f) == fields_of(g),
    ensures
        f == g,
    decreases f,
{
    reveal_strlit("$in");
    reveal_strlit("$and");
    reveal_strlit("$or");
    let a = fields_of(f)[0];
    let b = fields_of(g)[0];
    assert(a == b);
    match f {
        FilterView::In { field, values } => {
            match g {
                FilterView::In { field: field2, values: values2 } => {
                    let x = seq![("$in"@, FieldView::Texts(values))];
                    let y = seq![("$in"@, FieldView::Texts(values2))];
                    assert(a.1 == FieldView::Doc(x));
                    assert(b.1 == FieldView::Doc(y));
                    assert(x[0] == y[0]);
                },
                _ => {},
            }
        },
        FilterView::And(l, r) => {
            match g {
                FilterView::And(l2, r2) => {
                    let x = seq![fields_of(*l), fields_of(*r)];
                    let y = seq![fields_of(*l2), fields_of(*r2)];
                    assert(a.1 == FieldView::Docs(x));
                    assert(b.1 == FieldView::Docs(y));
                    assert(x[0] == y[0] && x[1] == y[1]);
                    lemma_fields_tell_filters_apart(*l, *l2);
                    lemma_fields_tell_filters_apart(*r, *r2);
                },
                FilterView::Or(l2, r2) => {
                    assert("$and"@.len() == 4 && "$or"@.len() == 3);
                },
                _ => {},
            }
        },
        FilterView::Or(l, r) => {
            match g {
                FilterView::Or(l2, r2) => {
                    let x = seq![fields_of(*l), fields_of(*r)];
                    let y = seq![fields_of(*l2), fields_of(*r2)];
                    assert(a.1 == FieldView::Docs(x));
                    assert(b.1 == FieldView::Docs(y));
                    assert(x[0] == y[0] && x[1] == y[1]);
                    lemma_fields_tell_filters_apart(*l, *l2);
                    lemma_fields_tell_filters_apart(*r, *r2);
                },
                FilterView::And(l2, r2) => {
                    assert("$and"@.len() == 4 && "$or"@.len() == 3);
                },
                _ => {},
            }
        },
    }
}

/// The canonical text of a filter, under which its results are cached:
/// what `bson` prints for the document of the filter.
pub open spec fn cache_key_of(f: FilterView) -> Seq<char> {
    document_text(fields_of(f))
}

/// The two documents as a list.
fn pair_of_documents(left: bson::Document, right: bson::Document) -> (parts: Vec<bson::Document>)
    ensures
        parts@.len() == 2,
        fields_of_each(parts@) == seq![document_fields(left), document_fields(right)],
{
    let mut parts: Vec<bson::Document> = Vec::new();
    parts.push(left);
    parts.push(right);
    proof {
        assert(fields_of_each(parts@) =~= seq![document_fields(left), document_fields(right)]);
    }
    parts
}

/// The document that the ballot store is asked with for a filter.
pub fn filter_document(f: &Filter) -> (d: bson::Document)
    ensures
        document_fields(d) == fields_of(f@),
    decreases f,
{
    let mut d = new_document();
    match f {
        Filter::In { field, values } => {
            let mut test = new_document();
            insert_texts(&mut test, "$in", values);
            insert_document(&mut d, field.as_str(), test);
        },
        Filter::And(l, r) => {
            let parts = pair_of_documents(filter_document(l), filter_document(r));
            insert_documents(&mut d, "$and", parts);
        },
        Filter::Or(l, r) => {
            let parts = pair_of_documents(filter_document(l), filter_document(r));
            insert_documents(&mut d, "$or", parts);
        },
    }
    d
}

/// The cache key of a filter.
pub fn cache_key(f: &Filter) -> (key: String)
    ensures
        key@ == cache_key_of(f@),
{
    let d = filter_document(f);
    document_debug(&d)
}

/// Two containment tests on the same identifier whose value lists hold the
/// same values, in whatever order, share their cache key.
pub proof fn lemma_value_order_keeps_key(ident: Seq<char>, v: Seq<Seq<char>>, w: Seq<Seq<char>>)
    requires
        v.to_multiset() == w.to_multiset(),
    ensures
        cache_key_of(in_condition_of(ident, v)) == cache_key_of(in_condition_of(ident, w)),
{
    lemma_value_order_is_irrelevant(ident, v, w);
}

} // verus!
