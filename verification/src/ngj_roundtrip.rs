//! What the JSON format promises: a document written as `.ngj` reads back as
//! the same document, with no issues, whenever its category names differ and
//! every weight is at least 1.

use vstd::prelude::*;
use crate::json::{number_shape, number_token, scan_digits, lemma_scan_digits, JsonM};
use crate::json_roundtrip::{json_ok, lemma_json_round_trip};
use crate::model::{
    add_category_spec, find_category, has_name, lemma_find_category_from, CategoryM, DocM, EntryM,
    IssueM,
};
use crate::ngj::{
    category_json, cats_fold, doc_json, entry_json, fields_fold, item_entry, items_fold,
    number_decomposition, number_weight, parse_spec, top_fold, top_member, weight_value,
    write_spec, frac_part, int_part,
};
use crate::ngt::empty_doc;
use crate::text::{decimal, digits_value, is_digit, lemma_decimal};

verus! {

/// No two categories share a name.
pub open spec fn names_distinct(cats: Seq<CategoryM>) -> bool {
    forall|i: int, j: int| 0 <= i < j < cats.len() ==> #[trigger] cats[i].name != #[trigger] cats[j].name
}

/// Every entry weighs at least 1.
pub open spec fn weights_positive(cats: Seq<CategoryM>) -> bool {
    forall|i: int, k: int|
        0 <= i < cats.len() && 0 <= k < cats[i].entries.len() ==> #[trigger] cats[i].entries[k].weight >= 1
}

/// A document that the JSON format holds unchanged.
pub open spec fn ngj_representable(d: DocM) -> bool {
    names_distinct(d.categories) && weights_positive(d.categories)
}

/// The numeral of `n` is one number token.
proof fn lemma_decimal_token(n: nat)
    ensures
        number_token(decimal(n)),
        number_shape(decimal(n), 0) == (
            0int,
            decimal(n).len() as int,
            false,
            decimal(n).len() as int,
            false,
            decimal(n).len() as int,
            decimal(n).len() as int,
        ),
{
    let t = decimal(n);
    lemma_decimal(n);
    assert(is_digit(t[0]));
    lemma_scan_digits(t, 0);
    let b = scan_digits(t, 0);
    if b < t.len() {
        assert(is_digit(t[b]));
    }
    assert(b == t.len());
    assert(t.subrange(0, t.len() as int) =~= t);
}

/// The weight that the numeral of `n` gives is `n`.
proof fn lemma_number_weight_decimal(n: nat)
    requires
        1 <= n <= u32::MAX,
    ensures
        number_weight(decimal(n)) == Some(n as u32),
{
    let t = decimal(n);
    lemma_decimal_token(n);
    lemma_decimal(n);
    let (neg, mant, point) = number_decomposition(t);
    assert(t.subrange(0, t.len() as int) =~= t);
    assert(t.subrange(t.len() as int, t.len() as int) =~= Seq::<char>::empty());
    assert(digits_value(Seq::<char>::empty()) == 0);
    assert(mant =~= t);
    assert(point == t.len());
    assert(int_part(mant, point) =~= t);
    assert(frac_part(mant, point) =~= Seq::<char>::empty());
}

/// Every number in the JSON of a document is one number token.
proof fn lemma_doc_json_ok(d: DocM)
    ensures
        json_ok(doc_json(d)),
{
    let cs = d.categories.map_values(|c: CategoryM| category_json(c));
    assert forall|i: int| 0 <= i < cs.len() implies json_ok(#[trigger] cs[i].1) by {
        let c = d.categories[i];
        let items = c.entries.map_values(|e: EntryM| entry_json(e));
        assert(cs[i].1 == JsonM::Array(items));
        assert forall|k: int| 0 <= k < items.len() implies json_ok(#[trigger] items[k]) by {
            let e = c.entries[k];
            assert(items[k] == entry_json(e));
            if e.weight != 1 {
                let fs = seq![("text"@, JsonM::Str(e.text)), ("weight"@, JsonM::Number(decimal(e.weight as nat)))];
                lemma_decimal_token(e.weight as nat);
                assert forall|j: int| 0 <= j < fs.len() implies json_ok(#[trigger] fs[j].1) by {}
            }
        }
    }
    let ms = match d.start {
        Some(s) => seq![("start"@, JsonM::Str(s))],
        None => Seq::<(Seq<char>, JsonM)>::empty(),
    } + seq![("categories"@, JsonM::Object(cs))];
    assert forall|j: int| 0 <= j < ms.len() implies json_ok(#[trigger] ms[j].1) by {}
}

/// The JSON of one entry reads back as that entry, with no issues.
proof fn lemma_item_entry(e: EntryM, cat: Seq<char>)
    requires
        e.weight >= 1,
    ensures
        item_entry(entry_json(e), cat) == (seq![e], Seq::<IssueM>::empty()),
{
    if e.weight != 1 {
        let f1 = ("text"@, JsonM::Str(e.text));
        let f2 = ("weight"@, JsonM::Number(decimal(e.weight as nat)));
        let fs = seq![f1, f2];
        reveal_strlit("text");
        reveal_strlit("weight");
        assert("weight"@ != "text"@) by {
            assert("weight"@.len() != "text"@.len());
        }
        assert(fs.drop_last() =~= seq![f1]);
        assert(seq![f1].drop_last() =~= Seq::<(Seq<char>, JsonM)>::empty());
        assert(fields_fold(Seq::<(Seq<char>, JsonM)>::empty(), cat) == (
            None::<Seq<char>>,
            1u32,
            Seq::<IssueM>::empty(),
        ));
        assert(seq![f1].last() == f1);
        assert(fields_fold(seq![f1], cat) == (Some(e.text), 1u32, Seq::<IssueM>::empty()));
        lemma_number_weight_decimal(e.weight as nat);
        assert(weight_value(f2.1) == Some(e.weight));
        assert(fields_fold(fs, cat) == (Some(e.text), e.weight, Seq::<IssueM>::empty()));
    }
}

/// The JSON of a list of entries reads back as the list, with no issues.
proof fn lemma_items_fold(es: Seq<EntryM>, cat: Seq<char>)
    requires
        forall|k: int| 0 <= k < es.len() ==> (#[trigger] es[k]).weight >= 1,
    ensures
        items_fold(es.map_values(|e: EntryM| entry_json(e)), cat) == (es, Seq::<IssueM>::empty()),
    decreases es.len(),
{
    let items = es.map_values(|e: EntryM| entry_json(e));
    if es.len() > 0 {
        let init = es.drop_last();
        assert(items.drop_last() =~= init.map_values(|e: EntryM| entry_json(e)));
        lemma_items_fold(init, cat);
        lemma_item_entry(es.last(), cat);
        assert(items.last() == entry_json(es.last()));
        assert(init + seq![es.last()] =~= es);
        assert(Seq::<IssueM>::empty() + Seq::<IssueM>::empty() =~= Seq::<IssueM>::empty());
    } else {
        assert(es =~= Seq::<EntryM>::empty());
    }
}

/// Reading the first `n` categories of the JSON adds them one by one.
proof fn lemma_cats_fold(start: Option<Seq<char>>, cats: Seq<CategoryM>, n: int)
    requires
        names_distinct(cats),
        weights_positive(cats),
        0 <= n <= cats.len(),
    ensures
        cats_fold(
            (DocM { start, categories: seq![] }, Seq::<IssueM>::empty()),
            cats.map_values(|c: CategoryM| category_json(c)).take(n),
        ) == Ok::<(DocM, Seq<IssueM>), IssueM>(
            (DocM { start, categories: cats.take(n) }, Seq::<IssueM>::empty()),
        ),
    decreases n,
{
    let cs = cats.map_values(|c: CategoryM| category_json(c));
    let st0 = (DocM { start, categories: seq![] }, Seq::<IssueM>::empty());
    if n == 0 {
        assert(cs.take(0) =~= Seq::<(Seq<char>, JsonM)>::empty());
        assert(cats.take(0) =~= Seq::<CategoryM>::empty());
    } else {
        lemma_cats_fold(start, cats, n - 1);
        assert(cs.take(n).drop_last() =~= cs.take(n - 1));
        let c = cats[n - 1];
        assert(cs.take(n).last() == category_json(c));
        let prev = cats.take(n - 1);
        assert forall|k: int| 0 <= k < c.entries.len() implies (#[trigger] c.entries[k]).weight >= 1 by {
            assert(cats[n - 1].entries[k].weight >= 1);
        }
        lemma_items_fold(c.entries, c.name);
        lemma_find_category_from(prev, c.name, 0);
        assert(find_category(prev, c.name) is None) by {
            if let Some(i) = find_category(prev, c.name) {
                assert(prev[i] == cats[i]);
                assert(cats[i].name != cats[n - 1].name);
            }
        }
        assert(!has_name(prev, c.name)) by {
            if has_name(prev, c.name) {
                let i = choose|i: int| 0 <= i < prev.len() && #[trigger] prev[i].name == c.name;
                assert(prev[i] == cats[i]);
                assert(cats[i].name != cats[n - 1].name);
            }
        }
        assert(add_category_spec(prev, c.name, c.entries) =~= cats.take(n)) by {
            assert(CategoryM { name: c.name, entries: c.entries } == c);
        }
        assert(Seq::<IssueM>::empty() + Seq::<IssueM>::empty() + Seq::<IssueM>::empty()
            =~= Seq::<IssueM>::empty());
    }
}

/// The members of the JSON of a document read back as the document.
proof fn lemma_top_fold_doc(d: DocM)
    requires
        ngj_representable(d),
    ensures
        doc_json(d) matches JsonM::Object(ms) && top_fold(ms) == Ok::<(DocM, Seq<IssueM>), IssueM>(
            (d, Seq::<IssueM>::empty()),
        ),
{
    let cats = d.categories;
    let cs = cats.map_values(|c: CategoryM| category_json(c));
    let head = match d.start {
        Some(s) => seq![("start"@, JsonM::Str(s))],
        None => Seq::<(Seq<char>, JsonM)>::empty(),
    };
    let ms = head + seq![("categories"@, JsonM::Object(cs))];
    assert(doc_json(d) == JsonM::Object(ms));
    assert(ms.drop_last() =~= head);
    reveal_strlit("start");
    reveal_strlit("categories");
    assert("categories"@ != "start"@) by {
        assert("categories"@.len() != "start"@.len());
    }
    let st = (DocM { start: d.start, categories: seq![] }, Seq::<IssueM>::empty());
    match d.start {
        Some(s) => {
            assert(head.drop_last() =~= Seq::<(Seq<char>, JsonM)>::empty());
            assert(top_fold(Seq::<(Seq<char>, JsonM)>::empty()) == Ok::<(DocM, Seq<IssueM>), IssueM>(
                (empty_doc(), Seq::<IssueM>::empty()),
            ));
            assert(head.last() == ("start"@, JsonM::Str(s)));
            assert(top_member((empty_doc(), Seq::<IssueM>::empty()), "start"@, JsonM::Str(s)) == Ok::<
                (DocM, Seq<IssueM>),
                IssueM,
            >(st));
            assert(top_fold(head) == Ok::<(DocM, Seq<IssueM>), IssueM>(st));
        },
        None => {
            assert(top_fold(head) == Ok::<(DocM, Seq<IssueM>), IssueM>(st));
        },
    }
    lemma_cats_fold(d.start, cats, cats.len() as int);
    assert(cs.take(cs.len() as int) =~= cs);
    assert(cats.take(cats.len() as int) =~= cats);
    assert(DocM { start: d.start, categories: cats } == d);
}

/// Round trip through the JSON format: writing a document whose category
/// names differ and whose weights are all at least 1, and reading the text
/// back (with or without a line break after it), gives the same document and
/// no issues.
pub proof fn lemma_ngj_round_trip(d: DocM)
    requires
        ngj_representable(d),
    ensures
        parse_spec(write_spec(d)) == Ok::<(DocM, Seq<IssueM>), IssueM>((d, Seq::<IssueM>::empty())),
        parse_spec(write_spec(d).push('\n')) == Ok::<(DocM, Seq<IssueM>), IssueM>(
            (d, Seq::<IssueM>::empty()),
        ),
{
    lemma_doc_json_ok(d);
    lemma_json_round_trip(doc_json(d));
    lemma_top_fold_doc(d);
}

} // verus!
