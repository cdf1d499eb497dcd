//! What a conversion promises as a whole: the text it writes loads back, in
//! strict mode and with nothing reported, as the document it was written from.

use vstd::prelude::*;
use crate::cli::{diagnostic_lines, load_spec, output_spec, read_spec, Format};
use crate::model::{
    finalize_spec, has_name, lemma_finalize_clean, refs_defined, CategoryM, DocM, IssueM,
};
use crate::ngj_roundtrip::{lemma_ngj_round_trip, ngj_representable};
use crate::ngt::{category_line, category_lines, start_block};
use crate::ngt_roundtrip::{lemma_ngt_round_trip, ngt_representable};

verus! {

/// A document as loading leaves it: its start names one of its categories and
/// every placeholder names a category.
pub open spec fn loaded(d: DocM) -> bool {
    &&& d.start matches Some(s) && has_name(d.categories, s)
    &&& refs_defined(d)
}

/// Whether format `to` holds `d` unchanged: `.ngt` needs its own rules and an
/// entry in every category, `.ngj` distinct names and weights of at least 1.
pub open spec fn holds_unchanged(d: DocM, to: Format) -> bool {
    match to {
        Format::Ngt => ngt_representable(d) && forall|j: int|
            0 <= j < d.categories.len() ==> (#[trigger] d.categories[j]).entries.len() > 0,
        Format::Ngj => ngj_representable(d),
    }
}

proof fn lemma_category_lines_end(cs: Seq<CategoryM>)
    requires
        cs.len() > 0,
    ensures
        category_lines(cs).len() > 0,
        category_lines(cs).last() == '\n',
{
    let l = category_line(cs.last());
    assert(category_lines(cs) == category_lines(cs.drop_last()) + l);
    assert(l.last() == '\n');
}

/// Loading a loaded document checks it without change or issue.
proof fn lemma_loaded_finalize(d: DocM)
    requires
        loaded(d),
    ensures
        finalize_spec(d) == (d, Seq::<IssueM>::empty()),
{
    lemma_finalize_clean(d);
    assert(finalize_spec(d).1 =~= Seq::<IssueM>::empty());
}

/// Converting back: the text that a conversion writes for a loaded document in
/// a format that holds it loads back, in either mode, with no diagnostic
/// line, as the same document.
pub proof fn lemma_output_reloads(d: DocM, to: Format, lenient: bool)
    requires
        loaded(d),
        holds_unchanged(d, to),
    ensures
        load_spec(output_spec(d, to), to, lenient) == (
            Seq::<Seq<char>>::empty(),
            Ok::<DocM, Seq<char>>(d),
        ),
{
    lemma_loaded_finalize(d);
    let out = output_spec(d, to);
    match to {
        Format::Ngt => {
            let t = crate::ngt::write_spec(d);
            assert(d.categories.len() > 0);
            lemma_category_lines_end(d.categories);
            assert(t == start_block(d.start) + category_lines(d.categories));
            assert(t.last() == '\n');
            assert(out == t);
            lemma_ngt_round_trip(d);
            if let Ok((d2, is)) = crate::ngt::parse_spec(t) {
                assert(is =~= Seq::<IssueM>::empty());
            }
        },
        Format::Ngj => {
            lemma_ngj_round_trip(d);
            let t = crate::ngj::write_spec(d);
            assert(out == t || out == t.push('\n'));
        },
    }
    assert(read_spec(out, to) == Ok::<(DocM, Seq<IssueM>), IssueM>((d, Seq::<IssueM>::empty())));
    let all = Seq::<IssueM>::empty() + Seq::<IssueM>::empty();
    assert(all =~= Seq::<IssueM>::empty());
    assert(diagnostic_lines(all, lenient) =~= Seq::<Seq<char>>::empty());
}

/// Converting to the other format and back: a loaded document that both
/// formats hold, written as `.ngj`, loaded, written as `.ngt` and loaded again
/// (or the other way round), comes back unchanged with nothing reported.
pub proof fn lemma_convert_both_ways(d: DocM, first: Format, lenient: bool)
    requires
        loaded(d),
        holds_unchanged(d, Format::Ngt),
        holds_unchanged(d, Format::Ngj),
    ensures
        load_spec(output_spec(d, first), first, lenient).1 matches Ok(d1) && load_spec(
            output_spec(
                d1,
                match first {
                    Format::Ngt => Format::Ngj,
                    Format::Ngj => Format::Ngt,
                },
            ),
            match first {
                Format::Ngt => Format::Ngj,
                Format::Ngj => Format::Ngt,
            },
            lenient,
        ) == (Seq::<Seq<char>>::empty(), Ok::<DocM, Seq<char>>(d)),
{
    lemma_output_reloads(d, Format::Ngt, lenient);
    lemma_output_reloads(d, Format::Ngj, lenient);
}

} // verus!
