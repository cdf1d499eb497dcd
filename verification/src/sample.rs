//! Weighted sampling of names: expands the start category into text by
//! replacing every `{placeholder}` with a weighted random pick from the named
//! category. `\{` and `\}` are literal braces. Expansion stops with an error
//! past a fixed depth, so a reference cycle fails instead of running forever.

use vstd::prelude::*;
use crate::model::{
    find_category, has_name, lemma_find_category, lemma_segments_step, next_segment,
    placeholder_names, segment_at, segment_names, segments, DocM, Document, EntryM, Segment,
};
use crate::text::{
    append_chars, chars_of, is_ident, is_ident_range, push_str, slice_chars, string_of,
};

verus! {

/// How deep placeholders may nest while expanding.
pub const MAX_DEPTH: u32 = 64;

pub open spec fn golden() -> u64 {
    0x9E37_79B9_7F4A_7C15
}

/// The splitmix64 state after one step.
pub open spec fn next_state(s: u64) -> u64 {
    vstd::wrapping::u64_specs::wrapping_add(s, golden())
}

/// The splitmix64 output mixing of a state.
pub open spec fn mix(z: u64) -> u64 {
    let z1 = vstd::wrapping::u64_specs::wrapping_mul(z ^ (z >> 30u64), 0xBF58_476D_1CE4_E5B9);
    let z2 = vstd::wrapping::u64_specs::wrapping_mul(z1 ^ (z1 >> 27u64), 0x94D0_49BB_1331_11EB);
    z2 ^ (z2 >> 31u64)
}

/// The number drawn from state `s`.
pub open spec fn draw(s: u64) -> u64 {
    mix(next_state(s))
}

/// A seeded splitmix64 generator.
pub struct Rng(u64);

impl View for Rng {
    type V = u64;

    closed spec fn view(&self) -> u64 {
        self.0
    }
}

impl Rng {
    /// A generator seeded with `seed`; a zero seed is replaced by a fixed
    /// non-zero one.
    pub fn from_seed(seed: u64) -> (r: Rng)
        ensures
            r@ == if seed == 0 {
                golden()
            } else {
                seed
            },
    {
        Rng(if seed == 0 {
            0x9E37_79B9_7F4A_7C15
        } else {
            seed
        })
    }

    /// The next number of the sequence.
    fn next_u64(&mut self) -> (r: u64)
        ensures
            final(self)@ == next_state(old(self)@),
            r == draw(old(self)@),
    {
        self.0 = self.0.wrapping_add(0x9E37_79B9_7F4A_7C15);
        let mut z = self.0;
        z = (z ^ (z >> 30)).wrapping_mul(0xBF58_476D_1CE4_E5B9);
        z = (z ^ (z >> 27)).wrapping_mul(0x94D0_49BB_1331_11EB);
        z ^ (z >> 31)
    }

    /// A number below `bound`.
    fn below(&mut self, bound: u32) -> (r: u32)
        requires
            bound >= 1,
        ensures
            final(self)@ == next_state(old(self)@),
            r == draw(old(self)@) % (bound as u64),
    {
        (self.next_u64() % bound as u64) as u32
    }
}


/// `std::time::Instant`, carried as an opaque value.
#[verifier::external_type_specification]
#[verifier::external_body]
pub struct ExInstant(std::time::Instant);

/// Calls `RandomState::new`, whose hashing keys the operating system seeds once
/// per process; nothing is stated of the result.
#[verifier::external_body]
fn fresh_random_state() -> std::collections::hash_map::RandomState {
    std::collections::hash_map::RandomState::new()
}

/// Calls `Instant::now`; nothing is stated of the result.
#[verifier::external_body]
fn current_instant() -> std::time::Instant {
    std::time::Instant::now()
}

/// Calls `BuildHasher::hash_one` on an instant; the hash depends on the
/// per-process keys of `state`, so nothing is stated of it.
#[verifier::external_body]
fn hash_instant(state: &std::collections::hash_map::RandomState, t: std::time::Instant) -> u64 {
    std::hash::BuildHasher::hash_one(state, t)
}

impl Rng {
    /// A generator seeded from the process's hashing keys and the current
    /// time; whatever seed comes out, it is used as `from_seed` uses it.
    pub fn from_entropy() -> (r: Rng)
        ensures
            r@ != 0,
    {
        let state = fresh_random_state();
        let seed = hash_instant(&state, current_instant());
        Rng::from_seed(seed)
    }
}

/// The sum of the weights of `es`.
pub open spec fn total_weight(es: Seq<EntryM>) -> nat
    decreases es.len(),
{
    if es.len() == 0 {
        0
    } else {
        total_weight(es.drop_last()) + es.last().weight as nat
    }
}

/// The index of the entry that the draw `r` selects, scanning from `i`: each
/// entry owns a run of `weight` consecutive values.
pub open spec fn pick_from(es: Seq<EntryM>, r: int, i: int) -> int
    decreases es.len() - i,
{
    if i < 0 || i >= es.len() {
        i
    } else if r < es[i].weight {
        i
    } else {
        pick_from(es, r - es[i].weight, i + 1)
    }
}

pub open spec fn msg_no_start() -> Seq<char> {
    "document has no start category"@
}

pub open spec fn msg_recursion(cat: Seq<char>) -> Seq<char> {
    "recursion limit exceeded expanding '{"@ + cat + "}'; check for a reference cycle"@
}

pub open spec fn msg_undefined(cat: Seq<char>) -> Seq<char> {
    "category '"@ + cat + "' is not defined"@
}

pub open spec fn msg_no_entries(cat: Seq<char>) -> Seq<char> {
    "category '"@ + cat + "' has no entries to sample"@
}

pub open spec fn msg_bad_total(cat: Seq<char>) -> Seq<char> {
    "category '"@ + cat + "' has a total weight of 0 or more than 4294967295"@
}

/// Whether weighted picking works on `es`: the total weight is above 0 and
/// fits in `u32`.
pub open spec fn total_fits(es: Seq<EntryM>) -> bool {
    0 < total_weight(es) <= u32::MAX
}

/// A sampling outcome: the text or the error, and the generator state after.
pub type Outcome = (Result<Seq<char>, Seq<char>>, u64);

/// The outcome `r` with `p` put before its text.
pub open spec fn prepend(p: Seq<char>, r: Outcome) -> Outcome {
    match r.0 {
        Ok(x) => (Ok(p + x), r.1),
        Err(e) => (Err(e), r.1),
    }
}

/// Expanding category `cat` at nesting `depth` from generator state `st`:
/// draw once, pick the entry that the draw selects, render its text. A
/// category whose weights sum to 0 or past `u32::MAX` cannot be picked from
/// and stops the expansion before any draw.
pub open spec fn expand_spec(d: DocM, cat: Seq<char>, st: u64, depth: int) -> Outcome
    decreases 65 - depth, 1int, 0int,
{
    if depth > 64 || depth < 0 {
        (Err(msg_recursion(cat)), st)
    } else {
        match find_category(d.categories, cat) {
            None => (Err(msg_undefined(cat)), st),
            Some(i) => {
                let es = d.categories[i].entries;
                if es.len() == 0 {
                    (Err(msg_no_entries(cat)), st)
                } else if !total_fits(es) {
                    (Err(msg_bad_total(cat)), st)
                } else {
                    let r = draw(st) % (total_weight(es) as u64);
                    let k = pick_from(es, r as int, 0);
                    if 0 <= k < es.len() {
                        render_spec(d, segments(es[k].text), next_state(st), depth)
                    } else {
                        (Err(seq![]), next_state(st))
                    }
                }
            },
        }
    }
}

/// Rendering the segments `segs` at nesting `depth`: literal text as it is,
/// a `{name}` of a defined category by expanding it one level deeper (which
/// fails past the depth limit), any other `{...}` group as it was written.
pub open spec fn render_spec(d: DocM, segs: Seq<Segment>, st: u64, depth: int) -> Outcome
    decreases 65 - depth, 0int, segs.len(),
{
    if segs.len() == 0 {
        (Ok(seq![]), st)
    } else {
        match segs[0] {
            Segment::Lit(t) => prepend(t, render_spec(d, segs.drop_first(), st, depth)),
            Segment::Brace(name) => if is_ident(name) && has_name(d.categories, name) {
                let r1 = if depth >= 64 {
                    (Err(msg_recursion(name)), st)
                } else {
                    expand_spec(d, name, st, depth + 1)
                };
                match r1.0 {
                    Err(e) => (Err(e), r1.1),
                    Ok(x) => prepend(x, render_spec(d, segs.drop_first(), r1.1, depth)),
                }
            } else {
                prepend(
                    seq!['{'] + name + seq!['}'],
                    render_spec(d, segs.drop_first(), st, depth),
                )
            },
        }
    }
}

/// Sampling the start category.
pub open spec fn sample_spec(d: DocM, st: u64) -> Outcome {
    match d.start {
        None => (Err(msg_no_start()), st),
        Some(s) => expand_spec(d, s, st, 0),
    }
}

/// Whether an exec outcome is the spec outcome.
pub open spec fn outcome_is(r: Result<Vec<char>, String>, st: u64, o: Outcome) -> bool {
    &&& st == o.1
    &&& match o.0 {
        Ok(x) => r matches Ok(v) && v@ == x,
        Err(e) => r matches Err(m) && m@ == e,
    }
}

proof fn lemma_prepend_prepend(a: Seq<char>, b: Seq<char>, r: Outcome)
    ensures
        prepend(a, prepend(b, r)) == prepend(a + b, r),
{
    match r.0 {
        Ok(x) => {
            assert(a + (b + x) =~= (a + b) + x);
        },
        Err(_) => {},
    }
}

proof fn lemma_prepend_empty(r: Outcome)
    ensures
        prepend(seq![], r) == r,
{
    match r.0 {
        Ok(x) => {
            assert(Seq::<char>::empty() + x =~= x);
        },
        Err(_) => {},
    }
}

/// The index of the entry that the draw `r < total` selects.
fn pick_entry(es_exec: &Vec<crate::model::Entry>, r: u32) -> (k: usize)
    requires
        r < total_weight(crate::model::entries_view(es_exec@)),
    ensures
        k < es_exec.len(),
        k == pick_from(crate::model::entries_view(es_exec@), r as int, 0),
{
    let ghost es = crate::model::entries_view(es_exec@);
    let mut pick = r;
    let mut i: usize = 0;
    assert(es.skip(0) =~= es);
    while i < es_exec.len()
        invariant
            es == crate::model::entries_view(es_exec@),
            i <= es_exec.len(),
            pick_from(es, r as int, 0) == pick_from(es, pick as int, i as int),
            pick < total_weight(es.skip(i as int)),
        decreases es_exec.len() - i,
    {
        let w = es_exec[i].weight;
        if pick < w {
            return i;
        }
        proof {
            lemma_total_weight_first(es.skip(i as int));
            assert(es.skip(i as int).drop_first() =~= es.skip(i + 1));
        }
        pick = pick - w;
        i = i + 1;
    }
    proof {
        assert(es.skip(i as int) =~= Seq::<EntryM>::empty());
    }
    i
}

/// The total weight counted from the front.
proof fn lemma_total_weight_first(es: Seq<EntryM>)
    requires
        es.len() > 0,
    ensures
        total_weight(es) == es[0].weight + total_weight(es.drop_first()),
    decreases es.len(),
{
    if es.len() > 1 {
        lemma_total_weight_first(es.drop_last());
        assert(es.drop_last().drop_first() =~= es.drop_first().drop_last());
    } else {
        assert(es.drop_first() =~= Seq::<EntryM>::empty());
        assert(es.drop_last() =~= Seq::<EntryM>::empty());
    }
}

proof fn lemma_total_weight_suffix(es: Seq<EntryM>, i: int)
    requires
        0 <= i <= es.len(),
    ensures
        total_weight(es.skip(i)) <= total_weight(es),
    decreases i,
{
    if i > 0 {
        lemma_total_weight_suffix(es, i - 1);
        lemma_total_weight_first(es.skip(i - 1));
        assert(es.skip(i - 1).drop_first() =~= es.skip(i));
    } else {
        assert(es.skip(0) =~= es);
    }
}

/// The total weight of a category's entries.
fn total_of(es_exec: &Vec<crate::model::Entry>) -> (t: u128)
    ensures
        t == total_weight(crate::model::entries_view(es_exec@)),
{
    let ghost es = crate::model::entries_view(es_exec@);
    let mut t: u128 = 0;
    let mut i: usize = 0;
    assert(es.take(0) =~= Seq::<EntryM>::empty());
    while i < es_exec.len()
        invariant
            es == crate::model::entries_view(es_exec@),
            i <= es_exec.len(),
            t == total_weight(es.take(i as int)),
            t <= i * 0xffff_ffff,
        decreases es_exec.len() - i,
    {
        assert(es.take(i + 1).drop_last() =~= es.take(i as int));
        assert(t + es_exec[i as int].weight <= (i + 1) * 0xffff_ffff) by (nonlinear_arith)
            requires
                t <= i * 0xffff_ffff,
                es_exec[i as int].weight <= 0xffff_ffff,
        ;
        assert((i + 1) * 0xffff_ffff <= 0x1_0000_0000_0000_0000 * 0xffff_ffff) by (nonlinear_arith)
            requires
                i < 0x1_0000_0000_0000_0000,
        ;
        t = t + es_exec[i].weight as u128;
        i = i + 1;
    }
    assert(es.take(es_exec.len() as int) =~= es);
    t
}


fn message_with(before: &str, name: &str, after: &str) -> (m: String)
    ensures
        m@ == before@ + name@ + after@,
{
    let mut v: Vec<char> = Vec::new();
    push_str(&mut v, before);
    push_str(&mut v, name);
    push_str(&mut v, after);
    assert(v@ =~= before@ + name@ + after@);
    string_of(&v)
}

/// Expands `category` at nesting `depth`, as `expand_spec` describes.
fn expand(doc: &Document, category: &str, rng: &mut Rng, depth: u32) -> (r: Result<Vec<char>, String>)
    requires
        depth <= 65,
    ensures
        outcome_is(r, final(rng)@, expand_spec(doc@, category@, old(rng)@, depth as int)),
    decreases 65 - depth, 1int, 0int,
{
    if depth > MAX_DEPTH {
        return Err(
            message_with(
                "recursion limit exceeded expanding '{",
                category,
                "}'; check for a reference cycle",
            ),
        );
    }
    let i = match doc.find_index(category) {
        Some(i) => i,
        None => {
            return Err(message_with("category '", category, "' is not defined"));
        },
    };
    proof {
        lemma_find_category(doc@.categories, category@);
    }
    let entries = &doc.categories[i].1;
    let ghost es = doc@.categories[i as int].entries;
    assert(es == crate::model::entries_view(entries@));
    if entries.len() == 0 {
        return Err(message_with("category '", category, "' has no entries to sample"));
    }
    let total = total_of(entries);
    if total == 0 || total > 0xffff_ffff {
        return Err(
            message_with("category '", category, "' has a total weight of 0 or more than 4294967295"),
        );
    }
    let pick = rng.below(total as u32);
    let k = pick_entry(entries, pick);
    let text = chars_of(entries[k].text.as_str());
    assert(es[k as int].text == text@);
    render(doc, &text, rng, depth)
}

/// Renders an entry text at nesting `depth`, as `render_spec` describes.
fn render(doc: &Document, text: &Vec<char>, rng: &mut Rng, depth: u32) -> (r: Result<Vec<char>, String>)
    ensures
        outcome_is(r, final(rng)@, render_spec(doc@, segments(text@), old(rng)@, depth as int)),
    decreases 65 - depth, 0int, 0int,
{
    let ghost st0 = rng@;
    let ghost d = doc@;
    let mut out: Vec<char> = Vec::new();
    let mut i: usize = 0;
    proof {
        assert(text@.skip(0) =~= text@);
        lemma_prepend_empty(render_spec(d, segments(text@), st0, depth as int));
    }
    loop
        invariant
            d == doc@,
            i <= text.len(),
            st0 == old(rng)@,
            render_spec(d, segments(text@), st0, depth as int) == prepend(
                out@,
                render_spec(d, segments(text@.skip(i as int)), rng@, depth as int),
            ),
        decreases text.len() - i,
    {
        if i == text.len() {
            proof {
                assert(text@.skip(i as int) =~= Seq::<char>::empty());
                assert(out@ + Seq::<char>::empty() =~= out@);
            }
            return Ok(out);
        }
        let (brace, a, b, next) = next_segment(text, i);
        let ghost segs = segments(text@.skip(i as int));
        let ghost rest = segments(text@.skip(next as int));
        proof {
            lemma_segments_step(text@, i as int, next - i);
            assert(segs.drop_first() =~= rest);
            assert(segs[0] == segment_at(text@, brace, a as int, b as int));
        }
        let piece = slice_chars(text, a, b);
        let ghost before = out@;
        let ghost st = rng@;
        if !brace {
            append_chars(&mut out, &piece);
            proof {
                assert(render_spec(d, segs, st, depth as int) == prepend(
                    piece@,
                    render_spec(d, rest, st, depth as int),
                ));
                lemma_prepend_prepend(before, piece@, render_spec(d, rest, st, depth as int));
            }
        } else {
            let name = string_of(&piece);
            if is_ident_range(text, a, b) && doc.has_category(name.as_str()) {
                if depth >= MAX_DEPTH {
                    let e = message_with(
                        "recursion limit exceeded expanding '{",
                        name.as_str(),
                        "}'; check for a reference cycle",
                    );
                    proof {
                        assert(render_spec(d, segs, st, depth as int).0 == Err::<Seq<char>, Seq<char>>(e@));
                    }
                    return Err(e);
                }
                match expand(doc, name.as_str(), rng, depth + 1) {
                    Ok(x) => {
                        append_chars(&mut out, &x);
                        proof {
                            assert(render_spec(d, segs, st, depth as int) == prepend(
                                x@,
                                render_spec(d, rest, rng@, depth as int),
                            ));
                            lemma_prepend_prepend(before, x@, render_spec(d, rest, rng@, depth as int));
                        }
                    },
                    Err(e) => {
                        proof {
                            assert(render_spec(d, segs, st, depth as int).0 == Err::<Seq<char>, Seq<char>>(e@));
                        }
                        return Err(e);
                    },
                }
            } else {
                out.push('{');
                append_chars(&mut out, &piece);
                out.push('}');
                proof {
                    assert(out@ =~= before + (seq!['{'] + piece@ + seq!['}']));
                    assert(render_spec(d, segs, st, depth as int) == prepend(
                        seq!['{'] + piece@ + seq!['}'],
                        render_spec(d, rest, st, depth as int),
                    ));
                    lemma_prepend_prepend(
                        before,
                        seq!['{'] + piece@ + seq!['}'],
                        render_spec(d, rest, st, depth as int),
                    );
                }
            }
        }
        i = next;
    }
}

/// Samples the document's start category, as `sample_spec` describes. Fails
/// when there is no start category, a referenced category is missing, a
/// category reached has no entries or weights that sum to 0 or past
/// `u32::MAX`, or expansion nests past `MAX_DEPTH`.
pub fn sample(doc: &Document, rng: &mut Rng) -> (r: Result<String, String>)
    ensures
        ({
            let o = sample_spec(doc@, old(rng)@);
            &&& final(rng)@ == o.1
            &&& match o.0 {
                Ok(x) => r matches Ok(s) && s@ == x,
                Err(e) => r matches Err(m) && m@ == e,
            }
        }),
{
    match &doc.start {
        None => Err(String::from_str("document has no start category")),
        Some(start) => match expand(doc, start.as_str(), rng, 0) {
            Ok(v) => Ok(string_of(&v)),
            Err(e) => Err(e),
        },
    }
}


/// The weight of the first `k` entries.
pub open spec fn prefix_weight(es: Seq<EntryM>, k: int) -> nat {
    total_weight(es.take(k))
}

proof fn lemma_pick_from(es: Seq<EntryM>, r: int, i: int)
    requires
        0 <= i <= es.len(),
        0 <= r,
        prefix_weight(es, i) + r < total_weight(es),
    ensures
        i <= pick_from(es, r, i) < es.len(),
        prefix_weight(es, pick_from(es, r, i)) <= prefix_weight(es, i) + r < prefix_weight(
            es,
            pick_from(es, r, i) + 1,
        ),
    decreases es.len() - i,
{
    if i == es.len() {
        assert(es.take(i) =~= es);
    } else if r < es[i].weight {
        assert(es.take(i + 1).drop_last() =~= es.take(i));
    } else {
        assert(es.take(i + 1).drop_last() =~= es.take(i));
        lemma_pick_from(es, r - es[i].weight, i + 1);
    }
}

/// Weighted picking: a draw `r` below the total weight selects the entry
/// whose run of values holds `r`, where the runs of the entries lie one after
/// another in entry order and each is as long as the entry's weight.
pub proof fn lemma_pick_selects_run(es: Seq<EntryM>, r: int)
    requires
        0 <= r < total_weight(es),
    ensures
        0 <= pick_from(es, r, 0) < es.len(),
        prefix_weight(es, pick_from(es, r, 0)) <= r < prefix_weight(es, pick_from(es, r, 0)) + es[pick_from(es, r, 0)].weight,
{
    assert(es.take(0) =~= Seq::<EntryM>::empty());
    lemma_pick_from(es, r, 0);
    let k = pick_from(es, r, 0);
    assert(es.take(k + 1).drop_last() =~= es.take(k));
}

/// The text of an expansion is the rendering of the entry that the draw
/// selects: expanding a defined category with entries at a depth within the
/// limit draws once and renders exactly one of that category's entries.
pub proof fn lemma_expand_picks_entry(d: DocM, cat: Seq<char>, st: u64, depth: int)
    requires
        0 <= depth <= 64,
        has_name(d.categories, cat),
    ensures
        ({
            let i = find_category(d.categories, cat)->0;
            let es = d.categories[i].entries;
            total_fits(es) ==> {
                let k = pick_from(es, (draw(st) % (total_weight(es) as u64)) as int, 0);
                &&& 0 <= k < es.len()
                &&& expand_spec(d, cat, st, depth) == render_spec(d, segments(es[k].text), next_state(st), depth)
            }
        }),
{
    lemma_find_category(d.categories, cat);
    let i = find_category(d.categories, cat)->0;
    let es = d.categories[i].entries;
    if total_fits(es) {
        lemma_pick_selects_run(es, (draw(st) % (total_weight(es) as u64)) as int);
    }
}


/// Whether some segment is a `{name}` of a defined category.
pub open spec fn has_defined_ref(d: DocM, segs: Seq<Segment>) -> bool {
    exists|k: int|
        0 <= k < segs.len() && (#[trigger] segs[k] matches Segment::Brace(n) && is_ident(n)
            && has_name(d.categories, n))
}

/// Whether every entry of every category refers to some defined category, so
/// that no expansion can ever end in plain text.
pub open spec fn no_terminal_entry(d: DocM) -> bool {
    forall|c: int, e: int|
        0 <= c < d.categories.len() && 0 <= e < d.categories[c].entries.len() ==> has_defined_ref(
            d,
            segments(#[trigger] d.categories[c].entries[e].text),
        )
}

proof fn lemma_expand_fails(d: DocM, cat: Seq<char>, st: u64, depth: int)
    requires
        no_terminal_entry(d),
        0 <= depth,
    ensures
        expand_spec(d, cat, st, depth).0 is Err,
    decreases 65 - depth, 1int, 0int,
{
    if depth <= 64 {
        lemma_find_category(d.categories, cat);
        if let Some(i) = find_category(d.categories, cat) {
            let es = d.categories[i].entries;
            if es.len() > 0 && total_fits(es) {
                let r = (draw(st) % (total_weight(es) as u64)) as int;
                lemma_pick_selects_run(es, r);
                let k = pick_from(es, r, 0);
                assert(has_defined_ref(d, segments(d.categories[i].entries[k].text)));
                lemma_render_fails(d, segments(es[k].text), next_state(st), depth);
            }
        }
    }
}

proof fn lemma_render_fails(d: DocM, segs: Seq<Segment>, st: u64, depth: int)
    requires
        no_terminal_entry(d),
        0 <= depth,
        has_defined_ref(d, segs),
    ensures
        render_spec(d, segs, st, depth).0 is Err,
    decreases 65 - depth, 0int, segs.len(),
{
    let k = choose|k: int|
        0 <= k < segs.len() && (#[trigger] segs[k] matches Segment::Brace(n) && is_ident(n)
            && has_name(d.categories, n));
    let rest = segs.drop_first();
    if k > 0 {
        assert(rest[k - 1] == segs[k]);
        assert(has_defined_ref(d, rest));
    }
    match segs[0] {
        Segment::Lit(t) => {
            lemma_render_fails(d, rest, st, depth);
        },
        Segment::Brace(n) => {
            if is_ident(n) && has_name(d.categories, n) {
                if depth < 64 {
                    lemma_expand_fails(d, n, st, depth + 1);
                }
            } else {
                lemma_render_fails(d, rest, st, depth);
            }
        },
    }
}

/// Reference cycles are rejected: when every entry of every category refers
/// to some defined category, no expansion can end in plain text, and
/// sampling fails at the depth limit instead of running forever.
pub proof fn lemma_cyclic_grammar_fails(d: DocM, st: u64)
    requires
        no_terminal_entry(d),
    ensures
        sample_spec(d, st).0 is Err,
{
    if let Some(s) = d.start {
        lemma_expand_fails(d, s, st, 0);
    }
}


/// The text of a segment as written.
pub open spec fn segment_text(g: Segment) -> Seq<char> {
    match g {
        Segment::Lit(t) => t,
        Segment::Brace(n) => seq!['{'] + n + seq!['}'],
    }
}

/// The text of `segs` as written: literal text, and `{...}` groups with their braces.
pub open spec fn segments_text(segs: Seq<Segment>) -> Seq<char>
    decreases segs.len(),
{
    if segs.len() == 0 {
        seq![]
    } else {
        segment_text(segs[0]) + segments_text(segs.drop_first())
    }
}

proof fn lemma_render_literal(d: DocM, segs: Seq<Segment>, st: u64, depth: int)
    requires
        forall|k: int| 0 <= k < segment_names(segs).len() ==> !has_name(d.categories, #[trigger] segment_names(segs)[k]),
    ensures
        render_spec(d, segs, st, depth) == (Ok::<Seq<char>, Seq<char>>(segments_text(segs)), st),
    decreases segs.len(),
{
    if segs.len() > 0 {
        let rest = segs.drop_first();
        let names = segment_names(segs);
        let rest_names = segment_names(rest);
        match segs[0] {
            Segment::Brace(n) => {
                if is_ident(n) {
                    assert(names == seq![n] + rest_names);
                    assert(names[0] == n);
                    assert forall|k: int| 0 <= k < rest_names.len() implies !has_name(
                        d.categories,
                        #[trigger] rest_names[k],
                    ) by {
                        assert(names[k + 1] == rest_names[k]);
                    }
                }
            },
            Segment::Lit(_) => {},
        }
        lemma_render_literal(d, rest, st, depth);
    }
}

/// Rendering and `placeholders` agree on what a placeholder is: a text none of
/// whose placeholders names a defined category renders as it is written (its
/// `\{`/`\}` escapes undone) at any nesting depth, and draws nothing from
/// the generator.
pub proof fn lemma_render_without_defined_placeholders(d: DocM, text: Seq<char>, st: u64, depth: int)
    requires
        forall|k: int|
            0 <= k < placeholder_names(text).len() ==> !has_name(
                d.categories,
                #[trigger] placeholder_names(text)[k],
            ),
    ensures
        render_spec(d, segments(text), st, depth) == (Ok::<Seq<char>, Seq<char>>(
            segments_text(segments(text)),
        ), st),
{
    let segs = segments(text);
    assert forall|k: int| 0 <= k < segment_names(segs).len() implies !has_name(
        d.categories,
        #[trigger] segment_names(segs)[k],
    ) by {
        assert(placeholder_names(text)[k] == segment_names(segs)[k]);
    }
    lemma_render_literal(d, segs, st, depth);
}


/// A `{name}` of a defined category, rendered at a depth below the limit, is
/// the expansion of that category one level deeper, followed by the rest.
pub proof fn lemma_render_defined_placeholder(d: DocM, name: Seq<char>, rest: Seq<Segment>, st: u64, depth: int)
    requires
        0 <= depth < 64,
        is_ident(name),
        has_name(d.categories, name),
    ensures
        render_spec(d, seq![Segment::Brace(name)] + rest, st, depth) == (match expand_spec(
            d,
            name,
            st,
            depth + 1,
        ) {
            (Err(e), s1) => (Err(e), s1),
            (Ok(x), s1) => prepend(x, render_spec(d, rest, s1, depth)),
        }),
{
    let segs = seq![Segment::Brace(name)] + rest;
    assert(segs[0] == Segment::Brace(name));
    assert(segs.drop_first() =~= rest);
}

/// Whether category `cat` is defined, can be picked from, and its entries'
/// placeholders of defined categories nest at most `k` levels below it.
pub open spec fn nests_within(d: DocM, cat: Seq<char>, k: nat) -> bool
    decreases k,
{
    match find_category(d.categories, cat) {
        None => false,
        Some(i) => {
            let es = d.categories[i].entries;
            &&& es.len() > 0
            &&& total_fits(es)
            &&& forall|e: int, j: int|
                0 <= e < es.len() && 0 <= j < segments(es[e].text).len() ==> (
                #[trigger] segments(es[e].text)[j] matches Segment::Brace(n) ==> (is_ident(n) && has_name(d.categories, n) ==> k > 0
                && nests_within(d, n, (k - 1) as nat)))
        },
    }
}

/// Whether every `{name}` of a defined category among `segs` nests at most
/// `k - 1` further levels, with `k` at least 1.
pub open spec fn segs_nest_within(d: DocM, segs: Seq<Segment>, k: nat) -> bool {
    forall|j: int|
        0 <= j < segs.len() ==> (#[trigger] segs[j] matches Segment::Brace(n) ==> (is_ident(n) && has_name(d.categories, n) ==> k > 0
                && nests_within(d, n, (k - 1) as nat)))
}

proof fn lemma_expand_within(d: DocM, cat: Seq<char>, st: u64, depth: int, k: nat)
    requires
        nests_within(d, cat, k),
        0 <= depth,
        depth + k <= 64,
    ensures
        expand_spec(d, cat, st, depth).0 is Ok,
    decreases k, 1int, 0int,
{
    lemma_find_category(d.categories, cat);
    let i = find_category(d.categories, cat)->0;
    let es = d.categories[i].entries;
    let r = (draw(st) % (total_weight(es) as u64)) as int;
    lemma_pick_selects_run(es, r);
    let x = pick_from(es, r, 0);
    let segs = segments(es[x].text);
    assert forall|j: int| 0 <= j < segs.len() implies (#[trigger] segs[j] matches Segment::Brace(n) ==> (is_ident(n) && has_name(d.categories, n) ==> k > 0
                && nests_within(d, n, (k - 1) as nat))) by {
        assert(segments(es[x].text)[j] == segs[j]);
    }
    lemma_render_within(d, segs, next_state(st), depth, k);
}

proof fn lemma_render_within(d: DocM, segs: Seq<Segment>, st: u64, depth: int, k: nat)
    requires
        segs_nest_within(d, segs, k),
        0 <= depth,
        depth + k <= 64,
    ensures
        render_spec(d, segs, st, depth).0 is Ok,
    decreases k, 0int, segs.len(),
{
    if segs.len() > 0 {
        let rest = segs.drop_first();
        assert forall|j: int| 0 <= j < rest.len() implies (#[trigger] rest[j] matches Segment::Brace(n) ==> (is_ident(n) && has_name(d.categories, n) ==> k > 0
                && nests_within(d, n, (k - 1) as nat))) by {
            assert(rest[j] == segs[j + 1]);
        }
        match segs[0] {
            Segment::Lit(t) => {
                lemma_render_within(d, rest, st, depth, k);
            },
            Segment::Brace(n) => {
                if is_ident(n) && has_name(d.categories, n) {
                    assert(k > 0 && nests_within(d, n, (k - 1) as nat));
                    lemma_expand_within(d, n, st, depth + 1, (k - 1) as nat);
                    let r1 = expand_spec(d, n, st, depth + 1);
                    lemma_render_within(d, rest, r1.1, depth, k);
                } else {
                    lemma_render_within(d, rest, st, depth, k);
                }
            },
        }
    }
}

/// Placeholders nest freely up to the depth limit: when the start category's
/// placeholders nest at most 64 levels, with every category reached defined,
/// non-empty and pickable, sampling gives a name and never a recursion error.
pub proof fn lemma_bounded_nesting_samples(d: DocM, st: u64, k: nat)
    requires
        d.start matches Some(s) && nests_within(d, s, k),
        k <= 64,
    ensures
        sample_spec(d, st).0 is Ok,
{
    lemma_expand_within(d, d.start->0, st, 0, k);
}

} // verus!
