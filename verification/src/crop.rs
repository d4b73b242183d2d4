//! Cropping a text around a match without cutting a word in two.

use vstd::prelude::*;
use vstd::relations::total_ordering;
use vstd::seq_lib::lemma_sorted_unique;
use indexmap::IndexMap;
use serde_json::Value;
use crate::document::{
    document_entries, document_insert, document_text, entries_with, entry_names, field_text,
    json_string, text_value,
};
use crate::highlight::Highlight;
use crate::names::NameMap;
use crate::schema::Schema;
use crate::sequences::{ascending, lemma_ascending_sorted_by, lemma_insert_ascending};
use crate::text::{chars_of, cjk, is_word_component, string_of, whitespace, word_component};

verus! {

/// The number of word components that `text` holds in a row from `from` on.
pub open spec fn word_run(text: Seq<char>, from: int) -> nat
    decreases text.len() - from,
{
    if 0 <= from < text.len() && word_component(text[from]) {
        1 + word_run(text, from + 1)
    } else {
        0
    }
}

/// `index`, moved to the end of the word it cuts: where the character before
/// `index` is a word component, the word components from `index` on are
/// passed over.
pub open spec fn word_end(text: Seq<char>, index: int) -> int {
    if 0 < index <= text.len() && word_component(text[index - 1]) {
        index + word_run(text, index)
    } else {
        index
    }
}

/// Where the crop window around `match_index` starts: at the match without
/// context; else `context` characters before it, or at the end of the word
/// that this would cut, and no earlier than the start of the text.
pub open spec fn crop_start(text: Seq<char>, match_index: int, context: int) -> int {
    if context == 0 {
        match_index
    } else if match_index <= context {
        0
    } else {
        word_end(text, match_index - context)
    }
}

/// Where the crop window around `match_index` ends (exclusive). Without
/// context the window holds the word components from the match on and one
/// character more; else it ends `2 * context` characters after its start, or
/// at the end of the word that this would cut.
pub open spec fn crop_end(text: Seq<char>, match_index: int, context: int) -> int {
    if context == 0 {
        match_index + 1 + word_run(text, match_index)
    } else {
        word_end(text, crop_start(text, match_index, context) + 2 * context)
    }
}

/// Whether the window can be told in machine integers: without context its
/// length fits in `usize`, with context its end does.
pub open spec fn window_fits(text: Seq<char>, match_index: int, context: int) -> bool {
    if context == 0 {
        1 + word_run(text, match_index) <= usize::MAX
    } else {
        crop_end(text, match_index, context) <= usize::MAX
    }
}

/// The length of the window as `aligned_crop` tells it: the window's length
/// where the window fits, else as much of it as machine integers can tell.
pub open spec fn window_length(text: Seq<char>, match_index: int, context: int) -> int {
    if context == 0 {
        clip(1 + word_run(text, match_index) as int, usize::MAX as int)
    } else {
        clip(crop_end(text, match_index, context), usize::MAX as int) - crop_start(
            text,
            match_index,
            context,
        )
    }
}

/// The first index in `lo..hi` that holds no whitespace, or `hi`.
pub open spec fn trim_start(text: Seq<char>, lo: int, hi: int) -> int
    decreases hi - lo,
{
    if lo < hi && whitespace(text[lo]) {
        trim_start(text, lo + 1, hi)
    } else {
        lo
    }
}

/// The end of the last run in `lo..hi` that ends in no whitespace, or `lo`.
pub open spec fn trim_end(text: Seq<char>, lo: int, hi: int) -> int
    decreases hi - lo,
{
    if lo < hi && whitespace(text[hi - 1]) {
        trim_end(text, lo, hi - 1)
    } else {
        hi
    }
}

/// `text[lo..hi]` without the whitespace at its two ends.
pub open spec fn trimmed_range(text: Seq<char>, lo: int, hi: int) -> Seq<char> {
    let from = trim_start(text, lo, hi);
    text.subrange(from, trim_end(text, from, hi))
}

/// `bound`, held within `0..=len`.
pub open spec fn clip(bound: int, len: int) -> int {
    if bound < 0 {
        0
    } else if bound > len {
        len
    } else {
        bound
    }
}

/// The index that anchors the crop: that of the first match, or 0.
pub open spec fn crop_anchor(matches: Seq<Highlight>) -> int {
    if matches.len() > 0 {
        matches[0].char_index as int
    } else {
        0
    }
}

/// The text that `crop_text` keeps: the window around `anchor`, as far as the
/// text reaches, trimmed.
pub open spec fn cropped_text(text: Seq<char>, anchor: int, context: int) -> Seq<char> {
    trimmed_range(
        text,
        clip(crop_start(text, anchor, context), text.len() as int),
        clip(crop_end(text, anchor, context), text.len() as int),
    )
}

/// Whether the span of `m` lies within `start..end`.
pub open spec fn inside_window(m: Highlight, start: int, end: int) -> bool {
    start <= m.char_index && m.char_index + m.char_length <= end
}

/// The matches that lie within `start..end`.
pub open spec fn within(start: int, end: int) -> spec_fn(Highlight) -> bool {
    |m: Highlight| inside_window(m, start, end)
}

/// `m`, counted from `start` instead of from the start of the field.
pub open spec fn shifted(m: Highlight, start: int) -> Highlight {
    Highlight {
        attribute: m.attribute,
        char_index: (m.char_index - start) as u16,
        char_length: m.char_length,
    }
}

/// Moves a match to where it stands in a text cropped at `start`.
pub open spec fn shift_by(start: int) -> spec_fn(Highlight) -> Highlight {
    |m: Highlight| shifted(m, start)
}

/// The matches that `crop_text` keeps: those within the window around the first
/// match, in their order, counted from the window's start.
pub open spec fn cropped_matches(text: Seq<char>, matches: Seq<Highlight>, context: int) -> Seq<
    Highlight,
> {
    let start = crop_start(text, crop_anchor(matches), context);
    let end = crop_end(text, crop_anchor(matches), context);
    matches.filter(within(start, end)).map_values(shift_by(start))
}

/// A word ends no earlier than the index that cuts it, and within the text
/// where it ends later.
pub proof fn lemma_word_end_bounds(text: Seq<char>, index: int)
    ensures
        index <= word_end(text, index),
        word_end(text, index) <= index || word_end(text, index) <= text.len(),
{
    lemma_word_run_bounds(text, index);
}

/// A run of word components ends within the text.
pub proof fn lemma_word_run_bounds(text: Seq<char>, from: int)
    ensures
        0 <= from <= text.len() ==> from + word_run(text, from) <= text.len(),
        from < 0 || from >= text.len() ==> word_run(text, from) == 0,
    decreases text.len() - from,
{
    if 0 <= from < text.len() && word_component(text[from]) {
        lemma_word_run_bounds(text, from + 1);
    }
}

/// A CJK character stands alone: it starts no run of word components, and an
/// end that falls behind it is not moved.
pub proof fn lemma_cjk_stands_alone(text: Seq<char>, index: int)
    requires
        0 <= index < text.len(),
        cjk(text[index]),
    ensures
        word_run(text, index) == 0,
        word_end(text, index + 1) == index + 1,
{
}

/// Without context the window starts at the match and holds at least one
/// character, whatever the text.
pub proof fn lemma_window_without_context(text: Seq<char>, match_index: int)
    ensures
        crop_start(text, match_index, 0) == match_index,
        crop_end(text, match_index, 0) - crop_start(text, match_index, 0) >= 1,
{
}

/// With context the window spans at least twice the context, and it starts no
/// later than the match unless the word before the match runs into it.
pub proof fn lemma_window_with_context(text: Seq<char>, match_index: int, context: int)
    requires
        0 <= match_index,
        0 < context,
    ensures
        0 <= crop_start(text, match_index, context),
        crop_start(text, match_index, context) + 2 * context <= crop_end(
            text,
            match_index,
            context,
        ),
        crop_start(text, match_index, context) <= match_index || crop_start(
            text,
            match_index,
            context,
        ) <= text.len(),
{
    lemma_word_end_bounds(text, match_index - context);
    lemma_word_end_bounds(text, crop_start(text, match_index, context) + 2 * context);
}

/// With context the window never cuts a word: neither of its ends stands
/// between two word components.
pub proof fn lemma_window_keeps_words_whole(text: Seq<char>, match_index: int, context: int)
    requires
        0 <= match_index,
        0 < context,
    ensures
        ({
            let start = crop_start(text, match_index, context);
            0 < start < text.len() ==> !(word_component(text[start - 1]) && word_component(
                text[start],
            ))
        }),
        ({
            let end = crop_end(text, match_index, context);
            0 < end < text.len() ==> !(word_component(text[end - 1]) && word_component(text[end]))
        }),
{
    let n = match_index - context;
    lemma_word_run_stops(text, n);
    let start = crop_start(text, match_index, context);
    lemma_word_end_bounds(text, n);
    lemma_word_run_stops(text, start + 2 * context);
    lemma_word_end_bounds(text, start + 2 * context);
}

/// The character after a run of word components is none.
pub proof fn lemma_word_run_stops(text: Seq<char>, from: int)
    ensures
        ({
            let stop = from + word_run(text, from);
            0 <= from && stop < text.len() ==> !word_component(text[stop])
        }),
    decreases text.len() - from,
{
    if 0 <= from < text.len() && word_component(text[from]) {
        lemma_word_run_stops(text, from + 1);
    }
}

fn word_run_len(chars: &Vec<char>, from: usize) -> (n: usize)
    ensures
        n == word_run(chars@, from as int),
        from <= chars.len() ==> from + n <= chars.len(),
{
    if from >= chars.len() {
        return 0;
    }
    let mut i: usize = from;
    while i < chars.len() && is_word_component(chars[i])
        invariant
            from <= i <= chars.len(),
            word_run(chars@, from as int) == (i - from) + word_run(chars@, i as int),
        decreases chars.len() - i,
    {
        i += 1;
    }
    i - from
}

fn word_end_index(chars: &Vec<char>, index: usize) -> (end: usize)
    requires
        index >= 1,
    ensures
        end == word_end(chars@, index as int),
{
    if index <= chars.len() && is_word_component(chars[index - 1]) {
        index + word_run_len(chars, index)
    } else {
        index
    }
}

/// The window around `match_index`, its end held within `usize`.
fn crop_bounds(chars: &Vec<char>, match_index: usize, context: usize) -> (bounds: (usize, usize))
    ensures
        bounds.0 == crop_start(chars@, match_index as int, context as int),
        bounds.1 == clip(crop_end(chars@, match_index as int, context as int), usize::MAX as int),
        bounds.0 <= bounds.1,
{
    if context == 0 {
        let run = word_run_len(chars, match_index);
        let end = if match_index < usize::MAX && run <= usize::MAX - match_index - 1 {
            match_index + 1 + run
        } else {
            usize::MAX
        };
        (match_index, end)
    } else {
        let start = if match_index <= context {
            0
        } else {
            word_end_index(chars, match_index - context)
        };
        proof {
            lemma_word_end_bounds(chars@, match_index - context);
            lemma_word_end_bounds(chars@, start + 2 * context);
        }
        let end = if context <= (usize::MAX - start) / 2 {
            word_end_index(chars, start + 2 * context)
        } else {
            usize::MAX
        };
        (start, end)
    }
}

/// The crop window around the match at `match_index`, as its start and its
/// length in characters.
///
/// Without context the window is the matched token: the word components from
/// the match on and one character more, so that it is never empty. With
/// context it reaches `context` characters before the match and `2 * context`
/// from there on, each end moved forward to the end of the word it would cut.
pub fn aligned_crop(text: &str, match_index: usize, context: usize) -> (window: (usize, usize))
    ensures
        window.0 == crop_start(text@, match_index as int, context as int),
        window.1 == window_length(text@, match_index as int, context as int),
        window_fits(text@, match_index as int, context as int) ==> window.1 == crop_end(
            text@,
            match_index as int,
            context as int,
        ) - crop_start(text@, match_index as int, context as int),
        context == 0 ==> window.0 == match_index && window.1 >= 1,
{
    let chars = chars_of(text);
    if context == 0 {
        let run = word_run_len(&chars, match_index);
        let length = if run < usize::MAX {
            run + 1
        } else {
            usize::MAX
        };
        (match_index, length)
    } else {
        let (start, end) = crop_bounds(&chars, match_index, context);
        (start, end - start)
    }
}

/// The bounds of `chars[lo..hi]` without the whitespace at its ends.
fn trim_bounds(chars: &Vec<char>, lo: usize, hi: usize) -> (bounds: (usize, usize))
    requires
        lo <= hi <= chars.len(),
    ensures
        lo <= bounds.0 <= bounds.1 <= hi,
        bounds.0 == trim_start(chars@, lo as int, hi as int),
        bounds.1 == trim_end(chars@, bounds.0 as int, hi as int),
{
    let mut from: usize = lo;
    while from < hi && chars[from].is_whitespace()
        invariant
            lo <= from <= hi <= chars.len(),
            trim_start(chars@, lo as int, hi as int) == trim_start(chars@, from as int, hi as int),
        decreases hi - from,
    {
        from += 1;
    }
    let mut to: usize = hi;
    while from < to && chars[to - 1].is_whitespace()
        invariant
            from <= to <= hi <= chars.len(),
            trim_end(chars@, from as int, hi as int) == trim_end(chars@, from as int, to as int),
        decreases to - from,
    {
        to -= 1;
    }
    (from, to)
}

/// Crops `text` around its first match and keeps the matches that the window
/// holds.
///
/// The window is that of `aligned_crop` around the first match's index (around
/// 0 without matches). The text returned is the window's part of `text`,
/// trimmed. A match is kept where its span lies within the window, and is then
/// counted from the window's start; the others are dropped.
pub fn crop_text(text: &str, matches: &Vec<Highlight>, context: usize) -> (cropped: (
    String,
    Vec<Highlight>,
))
    ensures
        cropped.0@ == cropped_text(text@, crop_anchor(matches@), context as int),
        cropped.1@ == cropped_matches(text@, matches@, context as int),
{
    let chars = chars_of(text);
    let anchor: usize = if matches.len() > 0 {
        matches[0].char_index as usize
    } else {
        0
    };
    let (start, end) = crop_bounds(&chars, anchor, context);
    let len = chars.len();
    let lo = if start < len {
        start
    } else {
        len
    };
    let hi = if end < len {
        end
    } else {
        len
    };
    let (from, to) = trim_bounds(&chars, lo, hi);
    let cropped = string_of(&chars, from, to);

    let ghost keep = within(
        crop_start(text@, anchor as int, context as int),
        crop_end(text@, anchor as int, context as int),
    );
    let ghost shift = shift_by(start as int);
    let mut kept: Vec<Highlight> = Vec::new();
    let mut i: usize = 0;
    proof {
        assert(matches@.take(0) =~= Seq::<Highlight>::empty());
        reveal(Seq::filter);
    }
    while i < matches.len()
        invariant
            i <= matches.len(),
            start == crop_start(text@, anchor as int, context as int),
            end == clip(crop_end(text@, anchor as int, context as int), usize::MAX as int),
            chars@ == text@,
            keep == within(
                crop_start(text@, anchor as int, context as int),
                crop_end(text@, anchor as int, context as int),
            ),
            shift == shift_by(start as int),
            kept@ == matches@.take(i as int).filter(keep).map_values(shift),
        decreases matches.len() - i,
    {
        let m = matches[i];
        let index: usize = m.char_index as usize;
        let length: usize = m.char_length as usize;
        proof {
            assert(matches@.take(i + 1) =~= matches@.take(i as int).push(m));
            matches@.take(i as int).lemma_filter_push(m, keep);
        }
        if start <= index && index + length <= end {
            kept.push(
                Highlight {
                    attribute: m.attribute,
                    char_index: (index - start) as u16,
                    char_length: m.char_length,
                },
            );
            assert(kept@ =~= matches@.take(i + 1).filter(keep).map_values(shift));
        }
        i += 1;
    }
    assert(matches@.take(matches.len() as int) =~= matches@);
    (cropped, kept)
}

/// Whether `a` comes no later than `b`: matches are ordered by their index, then
/// by their length, then by their field.
pub open spec fn no_later(a: Highlight, b: Highlight) -> bool {
    ||| a.char_index < b.char_index
    ||| a.char_index == b.char_index && a.char_length < b.char_length
    ||| a.char_index == b.char_index && a.char_length == b.char_length && a.attribute
        <= b.attribute
}

/// The order in which `crop_document` leaves the matches.
pub open spec fn match_order() -> spec_fn(Highlight, Highlight) -> bool {
    |a: Highlight, b: Highlight| no_later(a, b)
}

/// `matches` in match order.
pub open spec fn sorted_matches(matches: Seq<Highlight>) -> Seq<Highlight> {
    matches.sort_by(match_order())
}

/// The matches in the field numbered `attribute`.
pub open spec fn in_field(attribute: u16) -> spec_fn(Highlight) -> bool {
    |m: Highlight| m.attribute == attribute
}

/// The matches in other fields than the one numbered `attribute`.
pub open spec fn outside_field(attribute: u16) -> spec_fn(Highlight) -> bool {
    |m: Highlight| m.attribute != attribute
}

/// A document's entries and its matches after the field `name` was cropped to
/// the context `length`.
///
/// Where the schema knows the field and the document holds text for it, the
/// text is cropped around the first match in that field, and the field's
/// matches are replaced by those that the crop keeps, which go to the end.
/// Otherwise nothing changes.
pub open spec fn crop_field(
    entries: Seq<(Seq<char>, Value)>,
    matches: Seq<Highlight>,
    schema: &Schema,
    name: Seq<char>,
    length: int,
) -> (Seq<(Seq<char>, Value)>, Seq<Highlight>) {
    match (schema.field_id(name), field_text(entries, name)) {
        (Some(id), Some(text)) => {
            let selected = matches.filter(in_field(id.0));
            (
                entries_with(
                    entries,
                    name,
                    json_string(cropped_text(text, crop_anchor(selected), length)),
                ),
                matches.filter(outside_field(id.0)) + cropped_matches(text, selected, length),
            )
        },
        _ => (entries, matches),
    }
}

/// A document's entries and its matches after the first `n` of the fields
/// `names` were cropped in turn, each to its context in `lengths`.
pub open spec fn crop_fields(
    entries: Seq<(Seq<char>, Value)>,
    matches: Seq<Highlight>,
    schema: &Schema,
    names: Seq<Seq<char>>,
    lengths: Seq<usize>,
    n: int,
) -> (Seq<(Seq<char>, Value)>, Seq<Highlight>)
    decreases n,
{
    if n <= 0 {
        (entries, matches)
    } else {
        let (cropped, kept) = crop_fields(entries, matches, schema, names, lengths, n - 1);
        crop_field(cropped, kept, schema, names[n - 1], lengths[n - 1] as int)
    }
}

/// Cropping a field keeps the fields of a document and their order.
pub proof fn lemma_crop_field_keeps_names(
    entries: Seq<(Seq<char>, Value)>,
    matches: Seq<Highlight>,
    schema: &Schema,
    name: Seq<char>,
    length: int,
)
    ensures
        entry_names(crop_field(entries, matches, schema, name, length).0) == entry_names(entries),
{
    if schema.field_id(name) is Some && field_text(entries, name) is Some {
        let names = entry_names(entries);
        let at = names.index_of(name);
        assert(names[at] == name);
        assert(entry_names(crop_field(entries, matches, schema, name, length).0) =~= names);
    }
}

/// Cropping keeps the fields of a document and their order, whatever the
/// fields asked for.
pub proof fn lemma_crop_keeps_names(
    entries: Seq<(Seq<char>, Value)>,
    matches: Seq<Highlight>,
    schema: &Schema,
    names: Seq<Seq<char>>,
    lengths: Seq<usize>,
    n: int,
)
    ensures
        entry_names(crop_fields(entries, matches, schema, names, lengths, n).0) == entry_names(
            entries,
        ),
    decreases n,
{
    if n > 0 {
        lemma_crop_keeps_names(entries, matches, schema, names, lengths, n - 1);
        let (cropped, kept) = crop_fields(entries, matches, schema, names, lengths, n - 1);
        lemma_crop_field_keeps_names(cropped, kept, schema, names[n - 1], lengths[n - 1] as int);
    }
}

/// Match order is a total order.
pub proof fn lemma_match_order_total()
    ensures
        total_ordering(match_order()),
{
    let order = match_order();
    assert forall|a: Highlight, b: Highlight| #[trigger] order(a, b) && #[trigger] order(b, a) implies a == b by {
    }
}

fn comes_no_later(a: &Highlight, b: &Highlight) -> (r: bool)
    ensures
        r == no_later(*a, *b),
{
    a.char_index < b.char_index || (a.char_index == b.char_index && (a.char_length < b.char_length
        || (a.char_length == b.char_length && a.attribute <= b.attribute)))
}

/// Puts `matches` in match order: by index, then length, then field.
pub fn sort_matches(matches: &mut Vec<Highlight>)
    ensures
        final(matches)@ == sorted_matches(old(matches)@),
{
    let ghost order = match_order();
    let mut sorted: Vec<Highlight> = Vec::new();
    let mut k: usize = 0;
    assert(matches@.take(0) =~= Seq::<Highlight>::empty());
    while k < matches.len()
        invariant
            k <= matches.len(),
            order == match_order(),
            ascending(sorted@, order),
            sorted@.to_multiset() == matches@.take(k as int).to_multiset(),
        decreases matches.len() - k,
    {
        let m = matches[k];
        let mut at: usize = 0;
        while at < sorted.len() && comes_no_later(&sorted[at], &m)
            invariant
                at <= sorted.len(),
                order == match_order(),
                forall|j: int| 0 <= j < at ==> order(#[trigger] sorted@[j], m),
            decreases sorted.len() - at,
        {
            at += 1;
        }
        proof {
            lemma_match_order_total();
            assert forall|j: int| at <= j < sorted.len() implies order(m, #[trigger] sorted@[j]) by {
                assert(order(m, sorted@[at as int]) || order(sorted@[at as int], m));
                if j > at {
                    assert(order(sorted@[at as int], sorted@[j]));
                }
            }
            lemma_insert_ascending(sorted@, at as int, m, order);
            assert(matches@.take(k + 1) =~= matches@.take(k as int).push(m));
            vstd::seq_lib::to_multiset_build(matches@.take(k as int), m);
        }
        sorted.insert(at, m);
        k += 1;
    }
    proof {
        assert(matches@.take(matches.len() as int) =~= matches@);
        lemma_match_order_total();
        matches@.lemma_sort_by_ensures(order);
        lemma_ascending_sorted_by(sorted@, order);
        lemma_sorted_unique(sorted@, matches@.sort_by(order), order);
    }
    *matches = sorted;
}

/// The matches in the field numbered `attribute`, or those in the other
/// fields, in their order.
fn matches_by_field(matches: &Vec<Highlight>, attribute: u16, inside: bool) -> (selected: Vec<
    Highlight,
>)
    ensures
        inside ==> selected@ == matches@.filter(in_field(attribute)),
        !inside ==> selected@ == matches@.filter(outside_field(attribute)),
{
    let ghost keep = if inside {
        in_field(attribute)
    } else {
        outside_field(attribute)
    };
    let mut selected: Vec<Highlight> = Vec::new();
    let mut i: usize = 0;
    proof {
        assert(matches@.take(0) =~= Seq::<Highlight>::empty());
        reveal(Seq::filter);
    }
    while i < matches.len()
        invariant
            i <= matches.len(),
            keep == if inside {
                in_field(attribute)
            } else {
                outside_field(attribute)
            },
            selected@ == matches@.take(i as int).filter(keep),
        decreases matches.len() - i,
    {
        let m = matches[i];
        proof {
            assert(matches@.take(i + 1) =~= matches@.take(i as int).push(m));
            matches@.take(i as int).lemma_filter_push(m, keep);
        }
        if (m.attribute == attribute) == inside {
            selected.push(m);
        }
        i += 1;
    }
    assert(matches@.take(matches.len() as int) =~= matches@);
    selected
}

/// Crops the requested fields of a document and moves its matches along.
///
/// The matches are first put in match order. Then each field of `fields` is
/// taken in turn, with its context: where the schema knows the field and the
/// document holds text for it, the text is replaced by its crop around the
/// field's first match, and the field's matches by those that the crop keeps,
/// counted from the crop's start and moved to the end of the list.
pub fn crop_document(
    document: &mut IndexMap<String, Value>,
    matches: &mut Vec<Highlight>,
    schema: &Schema,
    fields: &NameMap<usize>,
)
    requires
        schema.wf(),
        fields.wf(),
    ensures
        (document_entries(*final(document)), final(matches)@) == crop_fields(
            document_entries(*old(document)),
            sorted_matches(old(matches)@),
            schema,
            fields.names(),
            fields.values(),
            fields.names().len() as int,
        ),
{
    let ghost entries = document_entries(*document);
    sort_matches(matches);
    let ghost sorted = matches@;
    let mut k: usize = 0;
    proof {
        fields.lemma_lengths();
    }
    while k < fields.len()
        invariant
            k <= fields.names().len(),
            fields.names().len() == fields.values().len(),
            schema.wf(),
            (document_entries(*document), matches@) == crop_fields(
                entries,
                sorted,
                schema,
                fields.names(),
                fields.values(),
                k as int,
            ),
        decreases fields.names().len() - k,
    {
        let name = fields.name(k);
        let length: usize = *fields.value(k);
        if let Some(id) = schema.id(name) {
            let selected = matches_by_field(matches, id.0, true);
            let cropped = match document_text(document, name) {
                Some(text) => Some(crop_text(text, &selected, length)),
                None => None,
            };
            if let Some((text, kept)) = cropped {
                let mut kept = kept;
                let mut rest = matches_by_field(matches, id.0, false);
                rest.append(&mut kept);
                document_insert(document, name.to_owned(), text_value(text));
                *matches = rest;
            }
        }
        k += 1;
    }
}

} // verus!
