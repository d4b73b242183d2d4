//! Highlighting: the matched spans of a text, wrapped in emphasis markers.

use vstd::prelude::*;
use indexmap::IndexMap;
use serde_json::Value;
use crate::document::{
    document_clone, document_entries, document_insert, document_text, document_value,
    entries_with, entry_names, field_text, json_string, json_text, text_value,
};
use crate::matches::{
    in_order, increasing, lemma_in_order_of_sorted, lemma_in_order_same, no_later_order,
    positions_by_name, sort_positions, MatchPosition, MatchesInfos,
};
use crate::names::NameSet;
use crate::text::chars_of;

verus! {

/// The marker that opens an emphasised span: `<em>`.
pub open spec fn em_open() -> Seq<char> {
    seq!['<', 'e', 'm', '>']
}

/// The marker that closes an emphasised span: `</em>`.
pub open spec fn em_close() -> Seq<char> {
    seq!['<', '/', 'e', 'm', '>']
}

/// Whether the span at `position` can be marked once the text is written up to
/// `cursor`: it starts no earlier than the cursor and ends within the text.
pub open spec fn markable(text: Seq<char>, cursor: int, position: MatchPosition) -> bool {
    cursor <= position.start && position.start + position.length <= text.len()
}

/// What is written after the spans at `positions` were taken in the order of
/// the list, and how far into `text` it reaches. A span that can be marked adds the text before
/// it and the span between `open` and `close`; any other span adds nothing.
pub open spec fn marked_upto(
    text: Seq<char>,
    positions: Seq<MatchPosition>,
    open: Seq<char>,
    close: Seq<char>,
) -> (Seq<char>, int)
    decreases positions.len(),
{
    if positions.len() == 0 {
        (Seq::empty(), 0)
    } else {
        let (written, cursor) = marked_upto(text, positions.drop_last(), open, close);
        let position = positions.last();
        if markable(text, cursor, position) {
            (
                written + text.subrange(cursor, position.start as int) + open + text.subrange(
                    position.start as int,
                    position.start + position.length,
                ) + close,
                position.start + position.length,
            )
        } else {
            (written, cursor)
        }
    }
}

/// `text` with the spans at `positions`, taken in the order of the list, set
/// between `open` and `close`.
pub open spec fn marked(
    text: Seq<char>,
    positions: Seq<MatchPosition>,
    open: Seq<char>,
    close: Seq<char>,
) -> Seq<char> {
    let (written, cursor) = marked_upto(text, positions, open, close);
    written + text.subrange(cursor, text.len() as int)
}

/// The spans at `positions`, taken in the order of the list, that cannot be
/// marked when their turn comes: `marked_upto` passes them over.
pub open spec fn passed_over(text: Seq<char>, positions: Seq<MatchPosition>) -> Seq<MatchPosition>
    decreases positions.len(),
{
    if positions.len() == 0 {
        Seq::empty()
    } else {
        let before = passed_over(text, positions.drop_last());
        let cursor = marked_upto(text, positions.drop_last(), em_open(), em_close()).1;
        if markable(text, cursor, positions.last()) {
            before
        } else {
            before.push(positions.last())
        }
    }
}

/// The spans at `positions` that highlighting `text` passes over: those that
/// overlap the span marked before them, and those that end beyond the text.
pub open spec fn skipped(text: Seq<char>, positions: Seq<MatchPosition>) -> Seq<MatchPosition> {
    passed_over(text, in_order(positions))
}

/// A span under the name of its field.
pub open spec fn tagged(name: Seq<char>) -> spec_fn(MatchPosition) -> (Seq<char>, MatchPosition) {
    |position: MatchPosition| (name, position)
}

/// The spans that highlighting a document passes over, each under the name of
/// its field, after the first `n` of `names` were taken in turn. A name adds
/// the spans skipped in its text where the document holds text for it and
/// `attributes` holds the name.
pub open spec fn skipped_in(
    entries: Seq<(Seq<char>, Value)>,
    names: Seq<Seq<char>>,
    positions: Map<Seq<char>, Seq<MatchPosition>>,
    attributes: Set<Seq<char>>,
    n: int,
) -> Seq<(Seq<char>, MatchPosition)>
    decreases n,
{
    if n <= 0 {
        Seq::empty()
    } else {
        let before = skipped_in(entries, names, positions, attributes, n - 1);
        let name = names[n - 1];
        match field_text(entries, name) {
            Some(text) => if attributes.contains(name) {
                before + skipped(text, positions[name]).map_values(tagged(name))
            } else {
                before
            },
            None => before,
        }
    }
}

/// Spans under names, with the characters of each name.
pub open spec fn spans_view(spans: Seq<(String, MatchPosition)>) -> Seq<(Seq<char>, MatchPosition)> {
    spans.map_values(|span: (String, MatchPosition)| (span.0@, span.1))
}

/// `text` with the spans at `positions` emphasised. The spans are taken in
/// ascending order of their start, then of their length, each as often as
/// `positions` names it, whatever their order in `positions`.
pub open spec fn highlighted(text: Seq<char>, positions: Seq<MatchPosition>) -> Seq<char> {
    marked(text, in_order(positions), em_open(), em_close())
}

/// The entry that stands for `entry` in a highlighted document: a text field
/// that has matches and is to be highlighted holds its highlighted text; any
/// other entry is unchanged.
pub open spec fn highlighted_entry(
    entry: (Seq<char>, Value),
    matches: Map<Seq<char>, Seq<MatchPosition>>,
    attributes: Set<Seq<char>>,
) -> (Seq<char>, Value) {
    match json_text(entry.1) {
        Some(text) => if matches.dom().contains(entry.0) && attributes.contains(entry.0) {
            (entry.0, json_string(highlighted(text, matches[entry.0])))
        } else {
            entry
        },
        None => entry,
    }
}

/// The entries of a highlighted document.
pub open spec fn highlighted_entries(
    entries: Seq<(Seq<char>, Value)>,
    matches: Map<Seq<char>, Seq<MatchPosition>>,
    attributes: Set<Seq<char>>,
) -> Seq<(Seq<char>, Value)> {
    entries.map_values(|entry: (Seq<char>, Value)| highlighted_entry(entry, matches, attributes))
}

/// Highlighting keeps the fields of a document and their order.
pub proof fn lemma_highlight_keeps_names(
    entries: Seq<(Seq<char>, Value)>,
    matches: Map<Seq<char>, Seq<MatchPosition>>,
    attributes: Set<Seq<char>>,
)
    ensures
        entry_names(highlighted_entries(entries, matches, attributes)) == entry_names(entries),
{
    assert(entry_names(highlighted_entries(entries, matches, attributes)) =~= entry_names(entries));
}

/// Marking changes nothing but the markers: with empty markers the text comes
/// out as it went in, whatever the positions.
pub proof fn lemma_markers_only(text: Seq<char>, positions: Seq<MatchPosition>)
    ensures
        marked(text, positions, Seq::empty(), Seq::empty()) == text,
{
    lemma_written_is_prefix(text, positions);
    let (written, cursor) = marked_upto(text, positions, Seq::empty(), Seq::empty());
    assert(written + text.subrange(cursor, text.len() as int) =~= text);
}

proof fn lemma_written_is_prefix(text: Seq<char>, positions: Seq<MatchPosition>)
    ensures
        ({
            let (written, cursor) = marked_upto(text, positions, Seq::empty(), Seq::empty());
            0 <= cursor <= text.len() && written == text.subrange(0, cursor)
        }),
    decreases positions.len(),
{
    let none = Seq::<char>::empty();
    if positions.len() == 0 {
        assert(text.subrange(0, 0) =~= none);
    } else {
        lemma_written_is_prefix(text, positions.drop_last());
        let (written, cursor) = marked_upto(text, positions.drop_last(), none, none);
        let position = positions.last();
        if markable(text, cursor, position) {
            assert(written + text.subrange(cursor, position.start as int) + none + text.subrange(
                position.start as int,
                position.start + position.length,
            ) + none =~= text.subrange(0, position.start + position.length));
        }
    }
}

/// One span within the text is wrapped where it stands, and the text before
/// and after it is kept.
pub proof fn lemma_one_span(text: Seq<char>, position: MatchPosition)
    requires
        position.start + position.length <= text.len(),
    ensures
        highlighted(text, seq![position]) == text.subrange(0, position.start as int) + em_open()
            + text.subrange(position.start as int, position.start + position.length) + em_close()
            + text.subrange(position.start + position.length, text.len() as int),
{
    let positions = seq![position];
    assert(disjoint_spans(text, positions));
    lemma_disjoint_spans(text, positions);
    assert(positions.drop_last() =~= Seq::<MatchPosition>::empty());
    reveal_with_fuel(wrapped_upto, 2);
    assert(Seq::<char>::empty() + text.subrange(0, position.start as int) =~= text.subrange(
        0,
        position.start as int,
    ));
}

/// Two spans within the text that do not overlap are both wrapped, whichever
/// of them the list names first; so are two empty spans at one place.
pub proof fn lemma_two_spans(text: Seq<char>, first: MatchPosition, second: MatchPosition)
    requires
        first.start + first.length <= second.start,
        second.start + second.length <= text.len(),
    ensures
        highlighted(text, seq![first, second]) == highlighted(text, seq![second, first]),
        highlighted(text, seq![second, first]) == text.subrange(0, first.start as int) + em_open()
            + text.subrange(first.start as int, first.start + first.length) + em_close()
            + text.subrange(first.start + first.length, second.start as int) + em_open()
            + text.subrange(second.start as int, second.start + second.length) + em_close()
            + text.subrange(second.start + second.length, text.len() as int),
{
    let sorted = seq![first, second];
    let turned = seq![second, first];
    assert(turned.to_multiset() == sorted.to_multiset()) by {
        assert(turned =~= seq![second] + seq![first]);
        assert(sorted =~= seq![first] + seq![second]);
        vstd::seq_lib::lemma_seq_union_to_multiset_commutative(seq![second], seq![first]);
        assert((seq![second] + seq![first]).to_multiset() =~= (seq![first] + seq![second]).to_multiset());
    }
    lemma_in_order_same(turned, sorted);
    assert(disjoint_spans(text, sorted));
    lemma_disjoint_spans(text, sorted);
    let one = sorted.drop_last();
    assert(one =~= seq![first]);
    assert(one.drop_last() =~= Seq::<MatchPosition>::empty());
    reveal_with_fuel(wrapped_upto, 3);
    assert(Seq::<char>::empty() + text.subrange(0, first.start as int) =~= text.subrange(
        0,
        first.start as int,
    ));
}

/// Highlighting does not depend on the order in which the spans are named:
/// lists that name the same spans equally often give the same text.
pub proof fn lemma_highlight_order_free(
    text: Seq<char>,
    positions: Seq<MatchPosition>,
    others: Seq<MatchPosition>,
)
    requires
        positions.to_multiset() == others.to_multiset(),
    ensures
        highlighted(text, positions) == highlighted(text, others),
        skipped(text, positions) == skipped(text, others),
{
    lemma_in_order_same(positions, others);
}

/// Whether the spans at `positions` stand within `text` one after the other:
/// each ends no later than the next starts, and all end within the text.
pub open spec fn disjoint_spans(text: Seq<char>, positions: Seq<MatchPosition>) -> bool {
    &&& forall|i: int|
        0 <= i < positions.len() - 1 ==> (#[trigger] positions[i]).start + positions[i].length
            <= positions[i + 1].start
    &&& forall|i: int|
        0 <= i < positions.len() ==> (#[trigger] positions[i]).start + positions[i].length
            <= text.len()
}

/// What is written when each of the spans at `positions` is wrapped in turn,
/// and how far into `text` it reaches: before each span the text since the
/// span before it, then the span between `<em>` and `</em>`.
pub open spec fn wrapped_upto(text: Seq<char>, positions: Seq<MatchPosition>) -> (Seq<char>, int)
    decreases positions.len(),
{
    if positions.len() == 0 {
        (Seq::empty(), 0)
    } else {
        let (written, cursor) = wrapped_upto(text, positions.drop_last());
        let position = positions.last();
        (
            written + text.subrange(cursor, position.start as int) + em_open() + text.subrange(
                position.start as int,
                position.start + position.length,
            ) + em_close(),
            position.start + position.length,
        )
    }
}

/// Each span ends no later than any span after it starts.
proof fn lemma_disjoint_pairs(text: Seq<char>, positions: Seq<MatchPosition>, i: int, j: int)
    requires
        disjoint_spans(text, positions),
        0 <= i < j < positions.len(),
    ensures
        positions[i].start + positions[i].length <= positions[j].start,
    decreases j - i,
{
    if i + 1 < j {
        lemma_disjoint_pairs(text, positions, i, j - 1);
        assert(positions[j - 1].start + positions[j - 1].length <= positions[j].start);
    }
}

/// Spans that stand within the text one after the other are all wrapped, as
/// they stand: none is passed over, and the text comes out as the text before
/// the first span, each span between its markers with the text up to the next
/// span after it, and the text after the last span.
pub proof fn lemma_disjoint_spans(text: Seq<char>, positions: Seq<MatchPosition>)
    requires
        disjoint_spans(text, positions),
    ensures
        in_order(positions) == positions,
        skipped(text, positions) == Seq::<MatchPosition>::empty(),
        highlighted(text, positions) == wrapped_upto(text, positions).0 + text.subrange(
            wrapped_upto(text, positions).1,
            text.len() as int,
        ),
{
    assert(increasing(positions)) by {
        let leq = no_later_order();
        assert forall|i: int, j: int| 0 <= i < j < positions.len() implies leq(
            #[trigger] positions[i],
            #[trigger] positions[j],
        ) by {
            lemma_disjoint_pairs(text, positions, i, j);
        }
    }
    lemma_in_order_of_sorted(positions);
    lemma_all_marked(text, positions, positions.len() as int);
    assert(positions.take(positions.len() as int) =~= positions);
}

/// The first `n` of spans that stand one after the other are all marked.
proof fn lemma_all_marked(text: Seq<char>, positions: Seq<MatchPosition>, n: int)
    requires
        disjoint_spans(text, positions),
        0 <= n <= positions.len(),
    ensures
        marked_upto(text, positions.take(n), em_open(), em_close()) == wrapped_upto(
            text,
            positions.take(n),
        ),
        passed_over(text, positions.take(n)) == Seq::<MatchPosition>::empty(),
        n > 0 ==> wrapped_upto(text, positions.take(n)).1 == positions[n - 1].start + positions[n
            - 1].length,
        n == 0 ==> wrapped_upto(text, positions.take(n)).1 == 0,
    decreases n,
{
    if n > 0 {
        lemma_all_marked(text, positions, n - 1);
        assert(positions.take(n).drop_last() =~= positions.take(n - 1));
        assert(positions.take(n).last() == positions[n - 1]);
        if n > 1 {
            assert(positions[n - 2].start + positions[n - 2].length <= positions[n - 1].start);
        }
        assert(positions[n - 1].start + positions[n - 1].length <= text.len());
    }
}

fn push_range(out: &mut String, chars: &Vec<char>, from: usize, to: usize)
    requires
        from <= to <= chars.len(),
    ensures
        final(out)@ == old(out)@ + chars@.subrange(from as int, to as int),
{
    let ghost before = out@;
    let mut i: usize = from;
    assert(before + chars@.subrange(from as int, from as int) =~= before);
    while i < to
        invariant
            from <= i <= to <= chars.len(),
            out@ == before + chars@.subrange(from as int, i as int),
        decreases to - i,
    {
        out.push(chars[i]);
        i += 1;
        assert(out@ =~= before + chars@.subrange(from as int, i as int));
    }
}

fn push_em_open(out: &mut String)
    ensures
        final(out)@ == old(out)@ + em_open(),
{
    let ghost before = out@;
    out.push('<');
    out.push('e');
    out.push('m');
    out.push('>');
    assert(out@ =~= before + em_open());
}

fn push_em_close(out: &mut String)
    ensures
        final(out)@ == old(out)@ + em_close(),
{
    let ghost before = out@;
    out.push('<');
    out.push('/');
    out.push('e');
    out.push('m');
    out.push('>');
    assert(out@ =~= before + em_close());
}

/// `text` with its spans wrapped, and the spans passed over.
fn mark_spans(text: &str, positions: &Vec<MatchPosition>) -> (done: (String, Vec<MatchPosition>))
    ensures
        done.0@ == highlighted(text@, positions@),
        done.1@ == skipped(text@, positions@),
{
    let chars = chars_of(text);
    let sorted = sort_positions(positions);
    let mut out = String::new();
    let mut passed: Vec<MatchPosition> = Vec::new();
    let mut cursor: usize = 0;
    let mut i: usize = 0;
    assert(sorted@.take(0) =~= Seq::<MatchPosition>::empty());
    while i < sorted.len()
        invariant
            i <= sorted.len(),
            chars@ == text@,
            cursor <= chars.len(),
            (out@, cursor as int) == marked_upto(
                text@,
                sorted@.take(i as int),
                em_open(),
                em_close(),
            ),
            passed@ == passed_over(text@, sorted@.take(i as int)),
        decreases sorted.len() - i,
    {
        let position = sorted[i];
        proof {
            assert(sorted@.take(i + 1).drop_last() =~= sorted@.take(i as int));
            assert(sorted@.take(i + 1).last() == position);
        }
        if cursor <= position.start && position.start <= chars.len() && position.length
            <= chars.len() - position.start {
            let end = position.start + position.length;
            push_range(&mut out, &chars, cursor, position.start);
            push_em_open(&mut out);
            push_range(&mut out, &chars, position.start, end);
            push_em_close(&mut out);
            cursor = end;
        } else {
            passed.push(position);
        }
        i += 1;
    }
    assert(sorted@.take(sorted.len() as int) =~= sorted@);
    push_range(&mut out, &chars, cursor, chars.len());
    (out, passed)
}

/// `text` with the spans at `positions` wrapped in `<em>` and `</em>`.
///
/// The spans are taken in ascending order of their start, then of their
/// length, each as often as `positions` names it, whatever their order in
/// `positions`. A span that starts before the end of the span marked last, or
/// that ends beyond the text, is passed over.
pub fn highlight_text(text: &str, positions: &Vec<MatchPosition>) -> (out: String)
    ensures
        out@ == highlighted(text@, positions@),
{
    mark_spans(text, positions).0
}

/// The spans at `positions` that `highlight_text` passes over, in ascending
/// order: what there is to report of a text's highlighting.
pub fn skipped_spans(text: &str, positions: &Vec<MatchPosition>) -> (passed: Vec<MatchPosition>)
    ensures
        passed@ == skipped(text@, positions@),
{
    mark_spans(text, positions).1
}

/// The spans that `calculate_highlights` passes over, each under the name of
/// its field: for each name of `matches` in turn that `attributes_to_highlight`
/// holds and the document holds text for, the spans that `skipped_spans` gives.
pub fn skipped_highlights(
    document: &IndexMap<String, Value>,
    matches: &MatchesInfos,
    attributes_to_highlight: &NameSet,
) -> (passed: Vec<(String, MatchPosition)>)
    requires
        matches.wf(),
    ensures
        spans_view(passed@) == skipped_in(
            document_entries(*document),
            matches.names(),
            positions_by_name(matches),
            attributes_to_highlight@,
            matches.names().len() as int,
        ),
{
    let ghost entries = document_entries(*document);
    let ghost by_name = positions_by_name(matches);
    let mut passed: Vec<(String, MatchPosition)> = Vec::new();
    let mut j: usize = 0;
    proof {
        matches.lemma_lengths();
        assert(spans_view(passed@) =~= Seq::<(Seq<char>, MatchPosition)>::empty());
    }
    while j < matches.len()
        invariant
            j <= matches.names().len(),
            matches.wf(),
            matches.names().len() == matches.values().len(),
            entries == document_entries(*document),
            by_name == positions_by_name(matches),
            spans_view(passed@) == skipped_in(
                entries,
                matches.names(),
                by_name,
                attributes_to_highlight@,
                j as int,
            ),
        decreases matches.names().len() - j,
    {
        let name = matches.name(j);
        proof {
            matches.lemma_entry(j as int);
        }
        if attributes_to_highlight.contains(name) {
            if let Some(text) = document_text(document, name) {
                let spans = skipped_spans(text, matches.value(j));
                let ghost base = spans_view(passed@);
                let ghost tag = tagged(name@);
                let mut k: usize = 0;
                assert(base + spans@.take(0).map_values(tag) =~= base);
                while k < spans.len()
                    invariant
                        k <= spans.len(),
                        tag == tagged(name@),
                        spans_view(passed@) == base + spans@.take(k as int).map_values(tag),
                    decreases spans.len() - k,
                {
                    let ghost before = passed@;
                    passed.push((name.to_owned(), spans[k]));
                    proof {
                        assert(spans_view(passed@) =~= spans_view(before).push(
                            (name@, spans@[k as int]),
                        ));
                        assert(spans@.take(k + 1) =~= spans@.take(k as int).push(spans@[k as int]));
                        assert(spans_view(passed@) =~= base + spans@.take(k + 1).map_values(tag));
                    }
                    k += 1;
                }
                assert(spans@.take(spans.len() as int) =~= spans@);
            }
        }
        j += 1;
    }
    passed
}

/// The document with its matched text emphasised.
///
/// A field is rewritten where it holds text, `matches` has its name and
/// `attributes_to_highlight` holds it: its text is then that of
/// `highlight_text` for the field's positions. Every other field, and the order
/// of the fields, is kept.
pub fn calculate_highlights(
    document: &IndexMap<String, Value>,
    matches: &MatchesInfos,
    attributes_to_highlight: &NameSet,
) -> (result: IndexMap<String, Value>)
    requires
        matches.wf(),
    ensures
        document_entries(result) == highlighted_entries(
            document_entries(*document),
            positions_by_name(matches),
            attributes_to_highlight@,
        ),
{
    let ghost before = document_entries(*document);
    let ghost done = |j: int, name: Seq<char>|
        exists|k: int| 0 <= k < j && #[trigger] matches.names()[k] == name;
    let ghost entry_after = |j: int, entry: (Seq<char>, Value)|
        if done(j, entry.0) {
            highlighted_entry(entry, positions_by_name(matches), attributes_to_highlight@)
        } else {
            entry
        };
    let mut result = document_clone(document);
    let mut j: usize = 0;
    proof {
        matches.lemma_lengths();
    }
    while j < matches.len()
        invariant
            j <= matches.names().len(),
            matches.wf(),
            matches.names().len() == matches.values().len(),
            before == document_entries(*document),
            done == |j: int, name: Seq<char>|
                exists|k: int| 0 <= k < j && #[trigger] matches.names()[k] == name,
            entry_after == |j: int, entry: (Seq<char>, Value)|
                if done(j, entry.0) {
                    highlighted_entry(entry, positions_by_name(matches), attributes_to_highlight@)
                } else {
                    entry
                },
            document_entries(result).len() == before.len(),
            forall|i: int|
                0 <= i < before.len() ==> #[trigger] document_entries(result)[i] == entry_after(
                    j as int,
                    before[i],
                ),
        decreases matches.names().len() - j,
    {
        let name = matches.name(j);
        let ghost current = document_entries(result);
        proof {
            matches.lemma_entry(j as int);
            assert forall|i: int| 0 <= i < before.len() implies (#[trigger] current[i]).0
                == before[i].0 by {
                assert(current[i] == entry_after(j as int, before[i]));
            }
            assert(entry_names(current) =~= entry_names(before));
        }
        let mut rewritten: bool = false;
        if attributes_to_highlight.contains(name) {
            match document_value(document, name) {
                Some(value) => {
                    match value.as_str() {
                        Some(text) => {
                            let emphasised = highlight_text(text, matches.value(j));
                            let ghost at = choose|i: int|
                                {
                                    &&& 0 <= i < before.len()
                                    &&& #[trigger] before[i] == (name@, *value)
                                    &&& forall|k: int|
                                        0 <= k < before.len() && k != i ==> #[trigger] before[k].0
                                            != name@
                                };
                            proof {
                                assert(entry_names(current)[at] == name@);
                                let found = entry_names(current).index_of(name@);
                                assert(entry_names(current)[found] == name@);
                                assert(current[found].0 == before[found].0);
                                assert(found == at);
                            }
                            document_insert(&mut result, name.to_owned(), text_value(emphasised));
                            proof {
                                assert(document_entries(result) == entries_with(
                                    current,
                                    name@,
                                    json_string(emphasised@),
                                ));
                                assert(done(j + 1, name@)) by {
                                    assert(matches.names()[j as int] == name@);
                                }
                                assert forall|i: int| 0 <= i < before.len() implies #[trigger] document_entries(
                                    result,
                                )[i] == entry_after(j + 1, before[i]) by {
                                    assert(current[i] == entry_after(j as int, before[i]));
                                    if i != at {
                                        assert(before[i].0 != name@);
                                        assert(done(j + 1, before[i].0) == done(j as int, before[i].0))
                                            by {
                                            if done(j + 1, before[i].0) {
                                                let k = choose|k: int|
                                                    0 <= k < j + 1 && #[trigger] matches.names()[k]
                                                        == before[i].0;
                                                assert(k < j);
                                            }
                                        }
                                    }
                                }
                            }
                            rewritten = true;
                        },
                        None => {},
                    }
                },
                None => {},
            }
        }
        proof {
            if !rewritten {
                assert forall|i: int| 0 <= i < before.len() implies #[trigger] document_entries(
                    result,
                )[i] == entry_after(j + 1, before[i]) by {
                    assert(current[i] == entry_after(j as int, before[i]));
                    if before[i].0 == name@ {
                        assert(highlighted_entry(before[i], positions_by_name(matches), attributes_to_highlight@)
                            == before[i]) by {
                            if attributes_to_highlight@.contains(name@) {
                                assert(json_text(before[i].1) is None);
                            }
                        }
                    } else {
                        assert(done(j + 1, before[i].0) == done(j as int, before[i].0)) by {
                            if done(j + 1, before[i].0) {
                                let k = choose|k: int|
                                    0 <= k < j + 1 && #[trigger] matches.names()[k] == before[i].0;
                                assert(k < j);
                            }
                        }
                    }
                }
            }
        }
        j += 1;
    }
    proof {
        let after = document_entries(result);
        let wanted = highlighted_entries(
            before,
            positions_by_name(matches),
            attributes_to_highlight@,
        );
        assert forall|i: int| 0 <= i < before.len() implies after[i] == wanted[i] by {
            assert(after[i] == entry_after(matches.names().len() as int, before[i]));
            if !done(matches.names().len() as int, before[i].0) {
                assert(!matches.names().contains(before[i].0));
            } else {
            }
        }
        assert(after =~= wanted);
    }
    result
}

} // verus!
