//! Match positions by field name: what a hit reports next to its fields.

use vstd::prelude::*;
use vstd::relations::{strict_total_ordering, total_ordering};
use vstd::seq_lib::lemma_sorted_unique;
use crate::highlight::Highlight;
use crate::names::{NameMap, NameSet};
use crate::schema::{FieldId, Schema};
use crate::sequences::{
    ascending, copy_of, lemma_ascending_form, lemma_ascending_sorted_by, lemma_ascending_unique,
    lemma_insert_ascending, lemma_place,
};

verus! {

/// Where a match stands in a field's text: `length` characters from character
/// `start`. Positions are ordered by their start, then by their length.
#[derive(Clone, Copy, Debug, PartialEq, Eq, PartialOrd, Ord, Hash, Structural)]
pub struct MatchPosition {
    pub start: usize,
    pub length: usize,
}

/// For each field name, the positions of the matches in that field.
pub type MatchesInfos = NameMap<Vec<MatchPosition>>;

impl MatchPosition {
    /// Whether `self` comes strictly before `other`: it starts earlier, or at
    /// the same character and is shorter.
    pub open spec fn before(self, other: MatchPosition) -> bool {
        self.start < other.start || (self.start == other.start && self.length < other.length)
    }

    /// Whether `self` comes strictly before `other`.
    pub fn precedes(&self, other: &MatchPosition) -> (earlier: bool)
        ensures
            earlier == self.before(*other),
    {
        self.start < other.start || (self.start == other.start && self.length < other.length)
    }
}

/// The strict order of positions: by start, then by length.
pub open spec fn before_order() -> spec_fn(MatchPosition, MatchPosition) -> bool {
    |a: MatchPosition, b: MatchPosition| a.before(b)
}

/// The order of positions that lets a position come again: by start, then by
/// length.
pub open spec fn no_later_order() -> spec_fn(MatchPosition, MatchPosition) -> bool {
    |a: MatchPosition, b: MatchPosition| a.before(b) || a == b
}

/// Sorted by start, then length, and without a position held twice.
pub open spec fn strictly_increasing(positions: Seq<MatchPosition>) -> bool {
    ascending(positions, before_order())
}

/// Sorted by start, then length; a position may come again.
pub open spec fn increasing(positions: Seq<MatchPosition>) -> bool {
    ascending(positions, no_later_order())
}

/// The position of a match span.
pub open spec fn position_of(m: Highlight) -> MatchPosition {
    MatchPosition { start: m.char_index as usize, length: m.char_length as usize }
}

/// The names that a filter lets through; without a filter, every name.
pub open spec fn allowed(filter: Option<&NameSet>, name: Seq<char>) -> bool {
    match filter {
        Some(names) => names@.contains(name),
        None => true,
    }
}

/// The name under which the matches in field `attribute` are reported: the
/// field's name, where the schema knows the field and may show it and the
/// filter lets the name through. Matches in other fields are not reported.
pub open spec fn reported_name(schema: &Schema, filter: Option<&NameSet>, attribute: u16) -> Option<
    Seq<char>,
> {
    match schema.field_name(FieldId(attribute)) {
        Some(name) => if allowed(filter, name) && schema.shows(FieldId(attribute)) {
            Some(name)
        } else {
            None
        },
        None => None,
    }
}

/// The positions reported under `name` for the first `n` of `matches`.
pub open spec fn reported_positions(
    matches: Seq<Highlight>,
    n: int,
    schema: &Schema,
    filter: Option<&NameSet>,
    name: Seq<char>,
) -> Set<MatchPosition> {
    Set::new(
        |p: MatchPosition|
            exists|k: int|
                0 <= k < n && k < matches.len() && reported_name(
                    schema,
                    filter,
                    (#[trigger] matches[k]).attribute,
                ) == Some(name) && position_of(matches[k]) == p,
    )
}

/// Whether one of the first `n` of `matches` is reported under `name`.
pub open spec fn reports(
    matches: Seq<Highlight>,
    n: int,
    schema: &Schema,
    filter: Option<&NameSet>,
    name: Seq<char>,
) -> bool {
    exists|k: int|
        0 <= k < n && k < matches.len() && reported_name(
            schema,
            filter,
            (#[trigger] matches[k]).attribute,
        ) == Some(name)
}

/// The positions of `set`, sorted by start, then length.
pub open spec fn sorted_positions(set: Set<MatchPosition>) -> Seq<MatchPosition> {
    choose|sorted: Seq<MatchPosition>| strictly_increasing(sorted) && sorted.to_set() == set
}

/// The names under which the first `n` of `matches` are reported, each once,
/// in the order in which the matches first report them.
pub open spec fn reported_names(
    matches: Seq<Highlight>,
    n: int,
    schema: &Schema,
    filter: Option<&NameSet>,
) -> Seq<Seq<char>>
    decreases n,
{
    if n <= 0 || n > matches.len() {
        Seq::empty()
    } else {
        let before = reported_names(matches, n - 1, schema, filter);
        match reported_name(schema, filter, matches[n - 1].attribute) {
            Some(name) => if before.contains(name) {
                before
            } else {
                before.push(name)
            },
            None => before,
        }
    }
}

/// `positions` sorted by start, then length, each as often as `positions`
/// names it.
pub open spec fn in_order(positions: Seq<MatchPosition>) -> Seq<MatchPosition> {
    positions.sort_by(no_later_order())
}

/// The strict order of positions is one in which every two positions compare.
pub proof fn lemma_before_strict()
    ensures
        strict_total_ordering(before_order()),
{
    let less = before_order();
    assert forall|x: MatchPosition, y: MatchPosition| x != y implies #[trigger] less(x, y)
        || #[trigger] less(y, x) by {
        assert(x.start != y.start || x.length != y.length);
    }
}

/// The order that lets a position come again is a total order.
pub proof fn lemma_no_later_total()
    ensures
        total_ordering(no_later_order()),
{
    let leq = no_later_order();
    assert forall|x: MatchPosition, y: MatchPosition| #[trigger] leq(x, y) && #[trigger] leq(
        y,
        x,
    ) implies x == y by {
    }
    assert forall|x: MatchPosition, y: MatchPosition| #[trigger] leq(x, y) || #[trigger] leq(
        y,
        x,
    ) by {
        if x != y {
            assert(x.start != y.start || x.length != y.length);
        }
    }
}

/// Whatever the positions: in order they are sorted, and each comes as often
/// as it is named.
pub proof fn lemma_in_order(positions: Seq<MatchPosition>)
    ensures
        increasing(in_order(positions)),
        in_order(positions).to_multiset() == positions.to_multiset(),
        in_order(positions).len() == positions.len(),
{
    lemma_no_later_total();
    positions.lemma_sort_by_ensures(no_later_order());
    lemma_ascending_sorted_by(in_order(positions), no_later_order());
    vstd::seq_lib::to_multiset_len(positions);
    vstd::seq_lib::to_multiset_len(in_order(positions));
}

/// Sorted positions are in order as they stand.
pub proof fn lemma_in_order_of_sorted(positions: Seq<MatchPosition>)
    requires
        increasing(positions),
    ensures
        in_order(positions) == positions,
{
    lemma_in_order(positions);
    lemma_no_later_total();
    lemma_ascending_sorted_by(in_order(positions), no_later_order());
    lemma_ascending_sorted_by(positions, no_later_order());
    lemma_sorted_unique(in_order(positions), positions, no_later_order());
}

/// Lists that name the same positions equally often are the same in order.
pub proof fn lemma_in_order_same(positions: Seq<MatchPosition>, others: Seq<MatchPosition>)
    requires
        positions.to_multiset() == others.to_multiset(),
    ensures
        in_order(positions) == in_order(others),
{
    lemma_in_order(positions);
    lemma_in_order(others);
    lemma_no_later_total();
    lemma_ascending_sorted_by(in_order(positions), no_later_order());
    lemma_ascending_sorted_by(in_order(others), no_later_order());
    lemma_sorted_unique(in_order(positions), in_order(others), no_later_order());
}

/// Whatever the positions, and however often each is named: sorted as a set
/// they ascend strictly, and hold just the positions named.
pub proof fn lemma_sorted_positions(positions: Seq<MatchPosition>)
    ensures
        strictly_increasing(sorted_positions(positions.to_set())),
        sorted_positions(positions.to_set()).to_set() == positions.to_set(),
{
    lemma_before_strict();
    let form = lemma_ascending_form(positions, before_order());
    assert(strictly_increasing(form) && form.to_set() == positions.to_set());
}

/// What `calculate_matches` reports for `matches`: each name under which a
/// match is reported, with the positions reported under it, sorted and each
/// held once.
pub open spec fn match_positions(
    matches: Seq<Highlight>,
    schema: &Schema,
    filter: Option<&NameSet>,
) -> Map<Seq<char>, Seq<MatchPosition>> {
    Map::new(
        |name: Seq<char>| reports(matches, matches.len() as int, schema, filter, name),
        |name: Seq<char>|
            sorted_positions(
                reported_positions(matches, matches.len() as int, schema, filter, name),
            ),
    )
}

/// The positions that `infos` holds for each name.
pub open spec fn positions_by_name(infos: &MatchesInfos) -> Map<Seq<char>, Seq<MatchPosition>> {
    Map::new(|name: Seq<char>| infos@.dom().contains(name), |name: Seq<char>| infos@[name]@)
}

/// Two sorted lists of positions without repeats that hold the same positions
/// are one list.
pub proof fn lemma_strictly_increasing_unique(a: Seq<MatchPosition>, b: Seq<MatchPosition>)
    requires
        strictly_increasing(a),
        strictly_increasing(b),
        a.to_set() == b.to_set(),
    ensures
        a == b,
{
    lemma_before_strict();
    lemma_ascending_unique(a, b, before_order());
}

/// One more match adds its position under its name, and nothing elsewhere.
proof fn lemma_one_more_match(
    matches: Seq<Highlight>,
    n: int,
    schema: &Schema,
    filter: Option<&NameSet>,
    name: Seq<char>,
)
    requires
        0 <= n < matches.len(),
    ensures
        reported_positions(matches, n + 1, schema, filter, name) == if reported_name(
            schema,
            filter,
            matches[n].attribute,
        ) == Some(name) {
            reported_positions(matches, n, schema, filter, name).insert(position_of(matches[n]))
        } else {
            reported_positions(matches, n, schema, filter, name)
        },
        reports(matches, n + 1, schema, filter, name) <==> reports(matches, n, schema, filter, name)
            || reported_name(schema, filter, matches[n].attribute) == Some(name),
{
    let before = reported_positions(matches, n, schema, filter, name);
    let after = reported_positions(matches, n + 1, schema, filter, name);
    let here = reported_name(schema, filter, matches[n].attribute) == Some(name);
    assert forall|p: MatchPosition| after.contains(p) <==> before.contains(p) || (here
        && p == position_of(matches[n])) by {
        if before.contains(p) {
            let k = choose|k: int|
                0 <= k < n && k < matches.len() && reported_name(
                    schema,
                    filter,
                    (#[trigger] matches[k]).attribute,
                ) == Some(name) && position_of(matches[k]) == p;
            assert(0 <= k < n + 1 && position_of(matches[k]) == p);
        }
        if here && p == position_of(matches[n]) {
            assert(reported_name(schema, filter, matches[n].attribute) == Some(name));
        }
    }
    if here {
        assert(after =~= before.insert(position_of(matches[n])));
    } else {
        assert(after =~= before);
    }
    if reports(matches, n, schema, filter, name) {
        let k = choose|k: int|
            0 <= k < n && k < matches.len() && reported_name(
                schema,
                filter,
                (#[trigger] matches[k]).attribute,
            ) == Some(name);
        assert(0 <= k < n + 1 && reported_name(schema, filter, matches[k].attribute) == Some(name));
    }
    if here {
        assert(reported_name(schema, filter, matches[n].attribute) == Some(name));
    }
}

/// Puts `position` into a sorted list of positions, unless the list holds it.
pub fn insert_position(positions: &mut Vec<MatchPosition>, position: MatchPosition)
    requires
        strictly_increasing(old(positions)@),
    ensures
        strictly_increasing(final(positions)@),
        final(positions)@.to_set() == old(positions)@.to_set().insert(position),
{
    let mut at: usize = 0;
    while at < positions.len() && positions[at].precedes(&position)
        invariant
            at <= positions.len(),
            positions@ == old(positions)@,
            forall|j: int| 0 <= j < at ==> (#[trigger] positions@[j]).before(position),
        decreases positions.len() - at,
    {
        at += 1;
    }
    proof {
        lemma_before_strict();
        lemma_place(positions@, position, before_order(), at as int);
    }
    if !(at < positions.len() && positions[at] == position) {
        proof {
            lemma_insert_ascending(positions@, at as int, position, before_order());
        }
        positions.insert(at, position);
    }
}

/// `positions` sorted by start, then length, each as often as `positions`
/// names it.
pub fn sort_positions(positions: &Vec<MatchPosition>) -> (sorted: Vec<MatchPosition>)
    ensures
        sorted@ == in_order(positions@),
{
    let mut sorted: Vec<MatchPosition> = Vec::new();
    let mut i: usize = 0;
    assert(positions@.take(0) =~= Seq::<MatchPosition>::empty());
    while i < positions.len()
        invariant
            i <= positions.len(),
            increasing(sorted@),
            sorted@.to_multiset() == positions@.take(i as int).to_multiset(),
        decreases positions.len() - i,
    {
        let position = positions[i];
        let mut at: usize = 0;
        while at < sorted.len() && !position.precedes(&sorted[at])
            invariant
                at <= sorted.len(),
                increasing(sorted@),
                forall|j: int| 0 <= j < at ==> !position.before(#[trigger] sorted@[j]),
            decreases sorted.len() - at,
        {
            at += 1;
        }
        proof {
            let leq = no_later_order();
            lemma_no_later_total();
            assert forall|j: int| 0 <= j < at implies leq(#[trigger] sorted@[j], position) by {
                assert(leq(sorted@[j], position) || leq(position, sorted@[j]));
            }
            assert forall|j: int| at <= j < sorted.len() implies leq(
                position,
                #[trigger] sorted@[j],
            ) by {
                assert(leq(position, sorted@[at as int]));
                if j > at {
                    assert(leq(sorted@[at as int], sorted@[j]));
                }
            }
            lemma_insert_ascending(sorted@, at as int, position, leq);
            assert(positions@.take(i + 1) =~= positions@.take(i as int).push(position));
            vstd::seq_lib::to_multiset_build(positions@.take(i as int), position);
        }
        sorted.insert(at, position);
        i += 1;
    }
    proof {
        assert(positions@.take(positions.len() as int) =~= positions@);
        lemma_in_order(positions@);
        lemma_no_later_total();
        lemma_ascending_sorted_by(sorted@, no_later_order());
        lemma_ascending_sorted_by(in_order(positions@), no_later_order());
        lemma_sorted_unique(sorted@, in_order(positions@), no_later_order());
    }
    sorted
}

/// The name under which the matches in field `attribute` are reported, if
/// they are.
fn report_under<'a>(schema: &'a Schema, filter: Option<&NameSet>, attribute: u16) -> (name: Option<
    &'a str,
>)
    requires
        schema.wf(),
    ensures
        match name {
            Some(n) => reported_name(schema, filter, attribute) == Some(n@),
            None => reported_name(schema, filter, attribute) is None,
        },
{
    match schema.name(FieldId(attribute)) {
        Some(name) => {
            let lets_through = match filter {
                Some(names) => names.contains(name),
                None => true,
            };
            if lets_through && schema.is_displayed(FieldId(attribute)) {
                Some(name)
            } else {
                None
            }
        },
        None => None,
    }
}

/// Gathers the positions of `matches` by field name.
///
/// A match is reported under the name of its field where the schema knows the
/// field and may show it and, with a filter, the filter holds the name; other
/// matches are passed over. Each name that has a match is held once, with its
/// positions sorted by start, then length, each held once. The names stand in
/// the order in which the matches first report them.
pub fn calculate_matches(
    matches: &Vec<Highlight>,
    attributes_to_retrieve: Option<&NameSet>,
    schema: &Schema,
) -> (infos: MatchesInfos)
    requires
        schema.wf(),
    ensures
        infos.wf(),
        forall|name: Seq<char>| #[trigger]
            infos@.dom().contains(name) <==> reports(
                matches@,
                matches.len() as int,
                schema,
                attributes_to_retrieve,
                name,
            ),
        forall|name: Seq<char>| #[trigger]
            infos@.dom().contains(name) ==> strictly_increasing(infos@[name]@) && infos@[name]@.to_set()
                == reported_positions(
                matches@,
                matches.len() as int,
                schema,
                attributes_to_retrieve,
                name,
            ),
        positions_by_name(&infos) == match_positions(matches@, schema, attributes_to_retrieve),
        infos.names() == reported_names(
            matches@,
            matches.len() as int,
            schema,
            attributes_to_retrieve,
        ),
{
    let mut infos: NameMap<Vec<MatchPosition>> = NameMap::new();
    let mut i: usize = 0;
    assert forall|name: Seq<char>| !infos@.dom().contains(name) by {
        assert(!infos.names().contains(name));
    }
    while i < matches.len()
        invariant
            i <= matches.len(),
            schema.wf(),
            infos.wf(),
            infos.names() == reported_names(matches@, i as int, schema, attributes_to_retrieve),
            forall|name: Seq<char>| #[trigger]
                infos@.dom().contains(name) <==> reports(
                    matches@,
                    i as int,
                    schema,
                    attributes_to_retrieve,
                    name,
                ),
            forall|name: Seq<char>| #[trigger]
                infos@.dom().contains(name) ==> strictly_increasing(infos@[name]@)
                    && infos@[name]@.to_set() == reported_positions(
                    matches@,
                    i as int,
                    schema,
                    attributes_to_retrieve,
                    name,
                ),
        decreases matches.len() - i,
    {
        let m = matches[i];
        let position = MatchPosition { start: m.char_index as usize, length: m.char_length as usize };
        let ghost before = infos@;
        assert forall|name: Seq<char>| true implies {
            &&& reported_positions(matches@, i + 1, schema, attributes_to_retrieve, name)
                == if reported_name(schema, attributes_to_retrieve, matches@[i as int].attribute)
                == Some(name) {
                #[trigger] reported_positions(
                    matches@,
                    i as int,
                    schema,
                    attributes_to_retrieve,
                    name,
                ).insert(position_of(matches@[i as int]))
            } else {
                reported_positions(matches@, i as int, schema, attributes_to_retrieve, name)
            }
            &&& reports(matches@, i + 1, schema, attributes_to_retrieve, name) <==> reports(
                matches@,
                i as int,
                schema,
                attributes_to_retrieve,
                name,
            ) || reported_name(schema, attributes_to_retrieve, matches@[i as int].attribute)
                == Some(name)
        } by {
            lemma_one_more_match(matches@, i as int, schema, attributes_to_retrieve, name);
        }
        match report_under(schema, attributes_to_retrieve, m.attribute) {
            Some(name) => {
                let mut positions = match infos.get(name) {
                    Some(known) => copy_of(known),
                    None => Vec::new(),
                };
                assert(positions@.to_set() =~= reported_positions(
                    matches@,
                    i as int,
                    schema,
                    attributes_to_retrieve,
                    name@,
                )) by {
                    if !before.dom().contains(name@) {
                        assert(!reports(matches@, i as int, schema, attributes_to_retrieve, name@));
                    }
                }
                insert_position(&mut positions, position);
                infos.insert(name.to_owned(), positions);
                assert forall|other: Seq<char>| #[trigger]
                    infos@.dom().contains(other) implies strictly_increasing(infos@[other]@)
                    && infos@[other]@.to_set() == reported_positions(
                    matches@,
                    i + 1,
                    schema,
                    attributes_to_retrieve,
                    other,
                ) by {
                    if other != name@ {
                        assert(before.dom().contains(other));
                    }
                }
            },
            None => {},
        }
        i += 1;
    }
    proof {
        let held = positions_by_name(&infos);
        let wanted = match_positions(matches@, schema, attributes_to_retrieve);
        assert forall|name: Seq<char>| held.dom().contains(name) implies #[trigger] held[name]
            == wanted[name] by {
            assert(infos@.dom().contains(name));
            let set = reported_positions(
                matches@,
                matches.len() as int,
                schema,
                attributes_to_retrieve,
                name,
            );
            assert(strictly_increasing(infos@[name]@) && infos@[name]@.to_set() == set);
            lemma_strictly_increasing_unique(infos@[name]@, sorted_positions(set));
        }
        assert forall|name: Seq<char>| held.dom().contains(name) <==> wanted.dom().contains(
            name,
        ) by {
            assert(held.dom().contains(name) <==> infos@.dom().contains(name));
        }
        assert(held =~= wanted);
    }
    infos
}

} // verus!
