//! The chain of criteria that orders the hits of a search.

use vstd::prelude::*;
use crate::schema::{FieldId, Schema};
use crate::search::SearchBuilder;

verus! {

/// A ranking rule, as the settings of an index write it down.
#[derive(Debug, PartialEq, Eq)]
pub enum RankingRule {
    Typo,
    Words,
    Proximity,
    Attribute,
    WordsPosition,
    Exactness,
    /// Documents with a lower value of the named field come first.
    Asc(String),
    /// Documents with a higher value of the named field come first.
    Desc(String),
}

/// One criterion of the chain that the ranking engine orders hits by.
#[derive(Clone, Copy, Debug, PartialEq, Eq, Structural)]
pub enum Criterion {
    Typo,
    Words,
    Proximity,
    Attribute,
    WordsPosition,
    Exactness,
    /// By the value of a field; `reversed` where higher values come first.
    SortByAttr { field_id: FieldId, reversed: bool },
    /// By document number: the criterion that ends every chain.
    DocumentId,
}

/// The criterion that sorts by the field `name`, where the schema knows the
/// field and results can be ordered by it.
pub open spec fn sort_criterion(schema: &Schema, name: Seq<char>, reversed: bool) -> Option<
    Criterion,
> {
    match schema.field_id(name) {
        Some(field_id) => if schema.ranks(field_id) {
            Some(Criterion::SortByAttr { field_id, reversed })
        } else {
            None
        },
        None => None,
    }
}

/// The criterion that stands for `rule`, if there is one: a rule that sorts by
/// a field that cannot be sorted by has none.
pub open spec fn criterion_of(rule: RankingRule, schema: &Schema) -> Option<Criterion> {
    match rule {
        RankingRule::Typo => Some(Criterion::Typo),
        RankingRule::Words => Some(Criterion::Words),
        RankingRule::Proximity => Some(Criterion::Proximity),
        RankingRule::Attribute => Some(Criterion::Attribute),
        RankingRule::WordsPosition => Some(Criterion::WordsPosition),
        RankingRule::Exactness => Some(Criterion::Exactness),
        RankingRule::Asc(name) => sort_criterion(schema, name@, false),
        RankingRule::Desc(name) => sort_criterion(schema, name@, true),
    }
}

/// Maps a rule to its criterion under `schema`.
pub open spec fn resolve(schema: &Schema) -> spec_fn(RankingRule) -> Option<Criterion> {
    |rule: RankingRule| criterion_of(rule, schema)
}

/// The chain for `rules`: the criterion of each rule that has one, in the
/// order of the rules, and the document number at the end.
pub open spec fn criteria_of(rules: Seq<RankingRule>, schema: &Schema) -> Seq<Criterion> {
    rules.filter_map(resolve(schema)).push(Criterion::DocumentId)
}

/// The numbers of the rules, in the order of the rules.
pub open spec fn rule_numbers(rules: Seq<RankingRule>) -> Seq<usize> {
    Seq::new(rules.len(), |i: int| i as usize)
}

/// The rules that have no criterion under `schema`.
pub open spec fn without_criterion(rules: Seq<RankingRule>, schema: &Schema) -> spec_fn(
    usize,
) -> bool {
    |i: usize| i < rules.len() && criterion_of(rules[i as int], schema) is None
}

/// The numbers of the rules that `get_criteria` passes over: those that sort
/// by a field that the schema does not know, or cannot order by.
pub open spec fn unresolved(rules: Seq<RankingRule>, schema: &Schema) -> Seq<usize> {
    rule_numbers(rules).filter(without_criterion(rules, schema))
}

fn resolve_sort(schema: &Schema, name: &str, reversed: bool) -> (criterion: Option<Criterion>)
    requires
        schema.wf(),
    ensures
        criterion == sort_criterion(schema, name@, reversed),
{
    match schema.id(name) {
        Some(field_id) => {
            if schema.is_ranked(field_id) {
                Some(Criterion::SortByAttr { field_id, reversed })
            } else {
                None
            }
        },
        None => None,
    }
}

impl SearchBuilder {
    /// The chain of criteria for the ranking rules of an index.
    ///
    /// Without rules there is no chain, and the engine orders by its own.
    /// With rules, each rule gives its criterion; a rule to sort by a field
    /// that the schema does not know, or cannot order by, is passed over. The
    /// chain ends with the document number.
    pub fn get_criteria(&self, ranking_rules: Option<&Vec<RankingRule>>, schema: &Schema) -> (criteria:
        Option<Vec<Criterion>>)
        requires
            schema.wf(),
        ensures
            match ranking_rules {
                Some(rules) => criteria matches Some(chain) && chain@ == criteria_of(rules@, schema),
                None => criteria is None,
            },
    {
        match ranking_rules {
            None => None,
            Some(rules) => {
                let ghost pick = resolve(schema);
                let mut chain: Vec<Criterion> = Vec::new();
                let mut i: usize = 0;
                assert(rules@.take(0) =~= Seq::<RankingRule>::empty());
                while i < rules.len()
                    invariant
                        i <= rules.len(),
                        schema.wf(),
                        pick == resolve(schema),
                        chain@ == rules@.take(i as int).filter_map(pick),
                    decreases rules.len() - i,
                {
                    let criterion = match &rules[i] {
                        RankingRule::Typo => Some(Criterion::Typo),
                        RankingRule::Words => Some(Criterion::Words),
                        RankingRule::Proximity => Some(Criterion::Proximity),
                        RankingRule::Attribute => Some(Criterion::Attribute),
                        RankingRule::WordsPosition => Some(Criterion::WordsPosition),
                        RankingRule::Exactness => Some(Criterion::Exactness),
                        RankingRule::Asc(name) => resolve_sort(schema, name.as_str(), false),
                        RankingRule::Desc(name) => resolve_sort(schema, name.as_str(), true),
                    };
                    proof {
                        rules@.lemma_filter_map_take_succ(pick, i as int);
                        assert(criterion == pick(rules@[i as int]));
                    }
                    if let Some(c) = criterion {
                        chain.push(c);
                    }
                    i += 1;
                }
                assert(rules@.take(rules.len() as int) =~= rules@);
                chain.push(Criterion::DocumentId);
                Some(chain)
            },
        }
    }
}

/// The rules that `get_criteria` passes over, by their numbers in
/// `ranking_rules`, in ascending order: what there is to report of a chain.
pub fn unresolved_rules(ranking_rules: &Vec<RankingRule>, schema: &Schema) -> (numbers: Vec<usize>)
    requires
        schema.wf(),
    ensures
        numbers@ == unresolved(ranking_rules@, schema),
{
    let ghost all = rule_numbers(ranking_rules@);
    let ghost lacking = without_criterion(ranking_rules@, schema);
    let mut numbers: Vec<usize> = Vec::new();
    let mut i: usize = 0;
    proof {
        assert(all.take(0) =~= Seq::<usize>::empty());
        reveal(Seq::filter);
    }
    while i < ranking_rules.len()
        invariant
            i <= ranking_rules.len(),
            schema.wf(),
            all == rule_numbers(ranking_rules@),
            lacking == without_criterion(ranking_rules@, schema),
            numbers@ == all.take(i as int).filter(lacking),
        decreases ranking_rules.len() - i,
    {
        let resolved = match &ranking_rules[i] {
            RankingRule::Asc(name) => resolve_sort(schema, name.as_str(), false).is_some(),
            RankingRule::Desc(name) => resolve_sort(schema, name.as_str(), true).is_some(),
            _ => true,
        };
        proof {
            assert(all.take(i + 1) =~= all.take(i as int).push(i));
            all.take(i as int).lemma_filter_push(i, lacking);
            assert(resolved == !lacking(i));
        }
        if !resolved {
            numbers.push(i);
        }
        i += 1;
    }
    assert(all.take(ranking_rules.len() as int) =~= all);
    numbers
}

} // verus!
