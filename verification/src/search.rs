//! Assembling search results: from ranked documents and their match spans to
//! hits with cropped and highlighted fields.

use vstd::prelude::*;
use indexmap::IndexMap;
use serde_json::Value;
use crate::crop::{crop_document, crop_fields, sorted_matches};
use crate::document::{document_clone, document_entries, named_in, retain_fields};
use crate::emphasis::{
    calculate_highlights, highlighted_entries, skipped_highlights, skipped_in, spans_view,
};
use crate::highlight::Highlight;
use crate::matches::{
    calculate_matches, match_positions, positions_by_name, reported_names, MatchPosition,
    MatchesInfos,
};
use crate::names::{NameMap, NameSet};
use crate::schema::Schema;
use crate::sequences::copy_of;

verus! {

/// A document that the ranking engine found, with the fields fetched for it
/// and the spans that matched the query.
pub struct Candidate {
    pub document: IndexMap<String, Value>,
    pub highlights: Vec<Highlight>,
}

/// One hit of a search.
#[derive(Debug)]
pub struct SearchHit {
    /// The document's fields, as far as they were asked for.
    pub document: IndexMap<String, Value>,
    /// The fields that were cropped or highlighted.
    pub formatted: IndexMap<String, Value>,
    /// Where the query matched, by field name; only where it was asked for.
    pub matches_info: Option<MatchesInfos>,
}

/// The answer to a search.
#[derive(Debug)]
pub struct SearchResult {
    pub hits: Vec<SearchHit>,
    pub offset: usize,
    pub limit: usize,
    pub nb_hits: usize,
    pub exhaustive_nb_hits: bool,
    pub processing_time_ms: usize,
    pub query: String,
}

/// What a search asks for.
pub struct SearchBuilder {
    pub query: String,
    pub offset: usize,
    pub limit: usize,
    /// The fields to crop, each with the context to keep around its match.
    pub attributes_to_crop: Option<NameMap<usize>>,
    /// The fields to hand out; without it, every field that may be shown.
    pub attributes_to_retrieve: Option<NameSet>,
    /// The fields whose matches are to be emphasised.
    pub attributes_to_highlight: Option<NameSet>,
    /// A filter expression, handed on to the engine as it is.
    pub filters: Option<String>,
    /// Whether each hit reports where the query matched.
    pub matches: bool,
}

/// Something that searches can be started on.
pub trait IndexSearchExt {
    /// A search for `query` with nothing else asked: what `SearchBuilder::new`
    /// gives. What the search is started on stays as it is.
    fn new_search(&self, query: String) -> (builder: SearchBuilder)
        ensures
            builder.starts(query),
    ;
}

/// The schema of an index stands for the index: a search can be started on it.
impl IndexSearchExt for Schema {
    fn new_search(&self, query: String) -> (builder: SearchBuilder) {
        SearchBuilder::new(query)
    }
}

/// The filter that a set of names makes, if there is one.
pub open spec fn as_filter(names: &Option<NameSet>) -> Option<&NameSet> {
    match names {
        Some(set) => Some(set),
        None => None,
    }
}

impl SearchBuilder {
    /// The sets and maps of names that the search holds are well formed.
    pub open spec fn wf(&self) -> bool {
        &&& self.attributes_to_crop matches Some(fields) ==> fields.wf()
        &&& self.attributes_to_retrieve matches Some(names) ==> names.wf()
        &&& self.attributes_to_highlight matches Some(names) ==> names.wf()
    }

    /// The names of the fields that go into the formatted part of a hit.
    ///
    /// Where the search names the fields to hand out, these are the fields to
    /// highlight and the fields to crop. Where it does not, they are all the
    /// fields that may be shown, if anything is to be cropped or highlighted,
    /// and none otherwise.
    pub open spec fn formatted_names(&self, schema: &Schema) -> Set<Seq<char>> {
        let highlighted = match self.attributes_to_highlight {
            Some(names) => names@,
            None => Set::empty(),
        };
        let cropped = match self.attributes_to_crop {
            Some(fields) => fields@.dom(),
            None => Set::empty(),
        };
        if self.attributes_to_retrieve is Some {
            highlighted.union(cropped)
        } else if self.attributes_to_highlight is Some || self.attributes_to_crop is Some {
            schema.displayed_names()
        } else {
            Set::empty()
        }
    }

    /// The fields of a hit that are to be formatted, once they are cropped, and
    /// the matches as they stand then.
    ///
    /// The fields named in `formatted_names` are taken from the document. They
    /// are cropped, if the search crops, which sorts the matches and moves them
    /// along.
    pub open spec fn cropped_part(
        &self,
        schema: &Schema,
        entries: Seq<(Seq<char>, Value)>,
        highlights: Seq<Highlight>,
    ) -> (Seq<(Seq<char>, Value)>, Seq<Highlight>) {
        let kept = entries.filter(named_in(self.formatted_names(schema)));
        match self.attributes_to_crop {
            Some(fields) => crop_fields(
                kept,
                sorted_matches(highlights),
                schema,
                fields.names(),
                fields.values(),
                fields.names().len() as int,
            ),
            None => (kept, highlights),
        }
    }

    /// The formatted part of a hit, and the matches as they stand once it is
    /// made: the cropped part, highlighted, if the search highlights, at the
    /// positions that the matches have by then.
    pub open spec fn formatted_part(
        &self,
        schema: &Schema,
        entries: Seq<(Seq<char>, Value)>,
        highlights: Seq<Highlight>,
    ) -> (Seq<(Seq<char>, Value)>, Seq<Highlight>) {
        let (cropped, matches) = self.cropped_part(schema, entries, highlights);
        let formatted = match self.attributes_to_highlight {
            Some(names) => highlighted_entries(
                cropped,
                match_positions(matches, schema, as_filter(&self.attributes_to_highlight)),
                names@,
            ),
            None => cropped,
        };
        (formatted, matches)
    }

    /// The spans that the highlighting of a hit passes over, each under the
    /// name of its field, the fields in the order in which the matches first
    /// name them.
    pub open spec fn passed_over_part(
        &self,
        schema: &Schema,
        entries: Seq<(Seq<char>, Value)>,
        highlights: Seq<Highlight>,
    ) -> Seq<(Seq<char>, MatchPosition)> {
        let (cropped, matches) = self.cropped_part(schema, entries, highlights);
        match self.attributes_to_highlight {
            Some(names) => {
                let filter = as_filter(&self.attributes_to_highlight);
                let reported = reported_names(matches, matches.len() as int, schema, filter);
                skipped_in(
                    cropped,
                    reported,
                    match_positions(matches, schema, filter),
                    names@,
                    reported.len() as int,
                )
            },
            None => Seq::empty(),
        }
    }

    /// The fields of a document that a hit hands out.
    pub open spec fn retrieved_part(&self, entries: Seq<(Seq<char>, Value)>) -> Seq<
        (Seq<char>, Value),
    > {
        match self.attributes_to_retrieve {
            Some(names) => entries.filter(named_in(names@)),
            None => entries,
        }
    }

    /// Whether `hit` is the hit that this search makes of `candidate`.
    pub open spec fn describes(&self, schema: &Schema, candidate: &Candidate, hit: &SearchHit) -> bool {
        let entries = document_entries(candidate.document);
        let (formatted, matches) = self.formatted_part(schema, entries, candidate.highlights@);
        &&& document_entries(hit.document) == self.retrieved_part(entries)
        &&& document_entries(hit.formatted) == formatted
        &&& match hit.matches_info {
            Some(infos) => self.matches && infos.wf() && positions_by_name(&infos)
                == match_positions(matches, schema, as_filter(&self.attributes_to_retrieve)),
            None => !self.matches,
        }
    }

    /// Whether this is the search that starts with `query` and asks nothing
    /// else: the first twenty hits, every field that may be shown, nothing
    /// cropped or highlighted, no filter, no match positions.
    pub open spec fn starts(&self, query: String) -> bool {
        &&& self.wf()
        &&& self.query == query
        &&& self.offset == 0
        &&& self.limit == 20
        &&& self.attributes_to_crop is None
        &&& self.attributes_to_retrieve is None
        &&& self.attributes_to_highlight is None
        &&& self.filters is None
        &&& !self.matches
    }

    /// A search for `query`: the first twenty hits, every field that may be
    /// shown, nothing cropped or highlighted, no filter, no match positions.
    pub fn new(query: String) -> (builder: SearchBuilder)
        ensures
            builder.starts(query),
    {
        SearchBuilder {
            query,
            offset: 0,
            limit: 20,
            attributes_to_crop: None,
            attributes_to_retrieve: None,
            attributes_to_highlight: None,
            filters: None,
            matches: false,
        }
    }

    /// Skips the first `value` hits.
    pub fn offset(&mut self, value: usize) -> (builder: &SearchBuilder)
        ensures
            *final(self) == (SearchBuilder { offset: value, ..*old(self) }),
            *builder == *final(self),
    {
        self.offset = value;
        self
    }

    /// Hands out no more than `value` hits.
    pub fn limit(&mut self, value: usize) -> (builder: &SearchBuilder)
        ensures
            *final(self) == (SearchBuilder { limit: value, ..*old(self) }),
            *builder == *final(self),
    {
        self.limit = value;
        self
    }

    /// Crops the fields of `value`, each to its context.
    pub fn attributes_to_crop(&mut self, value: NameMap<usize>) -> (builder: &SearchBuilder)
        ensures
            *final(self) == (SearchBuilder { attributes_to_crop: Some(value), ..*old(self) }),
            *builder == *final(self),
    {
        self.attributes_to_crop = Some(value);
        self
    }

    /// Hands out the fields of `value` and no others.
    pub fn attributes_to_retrieve(&mut self, value: NameSet) -> (builder: &SearchBuilder)
        ensures
            *final(self) == (SearchBuilder { attributes_to_retrieve: Some(value), ..*old(self) }),
            *builder == *final(self),
    {
        self.attributes_to_retrieve = Some(value);
        self
    }

    /// Hands out the field `value` too. Once a field was added, only the
    /// fields named are handed out.
    pub fn add_retrievable_field(&mut self, value: String) -> (builder: &SearchBuilder)
        requires
            old(self).wf(),
        ensures
            final(self).wf(),
            final(self).attributes_to_retrieve matches Some(names) && names@ == (match old(
                self,
            ).attributes_to_retrieve {
                Some(before) => before@,
                None => Set::empty(),
            }).insert(value@),
            final(self).query == old(self).query,
            final(self).offset == old(self).offset,
            final(self).limit == old(self).limit,
            final(self).attributes_to_crop == old(self).attributes_to_crop,
            final(self).attributes_to_highlight == old(self).attributes_to_highlight,
            final(self).filters == old(self).filters,
            final(self).matches == old(self).matches,
            *builder == *final(self),
    {
        let mut names = match self.attributes_to_retrieve.take() {
            Some(names) => names,
            None => NameSet::new(),
        };
        names.insert(value);
        self.attributes_to_retrieve = Some(names);
        self
    }

    /// Emphasises the matches in the fields of `value`.
    pub fn attributes_to_highlight(&mut self, value: NameSet) -> (builder: &SearchBuilder)
        ensures
            *final(self) == (SearchBuilder { attributes_to_highlight: Some(value), ..*old(self) }),
            *builder == *final(self),
    {
        self.attributes_to_highlight = Some(value);
        self
    }

    /// Hands the filter expression `value` on to the engine.
    pub fn filters(&mut self, value: String) -> (builder: &SearchBuilder)
        ensures
            *final(self) == (SearchBuilder { filters: Some(value), ..*old(self) }),
            *builder == *final(self),
    {
        self.filters = Some(value);
        self
    }

    /// Reports with each hit where the query matched.
    pub fn get_matches(&mut self) -> (builder: &SearchBuilder)
        ensures
            *final(self) == (SearchBuilder { matches: true, ..*old(self) }),
            *builder == *final(self),
    {
        self.matches = true;
        self
    }

    /// The window of ranked documents that the search asks the engine for:
    /// from `offset` up to, but without, `offset + limit`, or up to the
    /// greatest number there is.
    pub fn window(&self) -> (range: (usize, usize))
        ensures
            range.0 == self.offset,
            range.1 == if self.offset + self.limit <= usize::MAX {
                self.offset + self.limit
            } else {
                usize::MAX as int
            },
    {
        if self.limit <= usize::MAX - self.offset {
            (self.offset, self.offset + self.limit)
        } else {
            (self.offset, usize::MAX)
        }
    }

    /// The names of the fields that go into the formatted part of a hit.
    pub fn formatted_attributes(&self, schema: &Schema) -> (names: NameSet)
        requires
            self.wf(),
            schema.wf(),
        ensures
            names.wf(),
            names@ == self.formatted_names(schema),
    {
        if self.attributes_to_retrieve.is_some() {
            let mut names = NameSet::new();
            assert(names@ =~= Set::<Seq<char>>::empty());
            if let Some(highlighted) = &self.attributes_to_highlight {
                let mut i: usize = 0;
                while i < highlighted.len()
                    invariant
                        i <= highlighted.names().len(),
                        names.wf(),
                        names@ == highlighted.names().take(i as int).to_set(),
                    decreases highlighted.names().len() - i,
                {
                    names.insert(highlighted.name(i).to_owned());
                    proof {
                        assert(highlighted.names().take(i + 1) =~= highlighted.names().take(
                            i as int,
                        ).push(highlighted.names()[i as int]));
                        highlighted.names().take(i as int).lemma_push_to_set_commute(
                            highlighted.names()[i as int],
                        );
                    }
                    i += 1;
                }
                assert(highlighted.names().take(highlighted.names().len() as int)
                    =~= highlighted.names());
            }
            let ghost first = names@;
            if let Some(cropped) = &self.attributes_to_crop {
                let mut i: usize = 0;
                assert(first.union(cropped.names().take(0).to_set()) =~= first);
                while i < cropped.len()
                    invariant
                        i <= cropped.names().len(),
                        names.wf(),
                        names@ == first.union(cropped.names().take(i as int).to_set()),
                    decreases cropped.names().len() - i,
                {
                    names.insert(cropped.name(i).to_owned());
                    proof {
                        assert(cropped.names().take(i + 1) =~= cropped.names().take(i as int).push(
                            cropped.names()[i as int],
                        ));
                        cropped.names().take(i as int).lemma_push_to_set_commute(
                            cropped.names()[i as int],
                        );
                        assert(names@ =~= first.union(cropped.names().take(i + 1).to_set()));
                    }
                    i += 1;
                }
                assert(cropped.names().take(cropped.names().len() as int) =~= cropped.names());
                assert(cropped@.dom() =~= cropped.names().to_set());
            } else {
                assert(first.union(Set::<Seq<char>>::empty()) =~= first);
            }
            names
        } else if self.attributes_to_highlight.is_some() || self.attributes_to_crop.is_some() {
            schema.displayed_name()
        } else {
            let names = NameSet::new();
            assert(names@ =~= Set::<Seq<char>>::empty());
            names
        }
    }

    /// The fields of `candidate` that are to be formatted, cropped, and its
    /// matches as they stand then.
    fn cropped(&self, schema: &Schema, formatted_names: &NameSet, candidate: &Candidate) -> (part: (
        IndexMap<String, Value>,
        Vec<Highlight>,
    ))
        requires
            self.wf(),
            schema.wf(),
            formatted_names@ == self.formatted_names(schema),
        ensures
            (document_entries(part.0), part.1@) == self.cropped_part(
                schema,
                document_entries(candidate.document),
                candidate.highlights@,
            ),
    {
        let mut formatted = retain_fields(&candidate.document, formatted_names);
        let mut matches = copy_of(&candidate.highlights);
        if let Some(fields) = &self.attributes_to_crop {
            crop_document(&mut formatted, &mut matches, schema, fields);
        }
        (formatted, matches)
    }

    /// The hit that the search makes of `candidate`.
    pub fn hit(&self, schema: &Schema, formatted_names: &NameSet, candidate: &Candidate) -> (hit:
        SearchHit)
        requires
            self.wf(),
            schema.wf(),
            formatted_names@ == self.formatted_names(schema),
        ensures
            self.describes(schema, candidate, &hit),
    {
        let (mut formatted, matches) = self.cropped(schema, formatted_names, candidate);
        if let Some(names) = &self.attributes_to_highlight {
            let infos = calculate_matches(&matches, Some(names), schema);
            formatted = calculate_highlights(&formatted, &infos, names);
        }
        let matches_info = if self.matches {
            Some(calculate_matches(&matches, self.attributes_to_retrieve.as_ref(), schema))
        } else {
            None
        };
        let document = match &self.attributes_to_retrieve {
            Some(names) => retain_fields(&candidate.document, names),
            None => document_clone(&candidate.document),
        };
        SearchHit { document, formatted, matches_info }
    }

    /// The spans that the highlighting of `candidate`'s hit passes over, each
    /// under the name of its field: what there is to report of the hit.
    pub fn skipped_highlights(
        &self,
        schema: &Schema,
        formatted_names: &NameSet,
        candidate: &Candidate,
    ) -> (passed: Vec<(String, MatchPosition)>)
        requires
            self.wf(),
            schema.wf(),
            formatted_names@ == self.formatted_names(schema),
        ensures
            spans_view(passed@) == self.passed_over_part(
                schema,
                document_entries(candidate.document),
                candidate.highlights@,
            ),
    {
        let (formatted, matches) = self.cropped(schema, formatted_names, candidate);
        match &self.attributes_to_highlight {
            Some(names) => {
                let infos = calculate_matches(&matches, Some(names), schema);
                skipped_highlights(&formatted, &infos, names)
            },
            None => {
                let passed: Vec<(String, MatchPosition)> = Vec::new();
                assert(spans_view(passed@) =~= Seq::<(Seq<char>, MatchPosition)>::empty());
                passed
            },
        }
    }

    /// The answer to the search, made of what the engine found.
    ///
    /// `candidates` are the documents of the window asked for, in their rank;
    /// `nb_hits` is the engine's count of all hits, and `processing_time_ms`
    /// the time the engine took. Each candidate becomes the hit that
    /// `describes` states, in the same order.
    pub fn search(
        &self,
        schema: &Schema,
        candidates: &Vec<Candidate>,
        nb_hits: usize,
        processing_time_ms: usize,
    ) -> (result: SearchResult)
        requires
            self.wf(),
            schema.wf(),
        ensures
            result.hits@.len() == candidates@.len(),
            forall|i: int|
                0 <= i < candidates@.len() ==> self.describes(
                    schema,
                    &candidates@[i],
                    &#[trigger] result.hits@[i],
                ),
            result.offset == self.offset,
            result.limit == self.limit,
            result.nb_hits == nb_hits,
            !result.exhaustive_nb_hits,
            result.processing_time_ms == processing_time_ms,
            result.query@ == self.query@,
    {
        let formatted_names = self.formatted_attributes(schema);
        let mut hits: Vec<SearchHit> = Vec::new();
        let mut i: usize = 0;
        while i < candidates.len()
            invariant
                i <= candidates.len(),
                self.wf(),
                schema.wf(),
                formatted_names@ == self.formatted_names(schema),
                hits@.len() == i,
                forall|k: int|
                    0 <= k < i ==> self.describes(schema, &candidates@[k], &#[trigger] hits@[k]),
            decreases candidates.len() - i,
        {
            let hit = self.hit(schema, &formatted_names, &candidates[i]);
            hits.push(hit);
            i += 1;
        }
        SearchResult {
            hits,
            offset: self.offset,
            limit: self.limit,
            nb_hits,
            exhaustive_nb_hits: false,
            processing_time_ms,
            query: self.query.clone(),
        }
    }
}

} // verus!
