//! The dictionary engine: builds the completion and lookup indices from
//! catalogs, and answers fuzzy completion and exact lookup queries.
use nucleo_matcher::pattern::{CaseMatching, Normalization, Pattern};
use vstd::prelude::*;
use crate::catalog::{catalog_entries, entries_view, parse_catalogs, DictionaryEntry, EntryModel};
use crate::normalize::{
    completion_form, normalize_for_auto_completion, normalize_for_query, query_form,
};
use crate::posting::{
    add_ref, find_key, lemma_add_ref, lemma_find_key, posting_of, IndexEntry, PostingMap,
};
use crate::ranking::{
    lemma_ranked_sort_members, ranked_sort, sort_ranked, ScoreableEntry,
};
use crate::text::{is_ascii_text, text_is_ascii};

verus! {

// ---------------------------------------------------------------- model

/// The positions of entry `i` with `n` aliases: the canonical key, then each alias.
pub open spec fn entry_refs(i: int, n: int) -> Seq<IndexEntry> {
    Seq::new(
        (n + 1) as nat,
        |p: int|
            IndexEntry {
                index: i as usize,
                alias_index: if p == 0 {
                    None
                } else {
                    Some((p - 1) as usize)
                },
            },
    )
}

/// The positions of the first `i` entries, in order.
pub open spec fn refs_upto(es: Seq<EntryModel>, i: int) -> Seq<IndexEntry>
    decreases i,
{
    if i <= 0 {
        Seq::empty()
    } else {
        refs_upto(es, i - 1) + entry_refs(i - 1, es[i - 1].aliases.len() as int)
    }
}

/// Every position of the dictionary, in order.
pub open spec fn all_refs(es: Seq<EntryModel>) -> Seq<IndexEntry> {
    refs_upto(es, es.len() as int)
}

/// Whether `r` points at an entry, and at one of its aliases where it names one.
pub open spec fn valid_ref(es: Seq<EntryModel>, r: IndexEntry) -> bool {
    &&& r.index < es.len()
    &&& (r.alias_index matches Some(j) ==> j < es[r.index as int].aliases.len())
}

/// The spelling that a position designates.
pub open spec fn source_of(es: Seq<EntryModel>, r: IndexEntry) -> Seq<char> {
    match r.alias_index {
        None => es[r.index as int].key,
        Some(j) => es[r.index as int].aliases[j as int],
    }
}

/// The key under which a position is indexed: its completion form in the
/// completion index, its query form in the lookup index.
pub open spec fn index_key(es: Seq<EntryModel>, r: IndexEntry, completion: bool) -> Seq<char> {
    if completion {
        completion_form(source_of(es, r))
    } else {
        query_form(source_of(es, r))
    }
}

/// The posting map that indexing the positions `rs` in order gives.
pub open spec fn build_index(es: Seq<EntryModel>, rs: Seq<IndexEntry>, completion: bool) -> Seq<
    (Seq<char>, Seq<IndexEntry>),
>
    decreases rs.len(),
{
    if rs.len() == 0 {
        Seq::empty()
    } else {
        add_ref(
            build_index(es, rs.drop_last(), completion),
            index_key(es, rs.last(), completion),
            rs.last(),
        )
    }
}

/// The sort key of a position in a posting list.
pub open spec fn entry_rank(es: Seq<EntryModel>, r: IndexEntry) -> ScoreableEntry {
    ScoreableEntry {
        index: r.index,
        is_canonical: r.alias_index is None,
        count: es[r.index as int].count as i64,
    }
}

pub open spec fn ranked_refs(es: Seq<EntryModel>, l: Seq<IndexEntry>) -> Seq<
    (ScoreableEntry, IndexEntry),
> {
    l.map_values(|r: IndexEntry| (entry_rank(es, r), r))
}

/// A posting list sorted by popularity.
pub open spec fn sort_posting(es: Seq<EntryModel>, l: Seq<IndexEntry>) -> Seq<IndexEntry> {
    ranked_sort(ranked_refs(es, l)).map_values(|x: (ScoreableEntry, IndexEntry)| x.1)
}

/// A posting map with each list sorted by popularity.
pub open spec fn sorted_index(es: Seq<EntryModel>, m: Seq<(Seq<char>, Seq<IndexEntry>)>) -> Seq<
    (Seq<char>, Seq<IndexEntry>),
> {
    m.map_values(|p: (Seq<char>, Seq<IndexEntry>)| (p.0, sort_posting(es, p.1)))
}

/// The sum of the counts of the entries that a list points at.
pub open spec fn count_sum(es: Seq<EntryModel>, l: Seq<IndexEntry>) -> int
    decreases l.len(),
{
    if l.len() == 0 {
        0
    } else {
        count_sum(es, l.drop_last()) + es[l.last().index as int].count
    }
}

pub open spec fn has_canonical(l: Seq<IndexEntry>) -> bool {
    exists|i: int| 0 <= i < l.len() && (#[trigger] l[i]).alias_index is None
}

/// The lowest entry index in a list (0 for the empty list).
pub open spec fn min_index(l: Seq<IndexEntry>) -> int
    decreases l.len(),
{
    if l.len() == 0 {
        0
    } else if l.len() == 1 {
        l[0].index as int
    } else {
        let m = min_index(l.drop_last());
        if l.last().index < m {
            l.last().index as int
        } else {
            m
        }
    }
}

pub open spec fn clamp_i64(x: int) -> i64 {
    if x > i64::MAX {
        i64::MAX
    } else if x < i64::MIN {
        i64::MIN
    } else {
        x as i64
    }
}

/// The score of a haystack key from its posting list: the summed count, whether
/// any position is canonical, and the lowest entry index.
pub open spec fn key_score(es: Seq<EntryModel>, l: Seq<IndexEntry>) -> ScoreableEntry {
    ScoreableEntry {
        index: min_index(l) as usize,
        is_canonical: has_canonical(l),
        count: clamp_i64(count_sum(es, l)),
    }
}

/// The keys of `m` whose ASCII-ness is `ascii`, scored, each with its position in `m`.
pub open spec fn scored_keys(
    es: Seq<EntryModel>,
    m: Seq<(Seq<char>, Seq<IndexEntry>)>,
    ascii: bool,
) -> Seq<(ScoreableEntry, usize)>
    decreases m.len(),
{
    if m.len() == 0 {
        Seq::empty()
    } else {
        let rest = scored_keys(es, m.drop_last(), ascii);
        let t = m.len() - 1;
        if is_ascii_text(m[t].0) == ascii {
            rest.push((key_score(es, m[t].1), t as usize))
        } else {
            rest
        }
    }
}

/// A haystack: the keys of `m` whose ASCII-ness is `ascii`, sorted by score.
pub open spec fn haystack_of(
    es: Seq<EntryModel>,
    m: Seq<(Seq<char>, Seq<IndexEntry>)>,
    ascii: bool,
) -> Seq<Seq<char>> {
    ranked_sort(scored_keys(es, m, ascii)).map_values(|x: (ScoreableEntry, usize)| m[x.1 as int].0)
}

/// What an engine holds.
pub struct EngineModel {
    pub entries: Seq<EntryModel>,
    pub completion: Seq<(Seq<char>, Seq<IndexEntry>)>,
    pub query: Seq<(Seq<char>, Seq<IndexEntry>)>,
    pub ascii: Seq<Seq<char>>,
    pub non_ascii: Seq<Seq<char>>,
}

/// The engine that a sequence of catalog texts builds.
pub open spec fn engine_model(blobs: Seq<Seq<char>>) -> EngineModel {
    let es = catalog_entries(blobs);
    let c = sorted_index(es, build_index(es, all_refs(es), true));
    EngineModel {
        entries: es,
        completion: c,
        query: build_index(es, all_refs(es), false),
        ascii: haystack_of(es, c, true),
        non_ascii: haystack_of(es, c, false),
    }
}

/// Whether every posting list of `m` holds valid positions, each indexed under
/// the key of its list.
pub open spec fn index_ok(
    es: Seq<EntryModel>,
    m: Seq<(Seq<char>, Seq<IndexEntry>)>,
    completion: bool,
) -> bool {
    forall|t: int, i: int|
        0 <= t < m.len() && 0 <= i < m[t].1.len() ==> valid_ref(es, #[trigger] m[t].1[i])
            && index_key(es, m[t].1[i], completion) == m[t].0
}

// ---------------------------------------------------------------- lemmas

pub proof fn lemma_refs_valid(es: Seq<EntryModel>, i: int)
    requires
        0 <= i <= es.len(),
        es.len() <= usize::MAX,
        forall|k: int| 0 <= k < es.len() ==> (#[trigger] es[k]).aliases.len() <= usize::MAX,
    ensures
        forall|k: int| 0 <= k < refs_upto(es, i).len() ==> valid_ref(es, #[trigger] refs_upto(es, i)[k]),
    decreases i,
{
    if i > 0 {
        lemma_refs_valid(es, i - 1);
        let a = refs_upto(es, i - 1);
        let b = entry_refs(i - 1, es[i - 1].aliases.len() as int);
        assert forall|k: int| 0 <= k < (a + b).len() implies valid_ref(es, #[trigger] (a + b)[k]) by {
            if k >= a.len() {
                assert((a + b)[k] == b[k - a.len()]);
            }
        }
    }
}

proof fn lemma_build_index_ok(es: Seq<EntryModel>, rs: Seq<IndexEntry>, completion: bool)
    requires
        forall|k: int| 0 <= k < rs.len() ==> valid_ref(es, #[trigger] rs[k]),
    ensures
        index_ok(es, build_index(es, rs, completion), completion),
        crate::posting::keys_unique(build_index(es, rs, completion)),
    decreases rs.len(),
{
    if rs.len() > 0 {
        let prev = rs.drop_last();
        assert forall|k: int| 0 <= k < prev.len() implies valid_ref(es, #[trigger] prev[k]) by {
            assert(prev[k] == rs[k]);
        }
        lemma_build_index_ok(es, prev, completion);
        let m = build_index(es, prev, completion);
        let key = index_key(es, rs.last(), completion);
        lemma_find_key(m, key);
        lemma_add_ref(m, key, rs.last());
        let r = add_ref(m, key, rs.last());
        assert(valid_ref(es, rs[rs.len() - 1]));
        assert forall|t: int, i: int| 0 <= t < r.len() && 0 <= i < r[t].1.len() implies valid_ref(
            es,
            #[trigger] r[t].1[i],
        ) && index_key(es, r[t].1[i], completion) == r[t].0 by {
            if t < m.len() && t != find_key(m, key) {
                assert(r[t] == m[t]);
            } else if t < m.len() {
                if i < m[t].1.len() {
                    assert(r[t].1[i] == m[t].1[i]);
                }
            }
        }
    }
}

/// A sorted list holds what the list held.
pub proof fn lemma_sort_posting_members(es: Seq<EntryModel>, l: Seq<IndexEntry>)
    ensures
        sort_posting(es, l).len() == l.len(),
        forall|i: int| 0 <= i < l.len() ==> l.contains(#[trigger] sort_posting(es, l)[i]),
        forall|r: IndexEntry| l.contains(r) ==> sort_posting(es, l).contains(r),
{
    let rr = ranked_refs(es, l);
    lemma_ranked_sort_members(rr);
    let s = ranked_sort(rr);
    assert forall|i: int| 0 <= i < l.len() implies l.contains(#[trigger] sort_posting(es, l)[i]) by {
        assert(rr.contains(s[i]));
        let k = choose|k: int| 0 <= k < rr.len() && rr[k] == s[i];
        assert(l[k] == s[i].1);
    }
    assert forall|r: IndexEntry| l.contains(r) implies sort_posting(es, l).contains(r) by {
        let k = choose|k: int| 0 <= k < l.len() && l[k] == r;
        assert(rr[k] == (entry_rank(es, r), r));
        assert(rr.contains(rr[k]));
        assert(s.contains(rr[k]));
        let j = choose|j: int| 0 <= j < s.len() && s[j] == rr[k];
        assert(sort_posting(es, l)[j] == r);
    }
}

proof fn lemma_sorted_index_ok(es: Seq<EntryModel>, m: Seq<(Seq<char>, Seq<IndexEntry>)>)
    requires
        index_ok(es, m, true),
    ensures
        index_ok(es, sorted_index(es, m), true),
{
    let s = sorted_index(es, m);
    assert forall|t: int, i: int| 0 <= t < s.len() && 0 <= i < s[t].1.len() implies valid_ref(
        es,
        #[trigger] s[t].1[i],
    ) && index_key(es, s[t].1[i], true) == s[t].0 by {
        lemma_sort_posting_members(es, m[t].1);
        let k = choose|k: int| 0 <= k < m[t].1.len() && m[t].1[k] == s[t].1[i];
        assert(valid_ref(es, m[t].1[k]));
    }
}

pub proof fn lemma_scored_keys_positions(
    es: Seq<EntryModel>,
    m: Seq<(Seq<char>, Seq<IndexEntry>)>,
    ascii: bool,
)
    requires
        m.len() <= usize::MAX,
    ensures
        forall|i: int|
            0 <= i < scored_keys(es, m, ascii).len() ==> {
                let x = #[trigger] scored_keys(es, m, ascii)[i];
                &&& x.1 < m.len()
                &&& x.0 == key_score(es, m[x.1 as int].1)
                &&& is_ascii_text(m[x.1 as int].0) == ascii
            },
    decreases m.len(),
{
    if m.len() > 0 {
        lemma_scored_keys_positions(es, m.drop_last(), ascii);
        let rest = scored_keys(es, m.drop_last(), ascii);
        assert forall|i: int| 0 <= i < rest.len() implies (#[trigger] rest[i]).1 < m.len() - 1 && m[
        rest[i].1 as int] == m.drop_last()[rest[i].1 as int] by {}
    }
}

/// Every item of a sorted haystack comes from the unsorted items.
pub proof fn lemma_haystack_positions(
    es: Seq<EntryModel>,
    m: Seq<(Seq<char>, Seq<IndexEntry>)>,
    ascii: bool,
)
    requires
        m.len() <= usize::MAX,
    ensures
        forall|i: int|
            0 <= i < ranked_sort(scored_keys(es, m, ascii)).len() ==> {
                let x = #[trigger] ranked_sort(scored_keys(es, m, ascii))[i];
                &&& x.1 < m.len()
                &&& x.0 == key_score(es, m[x.1 as int].1)
                &&& is_ascii_text(m[x.1 as int].0) == ascii
            },
{
    let s = scored_keys(es, m, ascii);
    lemma_scored_keys_positions(es, m, ascii);
    lemma_ranked_sort_members(s);
    assert forall|i: int| 0 <= i < ranked_sort(s).len() implies {
        let x = #[trigger] ranked_sort(s)[i];
        &&& x.1 < m.len()
        &&& x.0 == key_score(es, m[x.1 as int].1)
        &&& is_ascii_text(m[x.1 as int].0) == ascii
    } by {
        assert(s.contains(ranked_sort(s)[i]));
    }
}

// ---------------------------------------------------------------- results

/// One completion candidate.
#[derive(Clone, Debug)]
pub struct CompletionResultEntry {
    pub term: String,
    pub canonical_key: String,
    pub is_canonical: bool,
    pub category: i32,
    pub count: i32,
    pub score: u32,
    pub aliases: Vec<String>,
}

pub struct CompletionModel {
    pub term: Seq<char>,
    pub canonical_key: Seq<char>,
    pub is_canonical: bool,
    pub category: i32,
    pub count: i32,
    pub score: u32,
    pub aliases: Seq<Seq<char>>,
}

impl View for CompletionResultEntry {
    type V = CompletionModel;

    open spec fn view(&self) -> CompletionModel {
        CompletionModel {
            term: self.term@,
            canonical_key: self.canonical_key@,
            is_canonical: self.is_canonical,
            category: self.category,
            count: self.count,
            score: self.score,
            aliases: self.aliases.deep_view(),
        }
    }
}

/// One entry that an exact lookup found.
#[derive(Debug)]
pub struct QueryResultEntryValue {
    pub term: String,
    pub canonical_key: String,
    pub is_canonical: bool,
    pub category: i32,
    pub count: i32,
    pub aliases: Vec<String>,
}

pub struct QueryModel {
    pub term: Seq<char>,
    pub canonical_key: Seq<char>,
    pub is_canonical: bool,
    pub category: i32,
    pub count: i32,
    pub aliases: Seq<Seq<char>>,
}

impl View for QueryResultEntryValue {
    type V = QueryModel;

    open spec fn view(&self) -> QueryModel {
        QueryModel {
            term: self.term@,
            canonical_key: self.canonical_key@,
            is_canonical: self.is_canonical,
            category: self.category,
            count: self.count,
            aliases: self.aliases.deep_view(),
        }
    }
}

/// A looked-up word with the entries found for it.
#[derive(Debug)]
pub struct QueryResultEntry(pub String, pub Vec<QueryResultEntryValue>);

/// The completion record of a position, carrying the scorer's score.
pub open spec fn completion_record(es: Seq<EntryModel>, r: IndexEntry, score: u32) -> CompletionModel {
    CompletionModel {
        term: source_of(es, r),
        canonical_key: es[r.index as int].key,
        is_canonical: r.alias_index is None,
        category: es[r.index as int].category,
        count: es[r.index as int].count,
        score,
        aliases: es[r.index as int].aliases,
    }
}

/// The lookup record of a position.
pub open spec fn query_record(es: Seq<EntryModel>, r: IndexEntry) -> QueryModel {
    QueryModel {
        term: source_of(es, r),
        canonical_key: es[r.index as int].key,
        is_canonical: r.alias_index is None,
        category: es[r.index as int].category,
        count: es[r.index as int].count,
        aliases: es[r.index as int].aliases,
    }
}

pub open spec fn completion_views(v: Seq<CompletionResultEntry>) -> Seq<CompletionModel> {
    v.map_values(|c: CompletionResultEntry| c@)
}

pub open spec fn query_views(v: Seq<QueryResultEntryValue>) -> Seq<QueryModel> {
    v.map_values(|c: QueryResultEntryValue| c@)
}

/// The records of one scored candidate: its posting list, in order.
pub open spec fn candidate_records(m: EngineModel, c: (Seq<char>, u32)) -> Seq<CompletionModel> {
    posting_of(m.completion, c.0).map_values(|r: IndexEntry| completion_record(m.entries, r, c.1))
}

/// The records of a sequence of scored candidates, candidate after candidate.
pub open spec fn expansion(m: EngineModel, ms: Seq<(Seq<char>, u32)>) -> Seq<CompletionModel>
    decreases ms.len(),
{
    if ms.len() == 0 {
        Seq::empty()
    } else {
        expansion(m, ms.drop_last()) + candidate_records(m, ms.last())
    }
}

/// The first `n` records where a limit `n` is given.
pub open spec fn limited(s: Seq<CompletionModel>, max: Option<usize>) -> Seq<CompletionModel> {
    match max {
        Some(n) => if s.len() > n {
            s.take(n as int)
        } else {
            s
        },
        None => s,
    }
}

/// Whether a search takes in the non-ASCII haystack too.
pub open spec fn searches_non_ascii(query: Seq<char>, force: Option<bool>) -> bool {
    match force {
        Some(b) => b,
        None => !is_ascii_text(completion_form(query)),
    }
}

/// The keys that a search hands to the scorer: the ASCII haystack, then the
/// non-ASCII one where it is searched too.
pub open spec fn searched_keys(m: EngineModel, non_ascii: bool) -> Seq<Seq<char>> {
    if non_ascii {
        m.ascii + m.non_ascii
    } else {
        m.ascii
    }
}

proof fn lemma_expansion_prefix(m: EngineModel, ms: Seq<(Seq<char>, u32)>, a: int)
    requires
        0 <= a <= ms.len(),
    ensures
        expansion(m, ms.take(a)).len() <= expansion(m, ms).len(),
        expansion(m, ms).take(expansion(m, ms.take(a)).len() as int) == expansion(m, ms.take(a)),
    decreases ms.len(),
{
    if a == ms.len() {
        assert(ms.take(a) =~= ms);
        assert(expansion(m, ms).take(expansion(m, ms).len() as int) =~= expansion(m, ms));
    } else {
        lemma_expansion_prefix(m, ms.drop_last(), a);
        assert(ms.drop_last().take(a) =~= ms.take(a));
        let e = expansion(m, ms.take(a));
        assert(expansion(m, ms).take(e.len() as int) =~= expansion(m, ms.drop_last()).take(
            e.len() as int,
        ));
    }
}

// ---------------------------------------------------------------- outside

#[verifier::external_type_specification]
#[verifier::external_body]
pub struct ExMatcher(nucleo_matcher::Matcher);

/// Relies on `nucleo_matcher::Matcher::new`, with the default configuration and
/// the prefix bonus switched off.
#[verifier::external_body]
fn new_matcher() -> nucleo_matcher::Matcher {
    let mut config = nucleo_matcher::Config::DEFAULT;
    config.prefer_prefix = false;
    nucleo_matcher::Matcher::new(config)
}

/// What the scorer makes of a pattern and a sequence of keys: the matching keys
/// with their scores, best first.
pub uninterp spec fn fuzzy_matches_of(query: Seq<char>, keys: Seq<Seq<char>>) -> Seq<(Seq<char>, u32)>;

pub open spec fn match_views(v: Seq<(String, u32)>) -> Seq<(Seq<char>, u32)> {
    v.map_values(|p: (String, u32)| (p.0@, p.1))
}

/// Relies on `nucleo_matcher::pattern::Pattern::parse` (smart case matching,
/// smart normalization) and `Pattern::match_list` over `first` then `second`:
/// the result depends on the pattern text and the keys alone, and holds only
/// keys that were handed in.
#[verifier::external_body]
fn match_candidates(
    matcher: &mut nucleo_matcher::Matcher,
    query: &str,
    first: &Vec<String>,
    second: &Vec<String>,
) -> (r: Vec<(String, u32)>)
    ensures
        match_views(r@) == fuzzy_matches_of(query@, first.deep_view() + second.deep_view()),
        forall|i: int|
            0 <= i < r@.len() ==> (first.deep_view() + second.deep_view()).contains(
                (#[trigger] r@[i]).0@,
            ),
{
    let pattern = Pattern::parse(query, CaseMatching::Smart, Normalization::Smart);
    let found = pattern.match_list(first.iter().chain(second.iter()), matcher);
    found.into_iter().map(|(key, score)| (key.clone(), score)).collect()
}

// ---------------------------------------------------------------- engine

/// The engine: the dictionary, a completion index and a lookup index, and the
/// two completion haystacks (ASCII keys, other keys).
pub struct DictionaryEngine {
    dictionary: Vec<DictionaryEntry>,
    completion_haystack_ascii: Vec<String>,
    completion_haystack_non_ascii: Vec<String>,
    completion_map: PostingMap,
    query_map: PostingMap,
    nucleo_matcher: nucleo_matcher::Matcher,
}

impl View for DictionaryEngine {
    type V = EngineModel;

    closed spec fn view(&self) -> EngineModel {
        EngineModel {
            entries: entries_view(self.dictionary@),
            completion: self.completion_map@,
            query: self.query_map@,
            ascii: self.completion_haystack_ascii.deep_view(),
            non_ascii: self.completion_haystack_non_ascii.deep_view(),
        }
    }
}

impl DictionaryEngine {
    /// The engine's invariant: every posting list holds valid positions indexed
    /// under its key, and each haystack key is ASCII exactly in the ASCII haystack.
    pub closed spec fn wf(&self) -> bool {
        let m = self@;
        &&& self.completion_map.wf()
        &&& self.query_map.wf()
        &&& index_ok(m.entries, m.completion, true)
        &&& index_ok(m.entries, m.query, false)
        &&& forall|i: int| 0 <= i < m.ascii.len() ==> is_ascii_text(#[trigger] m.ascii[i])
        &&& forall|i: int| 0 <= i < m.non_ascii.len() ==> !is_ascii_text(#[trigger] m.non_ascii[i])
    }
}

proof fn lemma_haystack_ascii(
    es: Seq<EntryModel>,
    m: Seq<(Seq<char>, Seq<IndexEntry>)>,
    ascii: bool,
)
    requires
        m.len() <= usize::MAX,
    ensures
        forall|i: int|
            0 <= i < haystack_of(es, m, ascii).len() ==> is_ascii_text(
                #[trigger] haystack_of(es, m, ascii)[i],
            ) == ascii,
{
    lemma_haystack_positions(es, m, ascii);
    let s = ranked_sort(scored_keys(es, m, ascii));
    assert forall|i: int| 0 <= i < haystack_of(es, m, ascii).len() implies is_ascii_text(
        #[trigger] haystack_of(es, m, ascii)[i],
    ) == ascii by {
        assert(s[i].1 < m.len());
    }
}

/// Indexes every spelling of every entry, in dictionary order.
fn index_dictionary(dictionary: &Vec<DictionaryEntry>) -> (r: (PostingMap, PostingMap))
    ensures
        r.0.wf(),
        r.1.wf(),
        r.0@ == build_index(entries_view(dictionary@), all_refs(entries_view(dictionary@)), true),
        r.1@ == build_index(entries_view(dictionary@), all_refs(entries_view(dictionary@)), false),
{
    let ghost es = entries_view(dictionary@);
    let mut cmap = PostingMap::new();
    let mut qmap = PostingMap::new();
    let mut i: usize = 0;
    while i < dictionary.len()
        invariant
            i <= dictionary@.len(),
            es == entries_view(dictionary@),
            cmap.wf(),
            qmap.wf(),
            cmap@ == build_index(es, refs_upto(es, i as int), true),
            qmap@ == build_index(es, refs_upto(es, i as int), false),
        decreases dictionary.len() - i,
    {
        let entry = &dictionary[i];
        let ghost na = entry.aliases@.len() as int;
        let ghost done = refs_upto(es, i as int);
        let ghost here = entry_refs(i as int, na);
        assert(es[i as int] == entry@);
        let e = IndexEntry { index: i, alias_index: None };
        proof {
            assert(here[0] == e);
            assert((done + here.take(1)).drop_last() =~= done);
        }
        cmap.add(normalize_for_auto_completion(entry.key.as_str()), e);
        qmap.add(normalize_for_query(entry.key.as_str()), e);
        let mut j: usize = 0;
        while j < entry.aliases.len()
            invariant
                i < dictionary@.len(),
                j <= entry.aliases@.len(),
                entry == &dictionary@[i as int],
                na == entry.aliases@.len(),
                es == entries_view(dictionary@),
                done == refs_upto(es, i as int),
                here == entry_refs(i as int, na),
                cmap.wf(),
                qmap.wf(),
                cmap@ == build_index(es, done + here.take(j + 1), true),
                qmap@ == build_index(es, done + here.take(j + 1), false),
            decreases entry.aliases.len() - j,
        {
            let e = IndexEntry { index: i, alias_index: Some(j) };
            proof {
                assert(here[j + 1] == e);
                assert((done + here.take(j + 2)).drop_last() =~= done + here.take(j + 1));
                assert(es[i as int].aliases[j as int] == entry.aliases@[j as int]@);
            }
            cmap.add(normalize_for_auto_completion(entry.aliases[j].as_str()), e);
            qmap.add(normalize_for_query(entry.aliases[j].as_str()), e);
            j = j + 1;
        }
        proof {
            assert(here.take(j + 1) =~= here);
        }
        i = i + 1;
    }
    (cmap, qmap)
}


/// A posting list sorted by popularity.
fn sort_posting_list(dictionary: &Vec<DictionaryEntry>, l: &Vec<IndexEntry>) -> (r: Vec<IndexEntry>)
    requires
        forall|i: int| 0 <= i < l@.len() ==> valid_ref(entries_view(dictionary@), #[trigger] l@[i]),
    ensures
        r@ == sort_posting(entries_view(dictionary@), l@),
{
    let ghost es = entries_view(dictionary@);
    let mut items: Vec<(ScoreableEntry, IndexEntry)> = Vec::new();
    let mut i: usize = 0;
    while i < l.len()
        invariant
            i <= l@.len(),
            es == entries_view(dictionary@),
            forall|k: int| 0 <= k < l@.len() ==> valid_ref(es, #[trigger] l@[k]),
            items@ == ranked_refs(es, l@.take(i as int)),
        decreases l.len() - i,
    {
        let r = l[i];
        assert(valid_ref(es, l@[i as int]));
        let rank = ScoreableEntry {
            index: r.index,
            is_canonical: r.alias_index.is_none(),
            count: dictionary[r.index].count as i64,
        };
        items.push((rank, r));
        i = i + 1;
        assert(items@ =~= ranked_refs(es, l@.take(i as int)));
    }
    assert(l@.take(i as int) =~= l@);
    let sorted = sort_ranked(items);
    let mut out: Vec<IndexEntry> = Vec::new();
    let mut k: usize = 0;
    while k < sorted.len()
        invariant
            k <= sorted@.len(),
            out@ == sorted@.take(k as int).map_values(|x: (ScoreableEntry, IndexEntry)| x.1),
        decreases sorted.len() - k,
    {
        out.push(sorted[k].1);
        k = k + 1;
        assert(out@ =~= sorted@.take(k as int).map_values(|x: (ScoreableEntry, IndexEntry)| x.1));
    }
    assert(sorted@.take(k as int) =~= sorted@);
    out
}

fn clone_string(s: &String) -> (r: String)
    ensures
        r@ == s@,
{
    s.clone()
}

/// The completion index with every posting list sorted by popularity.
fn sort_index(dictionary: &Vec<DictionaryEntry>, m: PostingMap) -> (r: PostingMap)
    requires
        m.wf(),
        index_ok(entries_view(dictionary@), m@, true),
    ensures
        r.wf(),
        r@ == sorted_index(entries_view(dictionary@), m@),
{
    let ghost es = entries_view(dictionary@);
    let ghost orig = m@;
    let mut m = m;
    let mut t: usize = 0;
    while t < m.len()
        invariant
            t <= orig.len(),
            m@.len() == orig.len(),
            m.wf(),
            es == entries_view(dictionary@),
            index_ok(es, orig, true),
            m@ == sorted_index(es, orig.take(t as int)) + orig.skip(t as int),
        decreases orig.len() - t,
    {
        assert(m@[t as int] == orig[t as int]);
        let l = m.list_at(t);
        assert forall|i: int| 0 <= i < l@.len() implies valid_ref(es, #[trigger] l@[i]) by {
            assert(valid_ref(es, orig[t as int].1[i]));
        }
        let sorted = sort_posting_list(dictionary, l);
        m.replace_list(t, sorted);
        t = t + 1;
        assert(m@ =~= sorted_index(es, orig.take(t as int)) + orig.skip(t as int));
    }
    assert(orig.take(t as int) =~= orig);
    assert(m@ =~= sorted_index(es, orig));
    m
}

/// The score of a haystack key from its posting list.
fn score_key(dictionary: &Vec<DictionaryEntry>, l: &Vec<IndexEntry>) -> (r: ScoreableEntry)
    requires
        forall|i: int| 0 <= i < l@.len() ==> valid_ref(entries_view(dictionary@), #[trigger] l@[i]),
    ensures
        r == key_score(entries_view(dictionary@), l@),
{
    let ghost es = entries_view(dictionary@);
    let mut sum: i128 = 0;
    let mut canonical = false;
    let mut least: usize = if l.len() > 0 {
        l[0].index
    } else {
        0
    };
    let mut i: usize = 0;
    while i < l.len()
        invariant
            i <= l@.len(),
            es == entries_view(dictionary@),
            forall|k: int| 0 <= k < l@.len() ==> valid_ref(es, #[trigger] l@[k]),
            sum == count_sum(es, l@.take(i as int)),
            -0x8000_0000 * (i as int) <= sum <= 0x8000_0000 * (i as int),
            canonical == has_canonical(l@.take(i as int)),
            i > 0 ==> least == min_index(l@.take(i as int)),
            i == 0 ==> least == (if l@.len() > 0 {
                l@[0].index as int
            } else {
                0
            }),
        decreases l.len() - i,
    {
        let r = l[i];
        assert(valid_ref(es, l@[i as int]));
        let ghost pre = l@.take(i as int);
        let ghost cur = l@.take(i + 1);
        assert(cur.drop_last() =~= pre);
        sum = sum + dictionary[r.index].count as i128;
        if r.alias_index.is_none() {
            canonical = true;
        }
        if i > 0 && r.index < least {
            least = r.index;
        }
        i = i + 1;
        proof {
            if canonical {
                if r.alias_index is None {
                    assert(cur[i - 1].alias_index is None);
                } else {
                    let k = choose|k: int| 0 <= k < pre.len() && (#[trigger] pre[k]).alias_index is None;
                    assert(cur[k] == pre[k]);
                }
            } else {
                assert forall|k: int| 0 <= k < cur.len() implies !((#[trigger] cur[k]).alias_index is None) by {
                    if k < pre.len() {
                        assert(cur[k] == pre[k]);
                    }
                }
            }
        }
    }
    assert(l@.take(i as int) =~= l@);
    let count: i64 = if sum > i64::MAX as i128 {
        i64::MAX
    } else if sum < i64::MIN as i128 {
        i64::MIN
    } else {
        sum as i64
    };
    ScoreableEntry { index: least, is_canonical: canonical, count }
}

/// The keys of `m` whose ASCII-ness is `ascii`, sorted by score.
fn build_haystack(dictionary: &Vec<DictionaryEntry>, m: &PostingMap, ascii: bool) -> (r: Vec<String>)
    requires
        index_ok(entries_view(dictionary@), m@, true),
    ensures
        r.deep_view() == haystack_of(entries_view(dictionary@), m@, ascii),
{
    let ghost es = entries_view(dictionary@);
    let mut items: Vec<(ScoreableEntry, usize)> = Vec::new();
    let mut t: usize = 0;
    while t < m.len()
        invariant
            t <= m@.len(),
            es == entries_view(dictionary@),
            index_ok(es, m@, true),
            items@ == scored_keys(es, m@.take(t as int), ascii),
        decreases m@.len() - t,
    {
        let key = m.key_at(t);
        let list = m.list_at(t);
        assert forall|i: int| 0 <= i < list@.len() implies valid_ref(es, #[trigger] list@[i]) by {
            assert(valid_ref(es, m@[t as int].1[i]));
        }
        assert(m@.take(t + 1).drop_last() =~= m@.take(t as int));
        if text_is_ascii(key) == ascii {
            let score = score_key(dictionary, list);
            items.push((score, t));
        }
        t = t + 1;
    }
    assert(m@.take(t as int) =~= m@);
    proof {
        m.lemma_len();
        lemma_haystack_positions(es, m@, ascii);
    }
    let sorted = sort_ranked(items);
    let mut out: Vec<String> = Vec::new();
    let mut k: usize = 0;
    while k < sorted.len()
        invariant
            k <= sorted@.len(),
            sorted@ == ranked_sort(scored_keys(es, m@, ascii)),
            forall|i: int| 0 <= i < sorted@.len() ==> (#[trigger] sorted@[i]).1 < m@.len(),
            out.deep_view() == sorted@.take(k as int).map_values(
                |x: (ScoreableEntry, usize)| m@[x.1 as int].0,
            ),
        decreases sorted.len() - k,
    {
        let p = sorted[k].1;
        assert(sorted@[k as int].1 < m@.len());
        let ghost prev = out.deep_view();
        out.push(clone_string(m.key_at(p)));
        assert(out.deep_view() =~= prev.push(m@[p as int].0));
        assert(sorted@.take(k + 1) =~= sorted@.take(k as int).push(sorted@[k as int]));
        k = k + 1;
        assert(out.deep_view() =~= sorted@.take(k as int).map_values(
            |x: (ScoreableEntry, usize)| m@[x.1 as int].0,
        ));
    }
    assert(sorted@.take(k as int) =~= sorted@);
    out
}


fn clone_strings(v: &Vec<String>) -> (r: Vec<String>)
    ensures
        r.deep_view() == v.deep_view(),
{
    let mut r: Vec<String> = Vec::new();
    let mut i: usize = 0;
    while i < v.len()
        invariant
            i <= v@.len(),
            r.deep_view() == v.deep_view().take(i as int),
        decreases v.len() - i,
    {
        let ghost prev = r.deep_view();
        r.push(clone_string(&v[i]));
        assert(r.deep_view() =~= prev.push(v@[i as int]@));
        assert(v.deep_view().take(i + 1) =~= v.deep_view().take(i as int).push(v@[i as int]@));
        i = i + 1;
    }
    assert(v.deep_view().take(i as int) =~= v.deep_view());
    r
}

/// The spelling that a valid position designates.
fn source_string(dictionary: &[DictionaryEntry], r: IndexEntry) -> (s: String)
    requires
        valid_ref(entries_view(dictionary@), r),
    ensures
        s@ == source_of(entries_view(dictionary@), r),
{
    let entry = &dictionary[r.index];
    assert(entries_view(dictionary@)[r.index as int] == entry@);
    match r.alias_index {
        Some(j) => clone_string(&entry.aliases[j]),
        None => clone_string(&entry.key),
    }
}

impl DictionaryEngine {
    /// The completion record of a valid position, with the scorer's score.
    fn create_completion_result_entry(
        dictionary: &[DictionaryEntry],
        index: usize,
        alias_index: Option<usize>,
        score: u32,
    ) -> (r: CompletionResultEntry)
        requires
            valid_ref(entries_view(dictionary@), IndexEntry { index, alias_index }),
        ensures
            r@ == completion_record(
                entries_view(dictionary@),
                IndexEntry { index, alias_index },
                score,
            ),
    {
        let entry = &dictionary[index];
        assert(entries_view(dictionary@)[index as int] == entry@);
        CompletionResultEntry {
            term: source_string(dictionary, IndexEntry { index, alias_index }),
            canonical_key: clone_string(&entry.key),
            is_canonical: alias_index.is_none(),
            category: entry.category,
            count: entry.count,
            score,
            aliases: clone_strings(&entry.aliases),
        }
    }

    /// The lookup record of a valid position.
    fn create_query_result_entry(dictionary: &[DictionaryEntry], r: IndexEntry) -> (v:
        QueryResultEntryValue)
        requires
            valid_ref(entries_view(dictionary@), r),
        ensures
            v@ == query_record(entries_view(dictionary@), r),
    {
        let entry = &dictionary[r.index];
        assert(entries_view(dictionary@)[r.index as int] == entry@);
        QueryResultEntryValue {
            term: source_string(dictionary, r),
            canonical_key: clone_string(&entry.key),
            is_canonical: r.alias_index.is_none(),
            category: entry.category,
            count: entry.count,
            aliases: clone_strings(&entry.aliases),
        }
    }

    /// Builds the engine from catalog texts: parses them into the dictionary,
    /// indexes every spelling, sorts each completion posting list by popularity,
    /// and sorts the two haystacks by key score. It never fails: what does not
    /// parse is skipped.
    pub fn new(base_csvs: Vec<String>) -> (r: DictionaryEngine)
        ensures
            r.wf(),
            r@ == engine_model(base_csvs.deep_view()),
    {
        let dictionary = parse_catalogs(&base_csvs);
        let ghost es = entries_view(dictionary@);
        let (cmap, qmap) = index_dictionary(&dictionary);
        proof {
            broadcast use vstd::std_specs::vec::axiom_spec_len;
            assert(es.len() == dictionary@.len());
            assert(dictionary@.len() == dictionary.len());
            assert forall|k: int| 0 <= k < es.len() implies (#[trigger] es[k]).aliases.len()
                <= usize::MAX by {
                assert(es[k] == dictionary@[k]@);
                assert(dictionary@[k].aliases@.len() == dictionary@[k].aliases.len());
            }
            lemma_refs_valid(es, es.len() as int);
            lemma_build_index_ok(es, all_refs(es), true);
            lemma_build_index_ok(es, all_refs(es), false);
        }
        let ghost raw = cmap@;
        let completion_map = sort_index(&dictionary, cmap);
        proof {
            lemma_sorted_index_ok(es, raw);
            completion_map.lemma_len();
            lemma_haystack_ascii(es, completion_map@, true);
            lemma_haystack_ascii(es, completion_map@, false);
        }
        let completion_haystack_ascii = build_haystack(&dictionary, &completion_map, true);
        let completion_haystack_non_ascii = build_haystack(&dictionary, &completion_map, false);
        DictionaryEngine {
            dictionary,
            completion_haystack_ascii,
            completion_haystack_non_ascii,
            completion_map,
            query_map: qmap,
            nucleo_matcher: new_matcher(),
        }
    }

    /// Fuzzy completion: scores the completion form of `query` against the
    /// ASCII haystack (and the non-ASCII one after it, where the query is not
    /// ASCII or `force_try_non_ascii` asks for it), then lists, candidate by
    /// candidate in the scorer's order, the records of the candidate's posting
    /// list, stopping at `max_entries` records.
    pub fn fuzzy_search(
        &mut self,
        query: &str,
        max_entries: Option<usize>,
        force_try_non_ascii: Option<bool>,
    ) -> (r: Vec<CompletionResultEntry>)
        requires
            old(self).wf(),
        ensures
            final(self).wf(),
            final(self)@ == old(self)@,
            completion_views(r@) == limited(
                expansion(
                    old(self)@,
                    fuzzy_matches_of(
                        completion_form(query@),
                        searched_keys(
                            old(self)@,
                            searches_non_ascii(query@, force_try_non_ascii),
                        ),
                    ),
                ),
                max_entries,
            ),
            max_entries matches Some(n) ==> r@.len() <= n,
            forall|i: int|
                0 <= i < r@.len() ==> searched_keys(
                    old(self)@,
                    searches_non_ascii(query@, force_try_non_ascii),
                ).contains(completion_form((#[trigger] r@[i]).term@)),
            force_try_non_ascii == Some(false) ==> forall|i: int|
                0 <= i < r@.len() ==> old(self)@.ascii.contains(
                    completion_form((#[trigger] r@[i]).term@),
                ),
    {
        let ghost m = self@;
        let completion_query = normalize_for_auto_completion(query);
        let try_non_ascii = match force_try_non_ascii {
            Some(b) => b,
            None => !text_is_ascii(&completion_query),
        };
        let ghost keys = searched_keys(m, try_non_ascii);
        let matches = if try_non_ascii {
            match_candidates(
                &mut self.nucleo_matcher,
                completion_query.as_str(),
                &self.completion_haystack_ascii,
                &self.completion_haystack_non_ascii,
            )
        } else {
            let none: Vec<String> = Vec::new();
            let found = match_candidates(
                &mut self.nucleo_matcher,
                completion_query.as_str(),
                &self.completion_haystack_ascii,
                &none,
            );
            assert(self.completion_haystack_ascii.deep_view() + none.deep_view() =~= m.ascii);
            found
        };
        assert(self@ == m);
        let ghost ms = match_views(matches@);
        assert(ms == fuzzy_matches_of(completion_form(query@), keys));
        let mut results: Vec<CompletionResultEntry> = Vec::new();
        let mut full = match max_entries {
            Some(n) => n == 0,
            None => false,
        };
        let mut i: usize = 0;
        assert(completion_views(results@) =~= expansion(m, ms).take(0));
        assert(ms.take(0) =~= Seq::<(Seq<char>, u32)>::empty());
        while i < matches.len() && !full
            invariant
                self@ == m,
                self.wf(),
                i <= matches@.len(),
                ms == match_views(matches@),
                !full ==> completion_views(results@) == expansion(m, ms.take(i as int)),
                full ==> completion_views(results@) == expansion(m, ms).take(
                    results@.len() as int,
                ),
                full ==> results@.len() <= expansion(m, ms).len(),
                full == (max_entries matches Some(n) && results@.len() >= n),
                max_entries matches Some(n) ==> results@.len() <= n,
                forall|k: int| 0 <= k < matches@.len() ==> keys.contains((#[trigger] matches@[k]).0@),
                forall|k: int|
                    0 <= k < results@.len() ==> keys.contains(
                        completion_form((#[trigger] results@[k]).term@),
                    ),
            decreases matches.len() - i,
        {
            let cand = &matches[i].0;
            let score = matches[i].1;
            let ghost before = completion_views(results@);
            let ghost c = ms[i as int];
            assert(c == (cand@, score));
            assert(ms.take(i + 1).drop_last() =~= ms.take(i as int));
            match self.completion_map.find(cand) {
                Some(t) => {
                    proof {
                        lemma_find_key(m.completion, cand@);
                    }
                    let l = self.completion_map.list_at(t);
                    assert(l@ == posting_of(m.completion, cand@));
                    let mut p: usize = 0;
                    while p < l.len() && !full
                        invariant
                            self@ == m,
                            self.wf(),
                            0 <= t < m.completion.len(),
                            l@ == m.completion[t as int].1,
                            l@ == posting_of(m.completion, cand@),
                            m.entries == entries_view(self.dictionary@),
                            c == (cand@, score),
                            m.completion[t as int].0 == cand@,
                            p <= l@.len(),
                            keys.contains(cand@),
                            completion_views(results@) == before + candidate_records(m, c).take(
                                p as int,
                            ),
                            full == (max_entries matches Some(n) && results@.len() >= n),
                            max_entries matches Some(n) ==> results@.len() <= n,
                            forall|k: int|
                                0 <= k < results@.len() ==> keys.contains(
                                    completion_form((#[trigger] results@[k]).term@),
                                ),
                        decreases l.len() - p,
                    {
                        let e = l[p];
                        assert(valid_ref(m.entries, m.completion[t as int].1[p as int]));
                        assert(index_key(m.entries, m.completion[t as int].1[p as int], true)
                            == cand@);
                        let rec = Self::create_completion_result_entry(
                            self.dictionary.as_slice(),
                            e.index,
                            e.alias_index,
                            score,
                        );
                        let ghost prev = results@;
                        results.push(rec);
                        assert(completion_views(results@) =~= completion_views(prev).push(rec@));
                        assert(candidate_records(m, c).take(p + 1) =~= candidate_records(
                            m,
                            c,
                        ).take(p as int).push(rec@));
                        assert(results@[results@.len() - 1] == rec);
                        p = p + 1;
                        full = match max_entries {
                            Some(n) => results.len() >= n,
                            None => false,
                        };
                    }
                    if p == l.len() {
                        assert(candidate_records(m, c).take(p as int) =~= candidate_records(m, c));
                    }
                },
                None => {
                    assert(candidate_records(m, c) =~= Seq::<CompletionModel>::empty());
                    assert(completion_views(results@) =~= before + candidate_records(m, c));
                },
            }
            proof {
                if !full {
                    assert(completion_views(results@) == expansion(m, ms.take(i + 1)));
                } else {
                    let n = max_entries->Some_0;
                    lemma_expansion_prefix(m, ms, i + 1);
                    let e1 = expansion(m, ms.take(i + 1));
                    assert(completion_views(results@) =~= e1.take(results@.len() as int));
                    assert(results@.len() <= e1.len());
                    assert(expansion(m, ms).take(results@.len() as int) =~= e1.take(
                        results@.len() as int,
                    ));
                }
            }
            i = i + 1;
        }
        proof {
            if !full {
                assert(ms.take(i as int) =~= ms);
            }
        }
        results
    }

    /// The engine's indices fit in memory: the completion index has at most
    /// `usize::MAX` keys.
    pub proof fn lemma_bounds(&self)
        ensures
            self@.completion.len() <= usize::MAX,
    {
        self.completion_map.lemma_len();
    }

    /// The dictionary entries, in catalog order.
    pub fn dictionary(&self) -> (r: &Vec<DictionaryEntry>)
        ensures
            entries_view(r@) == self@.entries,
    {
        &self.dictionary
    }

    /// Whether the completion index has the key `key`.
    pub fn has_completion_key(&self, key: &String) -> (r: bool)
        requires
            self.wf(),
        ensures
            r == (find_key(self@.completion, key@) >= 0),
    {
        self.completion_map.find(key).is_some()
    }

    /// Whether the lookup index has the key `key`.
    pub fn has_query_key(&self, key: &String) -> (r: bool)
        requires
            self.wf(),
        ensures
            r == (find_key(self@.query, key@) >= 0),
    {
        self.query_map.find(key).is_some()
    }

    /// The number of keys in the completion index.
    pub fn completion_key_count(&self) -> (r: usize)
        ensures
            r == self@.completion.len(),
    {
        self.completion_map.len()
    }

    /// The number of keys in the lookup index.
    pub fn query_key_count(&self) -> (r: usize)
        ensures
            r == self@.query.len(),
    {
        self.query_map.len()
    }

    /// The ASCII completion haystack, best key first.
    pub fn ascii_haystack(&self) -> (r: &Vec<String>)
        ensures
            r.deep_view() == self@.ascii,
    {
        &self.completion_haystack_ascii
    }

    /// The non-ASCII completion haystack, best key first.
    pub fn non_ascii_haystack(&self) -> (r: &Vec<String>)
        ensures
            r.deep_view() == self@.non_ascii,
    {
        &self.completion_haystack_non_ascii
    }

    /// The posting list of a completion key (empty where there is none).
    pub fn completion_postings(&self, key: &String) -> (r: Vec<IndexEntry>)
        requires
            self.wf(),
        ensures
            r@ == posting_of(self@.completion, key@),
    {
        match self.completion_map.find(key) {
            Some(t) => {
                proof {
                    lemma_find_key(self@.completion, key@);
                }
                let l = self.completion_map.list_at(t);
                let mut r: Vec<IndexEntry> = Vec::new();
                let mut i: usize = 0;
                while i < l.len()
                    invariant
                        i <= l@.len(),
                        r@ == l@.take(i as int),
                    decreases l.len() - i,
                {
                    r.push(l[i]);
                    i = i + 1;
                    assert(r@ =~= l@.take(i as int));
                }
                assert(l@.take(i as int) =~= l@);
                r
            },
            None => Vec::new(),
        }
    }

    /// Exact lookup: for each word, in order, the records of the lookup posting
    /// list of its query form (none where the index has no such key).
    pub fn query_words(&self, words: Vec<String>) -> (r: Vec<QueryResultEntry>)
        requires
            self.wf(),
        ensures
            r@.len() == words@.len(),
            forall|i: int|
                0 <= i < r@.len() ==> (#[trigger] r@[i]).0@ == words@[i]@ && query_views(r@[i].1@)
                    == posting_of(self@.query, query_form(words@[i]@)).map_values(
                    |e: IndexEntry| query_record(self@.entries, e),
                ),
    {
        let ghost m = self@;
        let mut out: Vec<QueryResultEntry> = Vec::new();
        let mut i: usize = 0;
        while i < words.len()
            invariant
                self@ == m,
                self.wf(),
                i <= words@.len(),
                out@.len() == i,
                forall|k: int|
                    0 <= k < i ==> (#[trigger] out@[k]).0@ == words@[k]@ && query_views(out@[k].1@)
                        == posting_of(m.query, query_form(words@[k]@)).map_values(
                        |e: IndexEntry| query_record(m.entries, e),
                    ),
            decreases words.len() - i,
        {
            let key = normalize_for_query(words[i].as_str());
            let mut found: Vec<QueryResultEntryValue> = Vec::new();
            let ghost want = posting_of(m.query, key@).map_values(
                |e: IndexEntry| query_record(m.entries, e),
            );
            match self.query_map.find(&key) {
                Some(t) => {
                    proof {
                        lemma_find_key(m.query, key@);
                    }
                    let l = self.query_map.list_at(t);
                    let mut p: usize = 0;
                    while p < l.len()
                        invariant
                            self@ == m,
                            self.wf(),
                            0 <= t < m.query.len(),
                            l@ == m.query[t as int].1,
                            l@ == posting_of(m.query, key@),
                            m.entries == entries_view(self.dictionary@),
                            want == posting_of(m.query, key@).map_values(
                                |e: IndexEntry| query_record(m.entries, e),
                            ),
                            p <= l@.len(),
                            query_views(found@) == want.take(p as int),
                        decreases l.len() - p,
                    {
                        assert(valid_ref(m.entries, m.query[t as int].1[p as int]));
                        let v = Self::create_query_result_entry(self.dictionary.as_slice(), l[p]);
                        let ghost prev = found@;
                        found.push(v);
                        assert(query_views(found@) =~= query_views(prev).push(v@));
                        assert(want.take(p + 1) =~= want.take(p as int).push(v@));
                        p = p + 1;
                    }
                    assert(want.take(p as int) =~= want);
                },
                None => {
                    assert(query_views(found@) =~= want);
                },
            }
            out.push(QueryResultEntry(clone_string(&words[i]), found));
            i = i + 1;
        }
        out
    }
}

} // verus!
