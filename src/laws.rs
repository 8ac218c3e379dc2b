//! What holds of every engine that the catalogs build, and of its queries.
use vstd::prelude::*;
use crate::catalog::{catalog_entries, EntryModel};
use crate::engine::{
    all_refs, build_index, engine_model, entry_rank, entry_refs, expansion,
    haystack_of, index_key, key_score, lemma_haystack_positions,
    lemma_scored_keys_positions, lemma_sort_posting_members, limited, ranked_refs, refs_upto,
    scored_keys, searched_keys, searches_non_ascii, sort_posting, sorted_index, source_of,
    valid_ref, CompletionModel, DictionaryEngine, EngineModel, fuzzy_matches_of,
};
use crate::normalize::{
    completion_char, completion_form, is_folded_katakana, map_completion_chars, map_query_chars,
    nfc_of, nfkc_of, query_form,
};
use crate::posting::{
    find_key, keys_unique, lemma_add_ref, lemma_find_key, lemma_find_key_same_keys,
    lemma_find_own_key, posting_of, IndexEntry,
};
use crate::ranking::{
    is_ranked, lemma_ranked_sort, lemma_ranked_sort_members, lemma_ranked_sort_unique, precedes,
    ranked_sort,
};
use crate::text::is_ascii_text;

verus! {

// ---------------------------------------------------------------- helpers

proof fn lemma_refs_contain(es: Seq<EntryModel>, i: int, r: IndexEntry)
    requires
        valid_ref(es, r),
        r.index < i <= es.len(),
    ensures
        refs_upto(es, i).contains(r),
    decreases i,
{
    let a = refs_upto(es, i - 1);
    let b = entry_refs(i - 1, es[i - 1].aliases.len() as int);
    if r.index < i - 1 {
        lemma_refs_contain(es, i - 1, r);
        let k = choose|k: int| 0 <= k < a.len() && a[k] == r;
        assert((a + b)[k] == r);
    } else {
        let p: int = match r.alias_index {
            None => 0,
            Some(j) => j + 1,
        };
        assert(b[p] == r);
        assert((a + b)[a.len() + p] == r);
    }
}

proof fn lemma_build_index_unique(es: Seq<EntryModel>, rs: Seq<IndexEntry>, completion: bool)
    ensures
        keys_unique(build_index(es, rs, completion)),
    decreases rs.len(),
{
    if rs.len() > 0 {
        lemma_build_index_unique(es, rs.drop_last(), completion);
        lemma_add_ref(
            build_index(es, rs.drop_last(), completion),
            index_key(es, rs.last(), completion),
            rs.last(),
        );
    }
}

proof fn lemma_build_index_contains(es: Seq<EntryModel>, rs: Seq<IndexEntry>, completion: bool, k: int)
    requires
        0 <= k < rs.len(),
    ensures
        posting_of(build_index(es, rs, completion), index_key(es, rs[k], completion)).contains(
            rs[k],
        ),
    decreases rs.len(),
{
    let prev = rs.drop_last();
    let m = build_index(es, prev, completion);
    let key = index_key(es, rs.last(), completion);
    lemma_build_index_unique(es, prev, completion);
    lemma_add_ref(m, key, rs.last());
    let n = build_index(es, rs, completion);
    if k == rs.len() - 1 {
        assert(posting_of(n, key)[posting_of(m, key).len() as int] == rs[k]);
    } else {
        lemma_build_index_contains(es, prev, completion, k);
        assert(prev[k] == rs[k]);
        let k2 = index_key(es, rs[k], completion);
        let old_list = posting_of(m, k2);
        let j = choose|j: int| 0 <= j < old_list.len() && old_list[j] == rs[k];
        assert(posting_of(n, k2)[j] == rs[k]);
    }
}

proof fn lemma_sorted_index_posting(es: Seq<EntryModel>, m: Seq<(Seq<char>, Seq<IndexEntry>)>, k: Seq<char>)
    ensures
        posting_of(sorted_index(es, m), k) == (if find_key(m, k) >= 0 {
            sort_posting(es, posting_of(m, k))
        } else {
            Seq::empty()
        }),
        keys_unique(m) ==> keys_unique(sorted_index(es, m)),
{
    let s = sorted_index(es, m);
    lemma_find_key_same_keys(s, m, k);
    lemma_find_key(m, k);
}

proof fn lemma_scored_keys_unique(
    es: Seq<EntryModel>,
    m: Seq<(Seq<char>, Seq<IndexEntry>)>,
    ascii: bool,
)
    requires
        m.len() <= usize::MAX,
    ensures
        scored_keys(es, m, ascii).no_duplicates(),
    decreases m.len(),
{
    if m.len() > 0 {
        let prev = m.drop_last();
        lemma_scored_keys_unique(es, prev, ascii);
        lemma_scored_keys_positions(es, prev, ascii);
    }
}

// ---------------------------------------------------------------- laws

/// Every spelling of every entry is indexed: the position of an entry's key
/// or alias is in the lookup list of the spelling's query form and in the
/// completion list of its completion form.
pub proof fn law_every_spelling_indexed(blobs: Seq<Seq<char>>, r: IndexEntry)
    requires
        valid_ref(catalog_entries(blobs), r),
    ensures
        posting_of(
            engine_model(blobs).query,
            query_form(source_of(catalog_entries(blobs), r)),
        ).contains(r),
        posting_of(
            engine_model(blobs).completion,
            completion_form(source_of(catalog_entries(blobs), r)),
        ).contains(r),
{
    let es = catalog_entries(blobs);
    let rs = all_refs(es);
    lemma_refs_contain(es, es.len() as int, r);
    let k = choose|k: int| 0 <= k < rs.len() && rs[k] == r;
    lemma_build_index_contains(es, rs, false, k);
    lemma_build_index_contains(es, rs, true, k);
    let raw = build_index(es, rs, true);
    let key = completion_form(source_of(es, r));
    lemma_sorted_index_posting(es, raw, key);
    lemma_find_key(raw, key);
    lemma_sort_posting_members(es, posting_of(raw, key));
}

/// Every haystack key is a key of the completion index, is ASCII exactly when
/// it stands in the ASCII haystack, and occurs once over the two haystacks.
pub proof fn law_haystack_keys(
    engine: &DictionaryEngine,
    blobs: Seq<Seq<char>>,
    ascii: bool,
    i: int,
)
    requires
        engine@ == engine_model(blobs),
        0 <= i < haystack_of(
            catalog_entries(blobs),
            engine_model(blobs).completion,
            ascii,
        ).len(),
    ensures
        ({
            let m = engine_model(blobs);
            let hay = if ascii { m.ascii } else { m.non_ascii };
            let other = if ascii { m.non_ascii } else { m.ascii };
            &&& find_key(m.completion, hay[i]) >= 0
            &&& is_ascii_text(hay[i]) == ascii
            &&& forall|j: int| 0 <= j < hay.len() && j != i ==> hay[j] != hay[i]
            &&& !other.contains(hay[i])
        }),
{
    let es = catalog_entries(blobs);
    let m = engine_model(blobs);
    let c = m.completion;
    let raw = build_index(es, all_refs(es), true);
    lemma_build_index_unique(es, all_refs(es), true);
    lemma_sorted_index_posting(es, raw, Seq::empty());
    assert(keys_unique(c));
    let hay = haystack_of(es, c, ascii);
    let other = haystack_of(es, c, !ascii);
    engine.lemma_bounds();
    lemma_haystack_positions(es, c, ascii);
    lemma_haystack_positions(es, c, !ascii);
    let items = scored_keys(es, c, ascii);
    let sorted = ranked_sort(items);
    lemma_scored_keys_unique(es, c, ascii);
    lemma_ranked_sort_unique(items);
    let x = sorted[i];
    lemma_find_own_key(c, x.1 as int);
    assert forall|j: int| 0 <= j < hay.len() && j != i implies hay[j] != hay[i] by {
        let y = sorted[j];
        if hay[j] == hay[i] {
            if x.1 != y.1 {
                assert(c[x.1 as int].0 == c[y.1 as int].0);
            }
            assert(x == y);
        }
    }
    assert(!other.contains(hay[i])) by {
        if other.contains(hay[i]) {
            let j = choose|j: int| 0 <= j < other.len() && other[j] == hay[i];
            let y = ranked_sort(scored_keys(es, c, !ascii))[j];
        }
    }
}


/// Each completion posting list is sorted by popularity: no position sorts
/// strictly before a position that comes earlier in the list.
pub proof fn law_postings_ranked(blobs: Seq<Seq<char>>, t: int, i: int, j: int)
    requires
        0 <= t < engine_model(blobs).completion.len(),
        0 <= i < j < engine_model(blobs).completion[t].1.len(),
    ensures
        ({
            let m = engine_model(blobs);
            let l = m.completion[t].1;
            !precedes(entry_rank(m.entries, l[j]), entry_rank(m.entries, l[i]))
        }),
{
    let es = catalog_entries(blobs);
    let raw = build_index(es, all_refs(es), true);
    let l0 = raw[t].1;
    let rr = ranked_refs(es, l0);
    lemma_ranked_sort(rr);
    lemma_ranked_sort_members(rr);
    let s = ranked_sort(rr);
    assert(s.contains(s[i]) && s.contains(s[j]));
    assert(rr.contains(s[i]));
    assert(rr.contains(s[j]));
    let a = choose|a: int| 0 <= a < rr.len() && rr[a] == s[i];
    let b = choose|b: int| 0 <= b < rr.len() && rr[b] == s[j];
    assert(is_ranked(s));
    assert(!precedes(s[j].0, s[i].0));
}

/// Each haystack is sorted by key score: no key's score sorts strictly before
/// the score of a key that comes earlier.
pub proof fn law_haystack_ranked(
    engine: &DictionaryEngine,
    blobs: Seq<Seq<char>>,
    ascii: bool,
    i: int,
    j: int,
)
    requires
        engine@ == engine_model(blobs),
        0 <= i < j < haystack_of(
            catalog_entries(blobs),
            engine_model(blobs).completion,
            ascii,
        ).len(),
    ensures
        ({
            let m = engine_model(blobs);
            let hay = if ascii { m.ascii } else { m.non_ascii };
            !precedes(
                key_score(m.entries, posting_of(m.completion, hay[j])),
                key_score(m.entries, posting_of(m.completion, hay[i])),
            )
        }),
{
    let es = catalog_entries(blobs);
    let c = engine_model(blobs).completion;
    let raw = build_index(es, all_refs(es), true);
    lemma_build_index_unique(es, all_refs(es), true);
    lemma_sorted_index_posting(es, raw, Seq::empty());
    engine.lemma_bounds();
    lemma_haystack_positions(es, c, ascii);
    let items = scored_keys(es, c, ascii);
    let sorted = ranked_sort(items);
    lemma_ranked_sort(items);
    let x = sorted[i];
    let y = sorted[j];
    lemma_find_own_key(c, x.1 as int);
    lemma_find_own_key(c, y.1 as int);
    assert(!precedes(y.0, x.0));
}

/// Building is deterministic: two engines built from the same catalog texts
/// hold the same dictionary, indices and haystacks.
pub proof fn law_build_deterministic(
    a: &DictionaryEngine,
    b: &DictionaryEngine,
    blobs: Seq<Seq<char>>,
)
    requires
        a@ == engine_model(blobs),
        b@ == engine_model(blobs),
    ensures
        a@ == b@,
{
}

/// Searching is deterministic: two fuzzy searches with the same arguments on
/// the same engine give the same records.
pub proof fn law_search_deterministic(
    m: EngineModel,
    query: Seq<char>,
    max_entries: Option<usize>,
    force_try_non_ascii: Option<bool>,
    r1: Seq<CompletionModel>,
    r2: Seq<CompletionModel>,
)
    requires
        r1 == limited(
            expansion(
                m,
                fuzzy_matches_of(
                    completion_form(query),
                    searched_keys(m, searches_non_ascii(query, force_try_non_ascii)),
                ),
            ),
            max_entries,
        ),
        r2 == limited(
            expansion(
                m,
                fuzzy_matches_of(
                    completion_form(query),
                    searched_keys(m, searches_non_ascii(query, force_try_non_ascii)),
                ),
            ),
            max_entries,
        ),
    ensures
        r1 == r2,
{
}

/// The completion mapping leaves no Katakana letter with a Hiragana twin: it
/// folds each of U+30A1..U+30F6 down by 0x60.
pub proof fn law_completion_folds_katakana(s: Seq<char>, i: int)
    requires
        0 <= i < completion_form(s).len(),
    ensures
        !is_folded_katakana(completion_form(s)[i]),
        is_folded_katakana(nfkc_of(s)[i]) ==> completion_form(s)[i] as u32 == nfkc_of(s)[i] as u32
            - 0x60,
{
    let c = nfkc_of(s)[i];
    if is_folded_katakana(c) {
        let u = (c as u32 - 0x60) as u32;
    }
}

/// The query mapping keeps Katakana, and every character but the underscore,
/// as NFC gives it.
pub proof fn law_query_keeps_katakana(s: Seq<char>, i: int)
    requires
        0 <= i < query_form(s).len(),
    ensures
        nfc_of(s)[i] != '_' ==> query_form(s)[i] == nfc_of(s)[i],
{
}

/// The completion character mapping is idempotent: applying it twice is
/// applying it once.
pub proof fn law_completion_mapping_idempotent(s: Seq<char>)
    ensures
        map_completion_chars(map_completion_chars(s)) == map_completion_chars(s),
{
    let t = map_completion_chars(s);
    assert forall|i: int| 0 <= i < s.len() implies completion_char(#[trigger] t[i]) == t[i] by {
        let c = s[i];
        if is_folded_katakana(c) {
            let u = (c as u32 - 0x60) as u32;
        }
    }
    assert(map_completion_chars(t) =~= t);
}

/// The query character mapping is idempotent.
pub proof fn law_query_mapping_idempotent(s: Seq<char>)
    ensures
        map_query_chars(map_query_chars(s)) == map_query_chars(s),
{
    assert(map_query_chars(map_query_chars(s)) =~= map_query_chars(s));
}

} // verus!
