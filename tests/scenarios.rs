use tag_dictionary::catalog::{parse_field_i32, split_aliases, BaseCsvEntry, DictionaryEntry};
use tag_dictionary::coding::{decode_text, encode_text};
use tag_dictionary::engine::{CompletionResultEntry, DictionaryEngine};
use tag_dictionary::normalize::{normalize_for_auto_completion, normalize_for_query};
use tag_dictionary::posting::IndexEntry;
use tag_dictionary::ranking::ScoreableEntry;

fn five_rows() -> Vec<String> {
    vec![r#"1girl,0,5794009,"1girls,女の子,girl,소녀"
smile,0,2754486,"smiling,笑顔"
blonde_hair,0,1482750,"blonde,blond,金髪"
long_hair,0,4181922,"ロングヘア,金髪ロング"
masterpiece,0,300000,"best_quality,high_quality,top_quality""#
        .to_string()]
}

fn terms(results: &[CompletionResultEntry]) -> Vec<String> {
    results.iter().map(|r| r.term.clone()).collect()
}

#[test]
fn canonical_alias_lookup() {
    let engine = DictionaryEngine::new(five_rows());
    let results = engine.query_words(vec!["girl".to_string()]);
    assert_eq!(results.len(), 1);
    assert_eq!(results[0].0, "girl");
    assert_eq!(results[0].1.len(), 1);
    let m = &results[0].1[0];
    assert_eq!(m.term, "girl");
    assert!(!m.is_canonical);
    assert_eq!(m.canonical_key, "1girl");
    assert_eq!(m.category, 0);
    assert_eq!(m.count, 5794009);
    assert_eq!(m.aliases, vec!["1girls", "女の子", "girl", "소녀"]);
}

#[test]
fn cross_entry_alias_sharing() {
    let engine = DictionaryEngine::new(five_rows());
    let results = engine.query_words(vec!["金髪ロング".to_string()]);
    assert_eq!(results.len(), 1);
    let keys: Vec<String> = results[0].1.iter().map(|m| m.canonical_key.clone()).collect();
    assert_eq!(keys, vec!["long_hair"]);
    // The shared alias appears in two entries only when both list it.
    let both = vec![r#"blonde_hair,0,1482750,"blonde,金髪ロング"
long_hair,0,4181922,"ロングヘア,金髪ロング""#
        .to_string()];
    let engine = DictionaryEngine::new(both);
    let results = engine.query_words(vec!["金髪ロング".to_string()]);
    let keys: Vec<String> = results[0].1.iter().map(|m| m.canonical_key.clone()).collect();
    assert_eq!(keys, vec!["blonde_hair", "long_hair"]);
}

#[test]
fn popularity_ordering_in_completion() {
    let mut engine = DictionaryEngine::new(five_rows());
    let results = engine.fuzzy_search("girl", Some(5), None);
    assert!(!results.is_empty());
    assert_eq!(results[0].canonical_key, "1girl");
    assert_eq!(results[0].count, 5794009);
    // The scorer rates the exact alias "girl" above "1girl"; among the keys it
    // rates alike, the canonical key comes first.
    let canonical = results.iter().position(|r| r.term == "1girl").unwrap();
    let plural = results.iter().position(|r| r.term == "1girls").unwrap();
    assert!(canonical < plural);
}

#[test]
fn canonical_before_alias() {
    let mut engine = DictionaryEngine::new(five_rows());
    let results = engine.fuzzy_search("smile", Some(5), None);
    let canonical = results
        .iter()
        .position(|r| r.term == "smile" && r.is_canonical)
        .unwrap();
    for (i, r) in results.iter().enumerate() {
        if r.canonical_key == "smile" && !r.is_canonical {
            assert!(canonical < i);
        }
    }
}

#[test]
fn ascii_gating() {
    let mut engine = DictionaryEngine::new(five_rows());
    assert!(engine.fuzzy_search("笑顔", Some(10), Some(false)).is_empty());
    let results = engine.fuzzy_search("笑顔", Some(10), None);
    assert!(results.iter().any(|r| r.canonical_key == "smile"));
}

#[test]
fn forced_ascii_search_returns_ascii_terms() {
    let mut engine = DictionaryEngine::new(five_rows());
    for q in ["a", "girl", "hair", "金髪"] {
        for r in engine.fuzzy_search(q, None, Some(false)) {
            assert!(normalize_for_auto_completion(&r.term).is_ascii());
        }
    }
}

#[test]
fn forced_non_ascii_search_takes_both_haystacks() {
    let mut engine = DictionaryEngine::new(five_rows());
    let results = engine.fuzzy_search("金髪", Some(10), Some(true));
    assert!(results.iter().any(|r| r.term == "金髪"));
    let results = engine.fuzzy_search("smile", None, Some(true));
    assert!(results.iter().any(|r| r.term == "smile"));
}

#[test]
fn resilience() {
    let engine = DictionaryEngine::new(vec![
        "".to_string(),
        "invalid_line_with_wrong_format".to_string(),
        "valid1,0,1000,\"a,b\"".to_string(),
        ",,,".to_string(),
        "valid2,1,2000,\"c,d\"".to_string(),
    ]);
    let keys: Vec<String> = engine.dictionary().iter().map(|e| e.key.clone()).collect();
    assert_eq!(keys, vec!["valid1", "valid2"]);
    let mut engine = engine;
    assert_eq!(engine.fuzzy_search("valid", Some(10), None).len(), 2);
}

#[test]
fn max_entries_bounds_results() {
    let mut engine = DictionaryEngine::new(five_rows());
    let all = engine.fuzzy_search("a", None, Some(true));
    assert!(all.len() > 3);
    for n in 0..6 {
        let some = engine.fuzzy_search("a", Some(n), Some(true));
        assert_eq!(some.len(), n.min(all.len()));
        assert_eq!(terms(&some), terms(&all[..some.len()]));
    }
}

#[test]
fn search_is_deterministic() {
    let mut a = DictionaryEngine::new(five_rows());
    let mut b = DictionaryEngine::new(five_rows());
    assert_eq!(a.ascii_haystack(), b.ascii_haystack());
    assert_eq!(a.non_ascii_haystack(), b.non_ascii_haystack());
    for q in ["girl", "hair", "q", "金髪"] {
        let x = a.fuzzy_search(q, Some(7), None);
        let y = b.fuzzy_search(q, Some(7), None);
        let z = a.fuzzy_search(q, Some(7), None);
        assert_eq!(terms(&x), terms(&y));
        assert_eq!(terms(&x), terms(&z));
        assert_eq!(
            x.iter().map(|r| r.score).collect::<Vec<_>>(),
            y.iter().map(|r| r.score).collect::<Vec<_>>()
        );
    }
}

#[test]
fn every_spelling_is_indexed() {
    let engine = DictionaryEngine::new(five_rows());
    for (i, e) in engine.dictionary().iter().enumerate() {
        let mut spellings = vec![(e.key.clone(), None)];
        for (j, a) in e.aliases.iter().enumerate() {
            spellings.push((a.clone(), Some(j)));
        }
        for (s, alias_index) in spellings {
            let want = IndexEntry { index: i, alias_index };
            let postings = engine.completion_postings(&normalize_for_auto_completion(&s));
            assert!(postings.contains(&want));
            assert!(engine.has_query_key(&normalize_for_query(&s)));
        }
    }
}

#[test]
fn haystacks_are_split_unique_and_ranked() {
    let engine = DictionaryEngine::new(five_rows());
    let ascii = engine.ascii_haystack().clone();
    let other = engine.non_ascii_haystack().clone();
    assert!(ascii.iter().all(|k| k.is_ascii()));
    assert!(other.iter().all(|k| !k.is_ascii()));
    let mut all: Vec<String> = ascii.iter().chain(other.iter()).cloned().collect();
    let n = all.len();
    all.sort();
    all.dedup();
    assert_eq!(all.len(), n);
    assert_eq!(n, engine.completion_key_count());
    assert_eq!(ascii[0], "1girl");
    assert_eq!(ascii[1], "1girls");
    assert_eq!(ascii[2], "girl");
    assert_eq!(other[0], "女の子");
    assert!(engine.has_completion_key(&"best quality".to_string()));
}

#[test]
fn postings_are_ranked() {
    let rows = vec![r#"low,0,10,"shared"
high,0,20,"shared"
tie,0,20,"shared,other_shared""#
        .to_string()];
    let engine = DictionaryEngine::new(rows);
    let postings = engine.completion_postings(&"shared".to_string());
    assert_eq!(
        postings,
        vec![
            IndexEntry { index: 1, alias_index: Some(0) },
            IndexEntry { index: 2, alias_index: Some(0) },
            IndexEntry { index: 0, alias_index: Some(0) },
        ]
    );
    let engine = DictionaryEngine::new(vec!["a,0,5,\"b\"\nb,0,5,".to_string()]);
    assert_eq!(
        engine.completion_postings(&"b".to_string()),
        vec![
            IndexEntry { index: 1, alias_index: None },
            IndexEntry { index: 0, alias_index: Some(0) },
        ]
    );
}

#[test]
fn haystack_scores_sum_counts() {
    let rows = vec![r#"x_one,0,10,"common"
x_two,0,10,"common"
x_three,0,15,"#
        .to_string()];
    let engine = DictionaryEngine::new(rows);
    // "common" sums to 20 and comes before "x three" (15), then the 10s.
    assert_eq!(engine.ascii_haystack()[0], "common");
    assert_eq!(engine.ascii_haystack()[1], "x three");
    assert_eq!(engine.ascii_haystack()[2], "x one");
    assert_eq!(engine.ascii_haystack()[3], "x two");
}

#[test]
fn duplicate_alias_gives_duplicate_postings() {
    let engine = DictionaryEngine::new(vec!["k,0,1,\"a,a\"".to_string()]);
    assert_eq!(
        engine.completion_postings(&"a".to_string()),
        vec![
            IndexEntry { index: 0, alias_index: Some(0) },
            IndexEntry { index: 0, alias_index: Some(1) },
        ]
    );
}

#[test]
fn empty_and_blank_catalogs() {
    let mut engine = DictionaryEngine::new(vec![]);
    assert!(engine.dictionary().is_empty());
    assert!(engine.fuzzy_search("", None, Some(true)).is_empty());
    let engine = DictionaryEngine::new(vec![" \n\t ".to_string()]);
    assert!(engine.dictionary().is_empty());
    assert_eq!(engine.completion_key_count(), 0);
}

#[test]
fn record_rules() {
    let engine = DictionaryEngine::new(vec![
        "a,0x10,-5,".to_string(),
        "b,1,2".to_string(),
        "c,1,2,\" x , ,y \",extra".to_string(),
        "d,2147483648,1,".to_string(),
        "  e  ,-2147483648,+7,z".to_string(),
    ]);
    let d = engine.dictionary();
    assert_eq!(d.len(), 3);
    assert_eq!(d[0].key, "a");
    assert_eq!(d[0].category, 16);
    assert_eq!(d[0].count, -5);
    assert!(d[0].aliases.is_empty());
    assert_eq!(d[1].key, "c");
    assert_eq!(d[1].aliases, vec!["x", "y"]);
    assert_eq!(d[2].key, "e");
    assert_eq!(d[2].category, i32::MIN);
    assert_eq!(d[2].count, 7);
    assert_eq!(d[2].aliases, vec!["z"]);
}

#[test]
fn rows_of_one_text_share_a_width() {
    // The reader refuses a record whose field count differs from the first one's.
    let engine = DictionaryEngine::new(vec!["a,0,1,x\nb,0,2,y,extra\nc,0,3,z".to_string()]);
    let keys: Vec<String> = engine.dictionary().iter().map(|e| e.key.clone()).collect();
    assert_eq!(keys, vec!["a", "c"]);
}

#[test]
fn field_integers() {
    assert_eq!(parse_field_i32("42"), Some(42));
    assert_eq!(parse_field_i32("-0"), Some(0));
    assert_eq!(parse_field_i32("+13"), Some(13));
    assert_eq!(parse_field_i32("0xff"), Some(255));
    assert_eq!(parse_field_i32("0x-1A"), Some(-26));
    assert_eq!(parse_field_i32("2147483647"), Some(i32::MAX));
    assert_eq!(parse_field_i32("-2147483648"), Some(i32::MIN));
    assert_eq!(parse_field_i32("2147483648"), None);
    assert_eq!(parse_field_i32("99999999999999999999"), None);
    assert_eq!(parse_field_i32(""), None);
    assert_eq!(parse_field_i32("-"), None);
    assert_eq!(parse_field_i32(" 1"), None);
    assert_eq!(parse_field_i32("1a"), None);
    assert_eq!(parse_field_i32("0x"), None);
}

#[test]
fn alias_splitting() {
    assert_eq!(split_aliases("a, b ,,c,"), vec!["a", "b", "c"]);
    assert_eq!(split_aliases(""), Vec::<String>::new());
    assert_eq!(split_aliases("\u{3000}x\u{3000}"), vec!["x"]);
}

#[test]
fn record_to_entry() {
    let fields: Vec<String> = vec!["  k ".into(), "3".into(), "9".into(), "".into()];
    let b = BaseCsvEntry::from_fields(&fields).unwrap();
    assert_eq!(b.key, "  k ");
    assert!(b.aliases.is_none());
    let e = DictionaryEntry::from_base(&b).unwrap();
    assert_eq!(e.key, "k");
    assert_eq!(e.category, 3);
    assert_eq!(e.count, 9);
    let blank: Vec<String> = vec![" ".into(), "3".into(), "9".into(), "x".into()];
    let b = BaseCsvEntry::from_fields(&blank).unwrap();
    assert!(DictionaryEntry::from_base(&b).is_none());
    let short: Vec<String> = vec!["k".into(), "3".into(), "9".into()];
    assert!(BaseCsvEntry::from_fields(&short).is_none());
}

#[test]
fn scoreable_entry_order() {
    let a = ScoreableEntry { index: 5, is_canonical: false, count: 10 };
    let b = ScoreableEntry { index: 1, is_canonical: true, count: 10 };
    let c = ScoreableEntry { index: 0, is_canonical: false, count: 10 };
    assert!(b < a);
    assert!(b < c);
    assert!(c < a);
    assert!(!(a < a));
    assert!(a.sorts_before(&ScoreableEntry { index: 0, is_canonical: true, count: 9 }));
}

#[test]
fn normalizer_idempotence() {
    for s in ["ＡＢＣ_ﾃｽﾄ", "カタカナ_テスト", "ヴァイオリン", "café", "①②", "ｶﾞ", "long_hair"] {
        let once = normalize_for_auto_completion(s);
        assert_eq!(normalize_for_auto_completion(&once), once);
        let once = normalize_for_query(s);
        assert_eq!(normalize_for_query(&once), once);
    }
}

#[test]
fn normalizer_folding() {
    assert_eq!(normalize_for_auto_completion("ＡＢＣ１２３"), "ABC123");
    assert_eq!(normalize_for_query("ＡＢＣ１２３"), "ＡＢＣ１２３");
    assert_eq!(normalize_for_auto_completion("ァヶ"), "ぁゖ");
    assert_eq!(normalize_for_query("ァヶ"), "ァヶ");
    assert_eq!(normalize_for_auto_completion("ヷ"), "ヷ");
    assert_eq!(normalize_for_auto_completion("ﾃｽﾄ"), "てすと");
    assert_eq!(normalize_for_query("e\u{301}"), "é");
}

#[test]
fn decode_errors() {
    assert_eq!(decode_text("BR".to_string()).unwrap_err(), "Invalid encoded text format");
    assert_eq!(decode_text("br-Ow".to_string()).unwrap_err(), "Invalid encoded text format");
    assert!(decode_text("BR-@@".to_string()).unwrap_err().starts_with("Failed to decode Base64: "));
    assert!(decode_text("BR-AAAA".to_string()).unwrap_err().starts_with("Failed to decompress text"));
    let full = encode_text("hello".to_string()).unwrap();
    let cut = full[..full.len() - 2].to_string();
    assert!(decode_text(cut).is_err());
}

#[test]
fn decode_replaces_invalid_utf8() {
    // An uncompressed Brotli block holding the single byte 0xFF.
    assert_eq!(decode_text("BR-CwCA/wM".to_string()).unwrap(), "\u{FFFD}");
}
