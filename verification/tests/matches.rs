use complx_app::matches::{BoyerMooreSearcher, Source};

#[test]
fn pattern_occurrences_are_counted() {
    let source = Source {
        text: "AABAACAADAABAABA".to_owned(),
        pattern: "AABA".to_owned(),
    };
    let searcher = BoyerMooreSearcher::new(source);
    assert_eq!(searcher.search().unwrap().ocurrences, 3);
}

#[test]
fn overlapping_occurrences_are_counted_shift_by_shift() {
    let source = Source {
        text: "aaaa".to_owned(),
        pattern: "aa".to_owned(),
    };
    let searcher = BoyerMooreSearcher::new(source);
    assert_eq!(searcher.search().unwrap().ocurrences, 3);
}

#[test]
fn absent_pattern_counts_zero() {
    let source = Source {
        text: "abcdefgh".to_owned(),
        pattern: "xyz".to_owned(),
    };
    let searcher = BoyerMooreSearcher::new(source);
    assert_eq!(searcher.search().unwrap().ocurrences, 0);
}

#[test]
fn longer_pattern_than_text_is_refused() {
    let source = Source {
        text: "short".to_owned(),
        pattern: "much longer pattern".to_owned(),
    };
    let searcher = BoyerMooreSearcher::new(source);
    assert_eq!(
        searcher.search().unwrap_err(),
        "pattern greater than file's content"
    );
}
