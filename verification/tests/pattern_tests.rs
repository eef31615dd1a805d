use rpxlog_core::pattern::{find_all, find_match, is_match, CharClass, Piece, Quant};

fn p(class: CharClass, quant: Quant) -> Piece {
    Piece { class, quant }
}

fn chars(s: &str) -> Vec<char> {
    s.chars().collect()
}

#[test]
fn greedy_run_is_leftmost_and_longest() {
    let pat = vec![p(CharClass::Digit, Quant::Plus)];
    let m = find_match(&pat, &chars("ab123c45"), 0).unwrap();
    assert_eq!(m.start, 2);
    assert_eq!(m.counts, vec![3]);
    let m = find_match(&pat, &chars("ab123c45"), 5).unwrap();
    assert_eq!(m.start, 6);
    assert_eq!(m.counts, vec![2]);
    assert!(find_match(&pat, &chars("abc"), 0).is_none());
}

#[test]
fn lazy_run_is_shortest_that_lets_the_rest_match() {
    let pat = vec![
        p(CharClass::Exactly('<' as u32), Quant::One),
        p(CharClass::Any, Quant::LazyPlus),
        p(CharClass::Exactly('>' as u32), Quant::One),
    ];
    let m = find_match(&pat, &chars("x<a>b<c>"), 0).unwrap();
    assert_eq!(m.start, 1);
    assert_eq!(m.counts, vec![1, 1, 1]);
    let greedy = vec![
        p(CharClass::Exactly('<' as u32), Quant::One),
        p(CharClass::Any, Quant::Plus),
        p(CharClass::Exactly('>' as u32), Quant::One),
    ];
    let m = find_match(&greedy, &chars("x<a>b<c>"), 0).unwrap();
    assert_eq!(m.counts, vec![1, 5, 1]);
}

#[test]
fn greedy_gives_back_for_the_rest() {
    // `[ \S]+=` on a line with two `=`: the run stops before the last one.
    let pat = vec![
        p(CharClass::LineChar, Quant::Plus),
        p(CharClass::Exactly('=' as u32), Quant::One),
        p(CharClass::LineChar, Quant::Star),
    ];
    let m = find_match(&pat, &chars("a=b=c"), 0).unwrap();
    assert_eq!(m.counts, vec![3, 1, 1]);
}

#[test]
fn all_matches_do_not_overlap() {
    let pat = vec![p(CharClass::NonSpace, Quant::Plus)];
    let t = chars("  one two\tthree\n");
    let ms = find_all(&pat, &t);
    let words: Vec<String> = ms
        .iter()
        .map(|m| t[m.start..m.start + m.counts[0]].iter().collect())
        .collect();
    assert_eq!(words, vec!["one", "two", "three"]);
}

#[test]
fn classes_of_characters() {
    let num = vec![p(CharClass::NumberChar, Quant::Plus)];
    assert!(is_match(&num, "x-1.5"));
    assert!(!is_match(&num, "abc"));
    let upper = vec![p(CharClass::Upper, Quant::One)];
    assert!(is_match(&upper, "abcD"));
    assert!(!is_match(&upper, "abcd"));
    let space = vec![p(CharClass::Space, Quant::One)];
    assert!(is_match(&space, "a\u{3000}b"));
    assert!(!is_match(&space, "ab"));
}
