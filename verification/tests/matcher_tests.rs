use cheats::matcher::Matcher;

fn corpus(lines: &[&str]) -> Vec<String> {
    lines.iter().map(|s| s.to_string()).collect()
}

#[test]
fn score_no_query_matches_everything_at_rank_zero() {
    let m = Matcher::new(10);
    let r = m.score(&"tar ## archive files".to_string(), &None).unwrap();
    assert_eq!(r.line, "tar ## archive files");
    assert_eq!(r.score, 0);
    assert!(r.matches.is_empty());
}

#[test]
fn score_query_rank_is_first_byte_offset() {
    let m = Matcher::new(10);
    let r = m.score(&"abcdef".to_string(), &Some("cd".to_string())).unwrap();
    assert_eq!(r.score, 2);
    assert_eq!(r.matches, vec![(2, 6)]);
}

#[test]
fn score_query_absent_from_line_gives_nothing() {
    let m = Matcher::new(10);
    assert!(m.score(&"abcdef".to_string(), &Some("xyz".to_string())).is_none());
}

#[test]
fn score_empty_query_matches_at_offset_zero() {
    let m = Matcher::new(10);
    let r = m.score(&"abc".to_string(), &Some(String::new())).unwrap();
    assert_eq!(r.score, 0);
    assert_eq!(r.matches, vec![(0, 3)]);
}

#[test]
fn score_repeated_occurrence_takes_the_first() {
    let m = Matcher::new(10);
    let r = m.score(&"xaxaxa".to_string(), &Some("xa".to_string())).unwrap();
    assert_eq!(r.score, 0);
}

#[test]
fn run_no_query_keeps_insertion_order() {
    let m = Matcher::new(10);
    let lines = corpus(&["b", "a", "c"]);
    let res = m.run(&lines, &None);
    let got: Vec<&str> = res.iter().map(|r| r.line.as_str()).collect();
    assert_eq!(got, vec!["b", "a", "c"]);
    assert!(res.iter().all(|r| r.score == 0 && r.matches.is_empty()));
}

#[test]
fn run_truncates_to_the_cap() {
    let m = Matcher::new(2);
    let lines = corpus(&["a", "b", "c", "d", "e"]);
    assert_eq!(m.run(&lines, &None).len(), 2);
    assert_eq!(m.run(&lines, &Some("z".to_string())).len(), 0);
}

#[test]
fn run_end_to_end_single_match() {
    let m = Matcher::new(10);
    let lines = corpus(&[
        "tar ## archive files",
        "top ## show processes",
        "cat ## print file",
    ]);
    let res = m.run(&lines, &Some("ta".to_string()));
    assert_eq!(res.len(), 1);
    assert_eq!(res[0].line, "tar ## archive files");
    assert_eq!(res[0].score, 0);
}

#[test]
fn run_stable_tie_break_keeps_original_order() {
    let m = Matcher::new(10);
    let lines = corpus(&["abc", "xabc", "abcx"]);
    let res = m.run(&lines, &Some("abc".to_string()));
    let got: Vec<(&str, usize)> = res.iter().map(|r| (r.line.as_str(), r.score)).collect();
    assert_eq!(got, vec![("abc", 0), ("abcx", 0), ("xabc", 1)]);
}

#[test]
fn run_sorts_ascending_by_rank() {
    let m = Matcher::new(10);
    let lines = corpus(&["xxq", "q", "xq"]);
    let res = m.run(&lines, &Some("q".to_string()));
    let scores: Vec<usize> = res.iter().map(|r| r.score).collect();
    assert_eq!(scores, vec![0, 1, 2]);
}

#[test]
fn run_cap_keeps_the_best_ranks() {
    let m = Matcher::new(2);
    let lines = corpus(&["xxq", "q", "xq"]);
    let res = m.run(&lines, &Some("q".to_string()));
    let got: Vec<&str> = res.iter().map(|r| r.line.as_str()).collect();
    assert_eq!(got, vec!["q", "xq"]);
}

#[test]
fn run_on_an_empty_corpus_is_empty() {
    let m = Matcher::new(10);
    assert!(m.run(&Vec::new(), &None).is_empty());
    assert!(m.run(&Vec::new(), &Some("q".to_string())).is_empty());
}

#[test]
fn a_query_longer_than_the_line_never_matches() {
    let m = Matcher::new(10);
    assert!(m.score(&"ab".to_string(), &Some("abc".to_string())).is_none());
}
