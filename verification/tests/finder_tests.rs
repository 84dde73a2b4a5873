use cheats::events::FinderCommand;
use cheats::finder::Finder;
use cheats::matcher::Matcher;

fn corpus(lines: &[&str]) -> Vec<String> {
    lines.iter().map(|s| s.to_string()).collect()
}

#[test]
fn refresh_publishes_the_whole_snapshot_unfiltered() {
    let mut f = Finder::new();
    let published = f.run(vec![FinderCommand::Refresh(corpus(&["a", "b"]))]);
    assert_eq!(published.len(), 1);
    let got: Vec<&str> = published[0].iter().map(|r| r.line.as_str()).collect();
    assert_eq!(got, vec!["a", "b"]);
}

#[test]
fn query_filters_the_current_snapshot() {
    let mut f = Finder::new();
    let published = f.run(vec![
        FinderCommand::Refresh(corpus(&["tar", "top", "cat"])),
        FinderCommand::Query("ta".to_string()),
    ]);
    assert_eq!(published.len(), 2);
    let got: Vec<&str> = published[1].iter().map(|r| r.line.as_str()).collect();
    assert_eq!(got, vec!["tar"]);
}

#[test]
fn last_processed_message_wins() {
    let mut f = Finder::new();
    let snapshot_a = corpus(&["xa", "b"]);
    let snapshot_b = corpus(&["c", "x"]);
    let published = f.run(vec![
        FinderCommand::Refresh(snapshot_a),
        FinderCommand::Query("x".to_string()),
        FinderCommand::Refresh(snapshot_b),
    ]);
    assert_eq!(published.len(), 3);
    // the third set reflects the second snapshot and the query "x"
    let third: Vec<&str> = published[2].iter().map(|r| r.line.as_str()).collect();
    assert_eq!(third, vec!["x"]);
    // the second reflected the first snapshot under the same query
    let second: Vec<&str> = published[1].iter().map(|r| r.line.as_str()).collect();
    assert_eq!(second, vec!["xa"]);
}

#[test]
fn result_sets_are_capped_at_ten() {
    let mut f = Finder::new();
    let many: Vec<String> = (0..25).map(|i| format!("row {}", i)).collect();
    let published = f.run(vec![FinderCommand::Refresh(many)]);
    assert_eq!(published[0].len(), 10);
}

#[test]
fn compute_matches_uses_the_held_state() {
    let mut f = Finder::new();
    let _ = f.handle(FinderCommand::Refresh(corpus(&["abc", "xabc"])));
    let _ = f.handle(FinderCommand::Query("abc".to_string()));
    let res = f.compute_matches(&Matcher::new(10));
    let got: Vec<(&str, usize)> = res.iter().map(|r| (r.line.as_str(), r.score)).collect();
    assert_eq!(got, vec![("abc", 0), ("xabc", 1)]);
}
