use cheats::commands::Commands;
use cheats::commands::CorpusFile;
use cheats::commands::has_marker_extension;

fn file(name: &str, lines: &[&str]) -> CorpusFile {
    CorpusFile { name: name.to_string(), lines: lines.iter().map(|s| s.to_string()).collect() }
}

#[test]
fn marker_extension_is_recognised() {
    assert!(has_marker_extension("common.commands"));
    assert!(has_marker_extension("a.b.commands"));
    assert!(!has_marker_extension("commands"));
    assert!(!has_marker_extension(".commands"));
    assert!(!has_marker_extension("common.txt"));
    assert!(!has_marker_extension("common.commandsx"));
    assert!(!has_marker_extension(""));
}

#[test]
fn parse_keeps_marked_files_in_order() {
    let c = Commands::new("corpus".to_string());
    let files = vec![
        file("linux.commands", &["tar ## archive", "top ## processes"]),
        file("notes.txt", &["skip me"]),
        file("common.commands", &["cat ## print"]),
    ];
    let records = c.parse(&files);
    assert_eq!(records, vec!["tar ## archive", "top ## processes", "cat ## print"]);
}

#[test]
fn parse_of_nothing_is_empty() {
    let c = Commands::new("corpus".to_string());
    assert!(c.parse(&Vec::new()).is_empty());
}
