use cheats::tldr::ArchiveEntry;
use cheats::tldr::MdEvent;
use cheats::tldr::Updater;

const PAGE: &str = "# tar\n\n> archive tool\n\n- create an archive:\n\n`tar cf target.tar file`\n\n- extract:\n\n`tar xf source.tar`\n";

#[test]
fn parse_events_emits_one_record_per_command() {
    let events = vec![
        MdEvent::StartBlockQuote,
        MdEvent::Text("quoted".to_string()),
        MdEvent::EndBlockQuote,
        MdEvent::StartItem,
        MdEvent::Text("description:".to_string()),
        MdEvent::EndItem,
        MdEvent::Code("cmd -x".to_string()),
    ];
    let records = Updater::parse_events(events);
    assert_eq!(records, vec!["cmd -x ## description"]);
}

#[test]
fn code_inside_an_item_or_quote_is_no_command() {
    let events = vec![
        MdEvent::StartItem,
        MdEvent::Code("inside item".to_string()),
        MdEvent::EndItem,
        MdEvent::StartBlockQuote,
        MdEvent::Code("inside quote".to_string()),
        MdEvent::EndBlockQuote,
        MdEvent::Code("real".to_string()),
    ];
    let records = Updater::parse_events(events);
    assert_eq!(records, vec!["real ## "]);
}

#[test]
fn an_empty_command_emits_nothing_but_clears_the_description() {
    let events = vec![
        MdEvent::StartItem,
        MdEvent::Text("gone:".to_string()),
        MdEvent::EndItem,
        MdEvent::Code(String::new()),
        MdEvent::Code("next".to_string()),
    ];
    let records = Updater::parse_events(events);
    assert_eq!(records, vec!["next ## "]);
}

#[test]
fn parse_file_reads_a_cheat_sheet_page() {
    let u = Updater::new(None);
    let records = u.parse_file(PAGE);
    assert_eq!(
        records,
        vec![
            "tar cf target.tar file ## create an archive",
            "tar xf source.tar ## extract",
        ]
    );
}

#[test]
fn parse_files_sorts_entries_into_the_two_corpus_files() {
    let u = Updater::new(Some("linux".to_string()));
    let entries = vec![
        ArchiveEntry {
            path: "tldr-main/pages/common/a.md".to_string(),
            text: "- first:\n\n`one`\n".to_string(),
        },
        ArchiveEntry {
            path: "tldr-main/pages/linux/b.md".to_string(),
            text: "- second:\n\n`two`\n".to_string(),
        },
        ArchiveEntry {
            path: "tldr-main/pages/osx/c.md".to_string(),
            text: "- skipped:\n\n`three`\n".to_string(),
        },
        ArchiveEntry {
            path: "tldr-main/pages.fr/common/d.md".to_string(),
            text: "- wrong tree:\n\n`four`\n".to_string(),
        },
        ArchiveEntry {
            path: "tldr-main/pages/common/README".to_string(),
            text: "no markdown".to_string(),
        },
    ];
    let (common, platform) = u.parse_files(&entries);
    assert_eq!(common, "one ## first\n");
    assert_eq!(platform.unwrap(), "two ## second\n");
}

#[test]
fn without_a_platform_only_the_common_file_exists() {
    let u = Updater::new(None);
    let entries = vec![ArchiveEntry {
        path: "tldr-main/pages/linux/b.md".to_string(),
        text: "- second:\n\n`two`\n".to_string(),
    }];
    let (common, platform) = u.parse_files(&entries);
    assert_eq!(common, "");
    assert!(platform.is_none());
}

#[test]
fn update_unpacks_a_real_archive() {
    let mut tarball: Vec<u8> = Vec::new();
    {
        let encoder =
            flate2::write::GzEncoder::new(&mut tarball, flate2::Compression::default());
        let mut builder = tar::Builder::new(encoder);
        let page = PAGE.as_bytes();
        let mut header = tar::Header::new_gnu();
        header.set_size(page.len() as u64);
        header.set_cksum();
        builder
            .append_data(&mut header, "tldr-main/pages/common/tar.md", page)
            .unwrap();
        builder.into_inner().unwrap().finish().unwrap();
    }
    let u = Updater::new(Some("linux".to_string()));
    let (common, platform) = u.update(&tarball);
    assert_eq!(
        common,
        "tar cf target.tar file ## create an archive\ntar xf source.tar ## extract\n"
    );
    assert_eq!(platform.unwrap(), "");
}
