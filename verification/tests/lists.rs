use apt_sources_lists::SourceEntry;
use apt_sources_lists::SourceListType;
use apt_sources_lists::SourcesList;
use apt_sources_lists::SourcesLists;
use apt_sources_lists::source_line::parse_lines;

const SOURCE_LIST: &str = r#"
# deb cdrom:[Pop_OS 18.04 _Bionic Beaver_ - Release amd64 (20180916)]/ bionic main restricted
deb http://us.archive.ubuntu.com/ubuntu/ disco restricted multiverse universe main
deb-src http://us.archive.ubuntu.com/ubuntu/ disco restricted multiverse universe main
deb http://us.archive.ubuntu.com/ubuntu/ disco-updates restricted multiverse universe main
deb-src http://us.archive.ubuntu.com/ubuntu/ disco-updates restricted multiverse universe main
deb http://us.archive.ubuntu.com/ubuntu/ disco-security restricted multiverse universe main
deb-src http://us.archive.ubuntu.com/ubuntu/ disco-security restricted multiverse universe main
deb http://us.archive.ubuntu.com/ubuntu/ disco-backports restricted multiverse universe main
deb-src http://us.archive.ubuntu.com/ubuntu/ disco-backports restricted multiverse universe main
deb http://us.archive.ubuntu.com/ubuntu/ disco-proposed restricted multiverse universe main
deb-src http://us.archive.ubuntu.com/ubuntu/ disco-proposed restricted multiverse universe main

deb http://apt.pop-os.org/proprietary disco main
# deb-src http://apt.pop-os.org/proprietary disco main
"#;

const POP_PPA: &str = r#"
deb http://ppa.launchpad.net/system76/pop/ubuntu disco main
deb-src http://ppa.launchpad.net/system76/pop/ubuntu disco main
"#;

const POP_PPA_DISABLED: &str = r#"
# deb http://ppa.launchpad.net/system76/pop/ubuntu disco main
# deb-src http://ppa.launchpad.net/system76/pop/ubuntu disco main
"#;

fn sources_lists() -> SourcesLists {
    SourcesLists {
        modified: Vec::new(),
        files: vec![
            SourcesList {
                path: String::new(),
                entries: SourceListType::SourceLine(
                    parse_lines(SOURCE_LIST).expect("source list gen"),
                ),
            },
            SourcesList {
                path: String::new(),
                entries: SourceListType::SourceLine(parse_lines(POP_PPA).expect("pop ppa gen")),
            },
        ],
    }
}

fn sources_lists_pop_disabled() -> SourcesLists {
    SourcesLists {
        modified: Vec::new(),
        files: vec![
            SourcesList {
                path: String::new(),
                entries: SourceListType::SourceLine(
                    parse_lines(SOURCE_LIST).expect("source list gen"),
                ),
            },
            SourcesList {
                path: String::new(),
                entries: SourceListType::SourceLine(
                    parse_lines(POP_PPA_DISABLED).expect("pop ppa gen"),
                ),
            },
        ],
    }
}

#[test]
fn disable_sources() {
    let mut lists = sources_lists();

    lists.repo_modify("http://apt.pop-os.org/proprietary", false);
    let entries = lists.entries();
    let proprietary = entries
        .iter()
        .find(|e| e.url == "http://apt.pop-os.org/proprietary")
        .expect("failed to find proprietary PPA");

    assert!(!proprietary.enabled);
    assert_eq!(
        "# deb http://apt.pop-os.org/proprietary disco main",
        &proprietary.render()
    );
}

#[test]
fn enable_sources() {
    let mut lists = sources_lists_pop_disabled();

    lists.repo_modify("http://apt.pop-os.org/proprietary", true);
    let entries = lists.entries();
    let proprietary = entries
        .iter()
        .find(|e| e.url == "http://apt.pop-os.org/proprietary")
        .expect("failed to find proprietary PPA");

    assert!(proprietary.enabled);
    assert_eq!(
        "deb http://apt.pop-os.org/proprietary disco main",
        &proprietary.render()
    );
}

#[test]
fn modify_marks_only_matching_files() {
    let mut lists = sources_lists();
    // only the first file holds the proprietary repo
    let found = lists.repo_modify("http://apt.pop-os.org/proprietary", false);
    assert!(found);
    assert_eq!(lists.modified, vec![0]);
    // every entry of other URLs is left alone
    assert!(lists
        .entries()
        .iter()
        .filter(|e| e.url.starts_with("http") && e.url != "http://apt.pop-os.org/proprietary")
        .all(|e| e.enabled));
    // a repo that exists nowhere matches nothing and marks nothing
    let mut fresh = sources_lists();
    assert!(!fresh.repo_modify("http://nowhere.example/", false));
    assert!(fresh.modified.is_empty());
}

#[test]
fn replace_suite_only_rewrites_prefix_matches() {
    let text = "deb http://a/ noble main\ndeb http://b/ noble-security main\ndeb http://c/ jammy main\n";
    let mut lists = SourcesLists::new_from_paths(vec![(
        "/etc/apt/sources.list".to_string(),
        text.to_string(),
    )])
    .unwrap();
    lists.dist_replace("noble", "noble-updates");
    let entries = lists.entries();
    assert_eq!(entries[0].suite, "noble-updates");
    assert_eq!(entries[1].suite, "noble-updates-security");
    assert_eq!(entries[2].suite, "jammy");
    // in-memory only: the change reaches disk only through a later write-back
    assert_eq!(lists.modified, vec![0]);
    let writes = lists.write_sync();
    assert_eq!(writes.len(), 1);
    assert_eq!(writes[0].0, "/etc/apt/sources.list");
    assert!(writes[0].1.contains("noble-updates-security"));
    assert!(lists.modified.is_empty());
}

#[test]
fn insert_and_remove() {
    let mut lists = SourcesLists::new_from_paths(vec![(
        "/etc/apt/sources.list".to_string(),
        "deb http://a/ one main\n".to_string(),
    )])
    .unwrap();

    let fresh = SourceEntry {
        enabled: true,
        source: false,
        options: vec![],
        url: "http://b/".to_string(),
        suite: "two".to_string(),
        components: vec!["main".to_string()],
        is_deb822: false,
        archs: None,
        signed_by: None,
        trusted: false,
    };
    // appending to the existing file
    lists
        .insert_entry("/etc/apt/sources.list", fresh.clone())
        .unwrap();
    assert_eq!(lists.entries().len(), 2);
    assert_eq!(lists.modified, vec![0]);

    // replacing the entry that shares the URL
    let mut replacement = fresh.clone();
    replacement.suite = "three".to_string();
    lists
        .insert_entry("/etc/apt/sources.list", replacement)
        .unwrap();
    let entries = lists.entries();
    assert_eq!(entries.len(), 2);
    assert_eq!(entries[1].suite, "three");

    // a path nobody has yet creates a fresh line-style file
    let mut other = fresh.clone();
    other.url = "http://c/".to_string();
    lists
        .insert_entry("/etc/apt/sources.list.d/extra.list", other)
        .unwrap();
    assert_eq!(lists.files.len(), 2);
    assert_eq!(lists.files[1].path, "/etc/apt/sources.list.d/extra.list");

    lists.remove_entry("http://b/");
    assert!(lists
        .entries()
        .iter()
        .all(|e| e.url != "http://b/"));
}

#[test]
fn file_queries() {
    let f = SourcesList {
        path: String::new(),
        entries: SourceListType::SourceLine(
            parse_lines("# note\ndeb http://a/ one main\n\ndeb http://a/ two main\n").unwrap(),
        ),
    };
    assert!(f.is_active());
    // slots count lines, comments included
    assert_eq!(f.contains_entry("http://a/"), Some(1));
    assert_eq!(f.contains_entry("http://b/"), None);
    assert_eq!(f.get_entries_mut("http://a/"), vec![1, 3]);

    let empty = SourcesList {
        path: String::new(),
        entries: SourceListType::SourceLine(parse_lines("# only a note\n").unwrap()),
    };
    assert!(!empty.is_active());
}

#[test]
fn reload_discards_edits() {
    let mut f = SourcesList::parse("deb http://a/ one main\n").unwrap();
    f.path = "x.list".to_string();
    f.reload("deb http://b/ two main\n").unwrap();
    assert_eq!(f.path, "x.list");
    assert_eq!(f.contains_entry("http://b/"), Some(0));
    assert!(f.reload("deb\n").is_err());
    // a failed reload leaves the file as it was
    assert_eq!(f.contains_entry("http://b/"), Some(0));
}

#[test]
fn format_fallback() {
    // deb822 text parses as deb822
    let deb = SourcesList::parse("Types: deb\nURIs: http://a/\nSuites: one\n").unwrap();
    assert!(matches!(deb.entries, SourceListType::Deb822(_)));
    // line text falls back to the line codec
    let line = SourcesList::parse("deb http://a/ one main\n").unwrap();
    assert!(matches!(line.entries, SourceListType::SourceLine(_)));
    // a line that fits neither gives the bad line's index and cause
    match SourcesList::parse("deb http://a/ one main\nnot a source\n") {
        Err(apt_sources_lists::SourcesListError::BadLine { line, .. }) => assert_eq!(line, 1),
        other => panic!("expected a bad line, got {:?}", other),
    }
}

#[test]
fn entries_mut_tracks_changes() {
    let mut lists = SourcesLists::new_from_paths(vec![
        ("a.list".to_string(), "deb http://a/ one main\n".to_string()),
        ("b.list".to_string(), "deb http://b/ one main\n".to_string()),
    ])
    .unwrap();
    lists.entries_mut(|e: &SourceEntry| {
        if e.url == "http://b/" {
            let mut n = e.clone();
            n.enabled = false;
            Some(n)
        } else {
            None
        }
    });
    assert_eq!(lists.modified, vec![1]);
    let entries = lists.entries();
    assert!(entries[0].enabled);
    assert!(!entries[1].enabled);
}

#[test]
fn upgrade_renders_every_file_and_keeps_retained() {
    let mut lists = SourcesLists::new_from_paths(vec![
        (
            "a.list".to_string(),
            "deb http://a/ noble main\ndeb http://keep/ noble main\ndeb cdrom:x noble main\n"
                .to_string(),
        ),
        (
            "b.sources".to_string(),
            "Types: deb\nURIs: http://d/\nSuites: noble\nComponents: main\n".to_string(),
        ),
    ])
    .unwrap();
    let retain = vec!["http://keep/".to_string()];
    let writes = lists.dist_upgrade_render(&retain, "noble", "oracular");
    assert_eq!(writes.len(), 2);
    assert_eq!(writes[0].0, "a.list");
    assert!(writes[0].1.contains("deb http://a/ oracular main"));
    assert!(writes[0].1.contains("deb http://keep/ noble main"));
    assert!(writes[0].1.contains("deb cdrom:x noble main"));
    // the deb822 file is rendered without any suite substitution
    assert!(writes[1].1.contains("Suites: noble \n"));

    let paths = lists.dist_upgrade_paths("oracular", "oracular-updates");
    assert_eq!(paths, vec!["http://a/dists/oracular-updates".to_string()]);
}

#[test]
fn scan_filter_selects_list_and_sources() {
    let names = vec![
        "/r/etc/apt/sources.list.d/a.list".to_string(),
        "/r/etc/apt/sources.list.d/b.sources".to_string(),
        "/r/etc/apt/sources.list.d/c.save".to_string(),
        "/r/etc/apt/sources.list.d/list".to_string(),
    ];
    let picked = apt_sources_lists::sources_list::sources_list_paths(
        true,
        "/r/etc/apt/sources.list",
        &names,
    );
    assert_eq!(
        picked,
        vec![
            "/r/etc/apt/sources.list".to_string(),
            "/r/etc/apt/sources.list.d/a.list".to_string(),
            "/r/etc/apt/sources.list.d/b.sources".to_string(),
        ]
    );
    let no_default = apt_sources_lists::sources_list::sources_list_paths(
        false,
        "/r/etc/apt/sources.list",
        &names,
    );
    assert_eq!(no_default.len(), 2);
}

#[test]
fn write_sync_follows_first_marked_order() {
    let mut lists = SourcesLists::new_from_paths(vec![
        ("a.list".to_string(), "deb http://a/ one main\n".to_string()),
        ("b.list".to_string(), "deb http://b/ one main\n".to_string()),
        ("c.list".to_string(), "deb http://c/ one main\n".to_string()),
    ])
    .unwrap();
    // touch c first, then a; b stays untouched
    lists.repo_modify("http://c/", false);
    lists.repo_modify("http://a/", false);
    lists.repo_modify("http://c/", true);
    assert_eq!(lists.modified, vec![2, 0]);
    let writes = lists.write_sync();
    assert_eq!(writes.len(), 2);
    assert_eq!(writes[0].0, "c.list");
    assert_eq!(writes[1].0, "a.list");
    assert_eq!(writes[1].1, "# deb http://a/ one main\n");
}

#[test]
fn insert_takes_the_format_of_the_file() {
    let mut lists = SourcesLists::new_from_paths(vec![(
        "x.sources".to_string(),
        "Types: deb\nURIs: http://a/\nSuites: one\nComponents: main\n".to_string(),
    )])
    .unwrap();
    let fresh = SourceEntry {
        enabled: true,
        source: false,
        options: vec![],
        url: "http://b/".to_string(),
        suite: "two".to_string(),
        components: vec!["main".to_string()],
        is_deb822: false,
        archs: None,
        signed_by: None,
        trusted: false,
    };
    lists.insert_entry("x.sources", fresh).unwrap();
    let entries = lists.entries();
    assert_eq!(entries.len(), 2);
    assert!(entries[1].is_deb822);
    // the file renders as two paragraphs now
    let writes = lists.write_sync();
    assert_eq!(writes[0].1.matches("Types:").count(), 2);
}

#[test]
fn entries_mut_on_deb822_keeps_the_tag() {
    let mut lists = SourcesLists::new_from_paths(vec![(
        "x.sources".to_string(),
        "Types: deb\nURIs: http://a/\nSuites: one two\nComponents: main\n".to_string(),
    )])
    .unwrap();
    lists.entries_mut(|e: &SourceEntry| {
        let mut n = e.clone();
        n.suite = format!("{}-updates", n.suite);
        n.is_deb822 = false;
        Some(n)
    });
    let entries = lists.entries();
    assert_eq!(entries[0].suite, "one-updates");
    assert_eq!(entries[1].suite, "two-updates");
    // the format tag belongs to the file, not to the visitor
    assert!(entries.iter().all(|e| e.is_deb822));
    assert_eq!(lists.modified, vec![0]);
}
