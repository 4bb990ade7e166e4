use apt_sources_lists::Signature;
use apt_sources_lists::SourceEntry;
use apt_sources_lists::SourceError;
use apt_sources_lists::SourceLine;

#[test]
fn binary() {
    assert_eq!(
        SourceLine::parse(
            "deb http://us.archive.ubuntu.com/ubuntu/ cosmic main \
             restricted universe multiverse"
        )
        .unwrap(),
        SourceLine::Entry(SourceEntry {
            enabled: true,
            source: false,
            url: "http://us.archive.ubuntu.com/ubuntu/".into(),
            suite: "cosmic".into(),
            options: vec![],
            components: vec![
                "main".into(),
                "restricted".into(),
                "universe".into(),
                "multiverse".into(),
            ],
            is_deb822: false,
            archs: None,
            signed_by: None,
            trusted: false,
        })
    );
}

#[test]
fn source() {
    assert_eq!(
        SourceLine::parse(
            "deb-src http://us.archive.ubuntu.com/ubuntu/ cosmic main \
             restricted universe multiverse"
        )
        .unwrap(),
        SourceLine::Entry(SourceEntry {
            enabled: true,
            source: true,
            url: "http://us.archive.ubuntu.com/ubuntu/".into(),
            suite: "cosmic".into(),
            options: vec![],
            components: vec![
                "main".into(),
                "restricted".into(),
                "universe".into(),
                "multiverse".into(),
            ],
            is_deb822: false,
            archs: None,
            signed_by: None,
            trusted: false,
        })
    );
}

#[test]
fn fluff() {
    // a commented-out entry of either kind is a disabled entry
    let commented = "# deb-src http://us.archive.ubuntu.com/ubuntu/ cosmic main \
                     restricted universe multiverse";
    assert_eq!(
        SourceLine::parse(commented).unwrap(),
        SourceLine::Entry(SourceEntry {
            enabled: false,
            source: true,
            url: "http://us.archive.ubuntu.com/ubuntu/".into(),
            suite: "cosmic".into(),
            options: vec![],
            components: vec![
                "main".into(),
                "restricted".into(),
                "universe".into(),
                "multiverse".into(),
            ],
            is_deb822: false,
            archs: None,
            signed_by: None,
            trusted: false,
        })
    );

    // a remark that holds no entry stays an opaque comment
    let comment = "# no source here";
    assert_eq!(
        SourceLine::parse(comment).unwrap(),
        SourceLine::Comment(comment.into())
    );

    assert_eq!(SourceLine::parse("").unwrap(), SourceLine::Empty);
}

#[test]
fn options() {
    let options = [
        "deb [ arch=amd64 ] http://apt.pop-os.org/proprietary cosmic main",
        "deb [arch=amd64 ] http://apt.pop-os.org/proprietary cosmic main",
        "deb [ arch=amd64] http://apt.pop-os.org/proprietary cosmic main",
        "deb [arch=amd64]http://apt.pop-os.org/proprietary cosmic main",
        "deb [ arch=amd64 ]http://apt.pop-os.org/proprietary cosmic main",
    ];

    for source in &options {
        assert_eq!(
            SourceLine::parse(source).unwrap(),
            SourceLine::Entry(SourceEntry {
                enabled: true,
                source: false,
                url: "http://apt.pop-os.org/proprietary".into(),
                suite: "cosmic".into(),
                options: vec![],
                components: vec!["main".into()],
                is_deb822: false,
                archs: Some(vec!["amd64".to_string()]),
                signed_by: None,
                trusted: false,
            })
        )
    }

    let options = [
        "deb [arch=amd64 signed-by=/usr/share/keyrings/termius-2023.gpg,/usr/share/keyrings/termius-2026.gpg a=b] https://deb.termius.com squeeze main",
        "deb [ arch=amd64 signed-by=/usr/share/keyrings/termius-2023.gpg,/usr/share/keyrings/termius-2026.gpg a=b] https://deb.termius.com squeeze main",
        "deb [ arch=amd64 signed-by=/usr/share/keyrings/termius-2023.gpg,/usr/share/keyrings/termius-2026.gpg a=b ] https://deb.termius.com squeeze main",
        "deb [arch=amd64 signed-by=/usr/share/keyrings/termius-2023.gpg,/usr/share/keyrings/termius-2026.gpg a=b ] https://deb.termius.com squeeze main"
    ];

    for source in &options {
        assert_eq!(
            SourceLine::parse(source).unwrap(),
            SourceLine::Entry(SourceEntry {
                enabled: true,
                source: false,
                url: "https://deb.termius.com".into(),
                suite: "squeeze".into(),
                options: vec![("a".to_string(), vec!["b".to_string()])],
                components: vec!["main".into()],
                is_deb822: false,
                archs: Some(vec!["amd64".to_string()]),
                signed_by: Some(Signature::KeyPath(vec![
                    "/usr/share/keyrings/termius-2023.gpg".into(),
                    "/usr/share/keyrings/termius-2026.gpg".into()
                ]),),
                trusted: false,
            })
        )
    }
}

#[test]
fn trailing_slash_kept_in_storage_only() {
    let line = "deb http://us.archive.ubuntu.com/ubuntu/ cosmic main restricted";
    let parsed = SourceLine::parse(line).unwrap();
    match parsed {
        SourceLine::Entry(e) => {
            assert!(!e.source);
            assert_eq!(e.url, "http://us.archive.ubuntu.com/ubuntu/");
            assert_eq!(e.url(), "http://us.archive.ubuntu.com/ubuntu");
            assert_eq!(
                e.components,
                vec!["main".to_string(), "restricted".to_string()]
            );
        }
        other => panic!("expected an entry, got {:?}", other),
    }
}

#[test]
fn bracket_spacing_is_irrelevant() {
    let with_spaces = SourceLine::parse("deb [ arch=amd64 ] http://x/ suite main").unwrap();
    let glued = SourceLine::parse("deb [arch=amd64]http://x/ suite main").unwrap();
    assert_eq!(with_spaces, glued);
    match glued {
        SourceLine::Entry(e) => {
            assert_eq!(e.archs, Some(vec!["amd64".to_string()]));
            assert!(e.options.is_empty());
            assert_eq!(e.url, "http://x/");
            assert_eq!(e.suite, "suite");
            assert_eq!(e.components, vec!["main".to_string()]);
        }
        other => panic!("expected an entry, got {:?}", other),
    }
}

#[test]
fn disabled_entry_parses_and_renders() {
    let parsed = SourceLine::parse("# deb http://apt.pop-os.org/proprietary disco main").unwrap();
    match &parsed {
        SourceLine::Entry(e) => {
            assert!(!e.enabled);
            assert!(!e.source);
            assert_eq!(e.url, "http://apt.pop-os.org/proprietary");
        }
        other => panic!("expected an entry, got {:?}", other),
    }
    assert_eq!(
        parsed.render(),
        "# deb http://apt.pop-os.org/proprietary disco main"
    );
}

#[test]
fn round_trip_keeps_the_entry() {
    let lines = [
        "deb http://us.archive.ubuntu.com/ubuntu/ disco main universe",
        "deb-src http://us.archive.ubuntu.com/ubuntu/ disco main",
        "deb [a=b,c d=] http://x/ suite main contrib",
        "# deb http://apt.pop-os.org/proprietary disco main",
        "# deb-src http://apt.pop-os.org/proprietary disco main",
    ];
    for line in &lines {
        let first = SourceLine::parse(line).unwrap();
        let rendered = first.render();
        let second = SourceLine::parse(&rendered).unwrap();
        match (&first, &second) {
            (SourceLine::Entry(a), SourceLine::Entry(b)) => {
                assert_eq!(a.enabled, b.enabled);
                assert_eq!(a.source, b.source);
                assert_eq!(a.url, b.url);
                assert_eq!(a.suite, b.suite);
                assert_eq!(a.components, b.components);
            }
            other => panic!("expected entries, got {:?}", other),
        }
    }
}

#[test]
fn missing_fields_are_reported() {
    assert!(matches!(
        SourceEntry::parse(""),
        Err(SourceError::MissingField { .. })
    ));
    assert!(matches!(
        SourceEntry::parse("deb"),
        Err(SourceError::MissingField { .. })
    ));
    assert!(matches!(
        SourceEntry::parse("deb http://x/"),
        Err(SourceError::MissingField { .. })
    ));
    assert!(matches!(
        SourceEntry::parse("deb [a=b http://x/ suite"),
        Err(SourceError::MissingField { .. })
    ));
    assert!(matches!(
        SourceEntry::parse("rpm http://x/ suite main"),
        Err(SourceError::InvalidValue { .. })
    ));
}

#[test]
fn derived_paths() {
    let e = match SourceLine::parse("deb http://us.archive.ubuntu.com/ubuntu/ cosmic main").unwrap()
    {
        SourceLine::Entry(e) => e,
        other => panic!("expected an entry, got {:?}", other),
    };
    assert_eq!(e.dist_path(), "http://us.archive.ubuntu.com/ubuntu/dists/cosmic");
    assert_eq!(
        e.dist_path_get("Release"),
        "http://us.archive.ubuntu.com/ubuntu/dists/cosmic/Release"
    );
    assert_eq!(
        e.dist_components(),
        vec!["http://us.archive.ubuntu.com/ubuntu/dists/cosmic/main".to_string()]
    );
    assert_eq!(e.pool_path(), "http://us.archive.ubuntu.com/ubuntu/pool/");
    assert_eq!(e.filename(), "us.archive.ubuntu.com_ubuntu");
}

#[test]
fn signature_disambiguation() {
    let block = "start\n-----BEGIN PGP PUBLIC KEY BLOCK-----\nabc\n-----END PGP PUBLIC KEY BLOCK-----";
    match Signature::parse(block) {
        Signature::KeyBlock(t) => assert_eq!(t, block),
        other => panic!("expected a key block, got {:?}", other),
    }

    let paths = " /usr/share/keyrings/one.gpg \n\n  /usr/share/keyrings/two.gpg";
    match Signature::parse(paths) {
        Signature::KeyPath(ps) => assert_eq!(
            ps,
            vec![
                "/usr/share/keyrings/one.gpg".to_string(),
                "/usr/share/keyrings/two.gpg".to_string()
            ]
        ),
        other => panic!("expected key paths, got {:?}", other),
    }
}

#[test]
fn signature_rendering() {
    let one = Signature::KeyPath(vec!["/a/b.gpg".into()]);
    assert_eq!(one.render(), " /a/b.gpg");
    let two = Signature::KeyPath(vec!["/a.gpg".into(), "/b.gpg".into()]);
    assert_eq!(two.render(), "\n /a.gpg\n /b.gpg");
    let block = Signature::KeyBlock("KEY".into());
    assert_eq!(block.render(), "\nKEY");
}

#[test]
fn empty_options_with_bracket_url_cannot_round_trip() {
    // The one line the grammar cannot read back: an empty option block in
    // front of a URL that itself opens with `[`.  It parses, but its
    // rendering looks like an unterminated option block.
    let parsed = SourceLine::parse("deb [] [x/ suite main").unwrap();
    let entry = match &parsed {
        SourceLine::Entry(e) => e,
        other => panic!("expected an entry, got {:?}", other),
    };
    assert!(entry.options.is_empty());
    assert_eq!(entry.url, "[x/");
    let rendered = parsed.render();
    assert_eq!(rendered, "deb [x/ suite main");
    assert!(matches!(
        SourceLine::parse(&rendered),
        Err(SourceError::MissingField { .. })
    ));
}

#[test]
fn duplicate_reserved_keys_leave_no_options() {
    // every occurrence of a reserved key is removed from the generic
    // options; the typed value comes from the first occurrence
    let parsed = SourceLine::parse("deb [arch=a arch=b] http://x/ one main").unwrap();
    match parsed {
        SourceLine::Entry(e) => {
            assert_eq!(e.archs, Some(vec!["a".to_string()]));
            assert!(e.options.is_empty());
        }
        other => panic!("expected an entry, got {:?}", other),
    }
    let parsed = SourceLine::parse("deb [trusted=no trusted=yes] http://x/ one main").unwrap();
    match parsed {
        SourceLine::Entry(e) => {
            assert!(!e.trusted);
            assert!(e.options.is_empty());
        }
        other => panic!("expected an entry, got {:?}", other),
    }
}

#[test]
fn unicode_whitespace_separates_tokens() {
    // the tokenizer follows the full Unicode white-space set
    let parsed = SourceLine::parse("deb\u{00A0}http://x/ one\u{2003}main").unwrap();
    assert_eq!(
        parsed,
        SourceLine::Entry(SourceEntry {
            enabled: true,
            source: false,
            url: "http://x/".into(),
            suite: "one".into(),
            options: vec![],
            components: vec!["main".into()],
            is_deb822: false,
            archs: None,
            signed_by: None,
            trusted: false,
        })
    );
}
