use apt_sources_lists::Signature;
use apt_sources_lists::SourceEntry;
use apt_sources_lists::SourceError;
use apt_sources_lists::SourceListDeb822;

#[test]
fn test_deb822_flat_repo() {
    let s = r#"Types: deb
URIs: https://github.com/CrossPaste/crosspaste-desktop/releases/latest/download/
Suites: ./
Signed-By: /etc/apt/trusted.gpg.d/crosspaste.asc
"#;

    let sources = SourceListDeb822::parse(s);

    assert_eq!(
        sources.unwrap(),
        SourceListDeb822 {
            entries: vec![SourceEntry {
                enabled: true,
                source: false,
                options: vec![],
                url: "https://github.com/CrossPaste/crosspaste-desktop/releases/latest/download/".to_string(),
                suite: "./".to_string(),
                components: vec![],
                signed_by: Some(Signature::KeyPath(vec![
                    "/etc/apt/trusted.gpg.d/crosspaste.asc".into()
                ])),
                is_deb822: true,
                archs: None,
                trusted: false,
            }]
        }
    );
}

#[test]
fn test_parse_deb822() {
    let sources = SourceListDeb822::parse(
        r"Types: deb
URIs: http://security.ubuntu.com/ubuntu/
Suites: noble-security
Components: restricted universe multiverse main
Signed-By: /usr/share/keyrings/ubuntu-archive-keyring.gpg

Types: deb-src
URIs: http://cn.archive.ubuntu.com/ubuntu/
Suites: noble noble-security
Components: restricted universe multiverse main
Signed-By: /usr/share/keyrings/ubuntu-archive-keyring.gpg

Types: deb
URIs: http://cn.archive.ubuntu.com/ubuntu/
Suites: noble
Components: restricted universe multiverse main
Signed-By: /usr/share/keyrings/ubuntu-archive-keyring.gpg
",
    );

    assert_eq!(
        sources.unwrap(),
        SourceListDeb822 {
            entries: vec![
                SourceEntry {
                    enabled: true,
                    source: false,
                    options: vec![],
                    url: "http://security.ubuntu.com/ubuntu/".to_string(),
                    suite: "noble-security".to_string(),
                    components: vec![
                        "restricted".to_string(),
                        "universe".to_string(),
                        "multiverse".to_string(),
                        "main".to_string(),
                    ],
                    signed_by: Some(Signature::KeyPath(vec![
                        "/usr/share/keyrings/ubuntu-archive-keyring.gpg".into()
                    ])),
                    is_deb822: true,
                    archs: None,
                    trusted: false,
                },
                SourceEntry {
                    enabled: true,
                    source: true,
                    options: vec![],
                    url: "http://cn.archive.ubuntu.com/ubuntu/".to_string(),
                    suite: "noble".to_string(),
                    components: vec![
                        "restricted".to_string(),
                        "universe".to_string(),
                        "multiverse".to_string(),
                        "main".to_string(),
                    ],
                    is_deb822: true,
                    signed_by: Some(Signature::KeyPath(vec![
                        "/usr/share/keyrings/ubuntu-archive-keyring.gpg".into()
                    ])),
                    archs: None,
                    trusted: false,
                },
                SourceEntry {
                    enabled: true,
                    source: true,
                    options: vec![],
                    url: "http://cn.archive.ubuntu.com/ubuntu/".to_string(),
                    suite: "noble-security".to_string(),
                    components: vec![
                        "restricted".to_string(),
                        "universe".to_string(),
                        "multiverse".to_string(),
                        "main".to_string(),
                    ],
                    is_deb822: true,
                    archs: None,
                    signed_by: Some(Signature::KeyPath(vec![
                        "/usr/share/keyrings/ubuntu-archive-keyring.gpg".into()
                    ])),
                    trusted: false,
                },
                SourceEntry {
                    enabled: true,
                    source: false,
                    options: vec![],
                    url: "http://cn.archive.ubuntu.com/ubuntu/".to_string(),
                    suite: "noble".to_string(),
                    components: vec![
                        "restricted".to_string(),
                        "universe".to_string(),
                        "multiverse".to_string(),
                        "main".to_string(),
                    ],
                    is_deb822: true,
                    archs: None,
                    signed_by: Some(Signature::KeyPath(vec![
                        "/usr/share/keyrings/ubuntu-archive-keyring.gpg".into()
                    ])),
                    trusted: false,
                },
            ]
        }
    );
}

#[test]
fn test_serialize_deb822() {
    let sources = SourceListDeb822 {
        entries: vec![
            SourceEntry {
                enabled: true,
                source: false,
                options: vec![],
                url: "https://mirrors.ustc.edu.cn/ubuntu".to_string(),
                suite: "noble".to_string(),
                components: vec![
                    "main".to_string(),
                    "restricted".to_string(),
                    "universe".to_string(),
                    "multiverse".to_string(),
                ],
                is_deb822: true,
                archs: None,
                signed_by: Some(Signature::KeyPath(vec![
                    "/usr/share/keyrings/ubuntu-archive-keyring.gpg".into(),
                ])),
                trusted: false,
            },
            SourceEntry {
                enabled: true,
                source: false,
                options: vec![],
                url: "https://mirrors.ustc.edu.cn/ubuntu".to_string(),
                suite: "noble-updates".to_string(),
                components: vec![
                    "main".to_string(),
                    "restricted".to_string(),
                    "universe".to_string(),
                    "multiverse".to_string(),
                ],
                is_deb822: true,
                archs: None,
                signed_by: Some(Signature::KeyPath(vec![
                    "/usr/share/keyrings/ubuntu-archive-keyring.gpg".into(),
                ])),
                trusted: false,
            },
            SourceEntry {
                enabled: true,
                source: false,
                options: vec![],
                url: "https://mirrors.ustc.edu.cn/ubuntu".to_string(),
                suite: "noble-backports".to_string(),
                components: vec![
                    "main".to_string(),
                    "restricted".to_string(),
                    "universe".to_string(),
                    "multiverse".to_string(),
                ],
                is_deb822: true,
                archs: None,
                signed_by: Some(Signature::KeyPath(vec![
                    "/usr/share/keyrings/ubuntu-archive-keyring.gpg".into(),
                ])),
                trusted: false,
            },
        ],
    };

    assert_eq!(
        sources.render(),
        r#"Types: deb
URIs: https://mirrors.ustc.edu.cn/ubuntu
Suites: noble noble-updates noble-backports 
Components: main restricted universe multiverse
Signed-By: /usr/share/keyrings/ubuntu-archive-keyring.gpg
"#
    );
}

#[test]
fn groups_expand_and_regroup() {
    // Two distinct (url, type) groups with two suites each parse into
    // exactly four entries, and serialize back into exactly two paragraphs,
    // each listing its suites in first-seen order.
    let text = "Types: deb\nURIs: http://a/\nSuites: one two\nComponents: main\n\nTypes: deb\nURIs: http://b/\nSuites: three four\nComponents: main\n";
    let parsed = SourceListDeb822::parse(text).unwrap();
    assert_eq!(parsed.entries.len(), 4);
    assert_eq!(parsed.entries[0].suite, "one");
    assert_eq!(parsed.entries[1].suite, "two");
    assert_eq!(parsed.entries[2].suite, "three");
    assert_eq!(parsed.entries[3].suite, "four");

    let rendered = parsed.render();
    assert_eq!(rendered.matches("Types:").count(), 2);
    assert_eq!(rendered.matches("Suites: one two \n").count(), 1);
    assert_eq!(rendered.matches("Suites: three four \n").count(), 1);
    let first = rendered.find("URIs: http://a/").unwrap();
    let second = rendered.find("URIs: http://b/").unwrap();
    assert!(first < second);
}

#[test]
fn interleaved_groups_serialize_once() {
    let entry = |url: &str, suite: &str| SourceEntry {
        enabled: true,
        source: false,
        options: vec![],
        url: url.to_string(),
        suite: suite.to_string(),
        components: vec!["main".to_string()],
        is_deb822: true,
        archs: None,
        signed_by: None,
        trusted: false,
    };
    let sources = SourceListDeb822 {
        entries: vec![
            entry("http://a/", "one"),
            entry("http://b/", "three"),
            entry("http://a/", "two"),
        ],
    };
    let rendered = sources.render();
    assert_eq!(rendered.matches("URIs: http://a/").count(), 1);
    assert_eq!(rendered.matches("Suites: one two \n").count(), 1);
    assert_eq!(rendered.matches("Suites: three \n").count(), 1);
}

#[test]
fn cartesian_product_order() {
    let text = "Types: deb deb-src\nURIs: http://a/ http://b/\nSuites: s1 s2\n";
    let parsed = SourceListDeb822::parse(text).unwrap();
    assert_eq!(parsed.entries.len(), 8);
    // suites outermost, then URIs, then types
    assert_eq!(parsed.entries[0].suite, "s1");
    assert_eq!(parsed.entries[0].url, "http://a/");
    assert!(!parsed.entries[0].source);
    assert!(parsed.entries[1].source);
    assert_eq!(parsed.entries[2].url, "http://b/");
    assert_eq!(parsed.entries[4].suite, "s2");
    // every entry carries empty components by default
    assert!(parsed.entries.iter().all(|e| e.components.is_empty()));
}

#[test]
fn deb822_errors() {
    assert!(matches!(
        SourceListDeb822::parse("Suites: noble\n"),
        Err(SourceError::SyntaxError { .. })
    ));
    assert!(matches!(
        SourceListDeb822::parse("URIs: http://a/\n"),
        Err(SourceError::SyntaxError { .. })
    ));
    assert!(matches!(
        SourceListDeb822::parse("URIs: http://a/\nSuites:\n"),
        Err(SourceError::SyntaxError { .. })
    ));
    assert!(matches!(
        SourceListDeb822::parse("deb http://a/ suite main\n"),
        Err(SourceError::SyntaxError { .. })
    ));
    assert!(matches!(
        SourceListDeb822::parse("URIs: http://a/\nURIs: http://b/\nSuites: x\n"),
        Err(SourceError::SyntaxError { .. })
    ));
}

#[test]
fn generic_options_and_flags() {
    let text = "Types: deb\nURIs: http://a/\nSuites: one\nComponents: main\nTrusted: yes\nEnabled: no\nArchitectures: amd64 arm64\nLanguages: en de\n";
    let parsed = SourceListDeb822::parse(text).unwrap();
    assert_eq!(parsed.entries.len(), 1);
    let e = &parsed.entries[0];
    assert!(e.trusted);
    assert!(!e.enabled);
    assert_eq!(e.archs, Some(vec!["amd64".to_string(), "arm64".to_string()]));
    assert_eq!(
        e.options,
        vec![("Languages".to_string(), vec!["en".to_string(), "de".to_string()])]
    );
    let rendered = parsed.render();
    assert!(rendered.contains("Trusted: yes\n"));
    assert!(rendered.contains("Languages: en de\n"));
}

#[test]
fn inline_key_block_survives() {
    let text = "Types: deb\nURIs: http://a/\nSuites: one\nSigned-By:\n -----BEGIN PGP PUBLIC KEY BLOCK-----\n abc\n -----END PGP PUBLIC KEY BLOCK-----\n";
    let parsed = SourceListDeb822::parse(text).unwrap();
    match &parsed.entries[0].signed_by {
        Some(Signature::KeyBlock(t)) => {
            assert!(t.contains("-----BEGIN PGP PUBLIC KEY BLOCK-----"))
        }
        other => panic!("expected a key block, got {:?}", other),
    }
}
