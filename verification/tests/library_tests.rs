use changelog::validate::{is_valid_date, parse_semver};
use changelog::{parse_category, Category, Changelog, Entry, ParseError, Version};

const ALL: [Category; 6] = [
    Category::Added,
    Category::Changed,
    Category::Deprecated,
    Category::Removed,
    Category::Fixed,
    Category::Security,
];

fn entry(category: Category, description: &str) -> Entry {
    Entry { category, description: description.to_string() }
}

fn version(name: &str, date: Option<&str>, entries: Vec<Entry>) -> Version {
    Version { name: name.to_string(), date: date.map(|d| d.to_string()), entries }
}

// ----- categories -----

#[test]
fn category_names_parse_back() {
    for c in ALL {
        assert_eq!(parse_category(&c.to_string()), Ok(c));
        assert_eq!(c.to_string().parse::<Category>(), Ok(c));
    }
}

#[test]
fn category_parse_ignores_case_and_whitespace() {
    assert_eq!(parse_category("  dePRECated \t"), Ok(Category::Deprecated));
    assert_eq!(parse_category("\u{3000}security\u{2003}"), Ok(Category::Security));
    assert_eq!(parse_category("ReMoVeD"), Ok(Category::Removed));
}

#[test]
fn category_parse_error_keeps_input() {
    assert_eq!(parse_category("  Bogus "), Err(ParseError::InvalidCategory("  Bogus ".to_string())));
    assert_eq!(parse_category(""), Err(ParseError::InvalidCategory(String::new())));
    assert_eq!(parse_category("Add ed"), Err(ParseError::InvalidCategory("Add ed".to_string())));
}

#[test]
fn category_name_strings() {
    assert_eq!(Category::Deprecated.name(), "Deprecated");
    assert_eq!(Category::Security.to_string(), "Security");
}

// ----- parse errors -----

#[test]
fn parse_whitespace_only_is_empty_input() {
    assert_eq!(Changelog::parse(" \n\t\r\n "), Err(ParseError::EmptyInput));
}

#[test]
fn parse_without_title_is_invalid_format() {
    let r = Changelog::parse("## [1.0.0]\n\n### Added\n\n- x\n");
    assert_eq!(r, Err(ParseError::InvalidFormat("no title heading found".to_string())));
    assert_eq!(r.unwrap_err().to_string(), "invalid format: no title heading found");
}

#[test]
fn parse_unknown_category_is_invalid_category() {
    let r = Changelog::parse("# Changelog\n\n## [1.0.0]\n\n###   Improved  \n\n- x\n");
    assert_eq!(r, Err(ParseError::InvalidCategory("Improved".to_string())));
}

#[test]
fn parse_error_messages() {
    assert_eq!(ParseError::InvalidCategory("Foo".to_string()).to_string(), "invalid category: Foo");
    assert_eq!(ParseError::InvalidFormat(String::new()).to_string(), "invalid format: ");
}

// ----- parsing -----

#[test]
fn parse_title_and_description() {
    let c = Changelog::parse("\n\n# #  My Log  \nline one\n\nline two\n## 1.0\n").unwrap();
    assert_eq!(c.title, "My Log");
    assert_eq!(c.description.as_deref(), Some("line one\n\nline two"));
    assert_eq!(c.versions.len(), 1);
}

#[test]
fn parse_repeated_title_markers_are_stripped() {
    let c = Changelog::parse("# # Log\n").unwrap();
    assert_eq!(c.title, "Log");
    assert_eq!(c.description, None);
    assert!(c.versions.is_empty());
}

#[test]
fn parse_header_forms() {
    let md = "# C\n## [2.0.0]\n## [1.9.0] -\n## [1.8.0] - -- 2026-01-01 \n## 1.7.0 (2025-12-31)\n## 1.6.0 - 2025-11-30\n## 1.5.0\n";
    let c = Changelog::parse(md).unwrap();
    let got: Vec<(String, Option<String>)> =
        c.versions.iter().map(|v| (v.name.clone(), v.date.clone())).collect();
    let want = vec![
        ("2.0.0".to_string(), None),
        ("1.9.0".to_string(), None),
        ("1.8.0".to_string(), Some("-- 2026-01-01".to_string())),
        ("1.7.0".to_string(), Some("2025-12-31".to_string())),
        ("1.6.0".to_string(), Some("2025-11-30".to_string())),
        ("1.5.0".to_string(), None),
    ];
    assert_eq!(got, want);
}

#[test]
fn parse_entries_need_version_and_category() {
    let md = "# C\n\n- not an entry\n## 1.0\n- no category yet\n### Fixed\n- fixed one\n  continued\n### Added\n- added one\n";
    let c = Changelog::parse(md).unwrap();
    assert_eq!(c.description.as_deref(), Some("- not an entry"));
    let v = &c.versions[0];
    assert_eq!(
        v.entries,
        vec![entry(Category::Fixed, "fixed one continued"), entry(Category::Added, "added one")]
    );
}

#[test]
fn parse_continuation_without_entry_is_dropped() {
    let c = Changelog::parse("# C\n## 1.0\nstray text\n### Added\n- a\n").unwrap();
    assert_eq!(c.versions[0].entries, vec![entry(Category::Added, "a")]);
}

#[test]
fn parse_crlf_input() {
    let c = Changelog::parse("# C\r\n\r\n## [1.0.0] - 2026-01-01\r\n\r\n### Added\r\n\r\n- a\r\n").unwrap();
    assert_eq!(c.title, "C");
    assert_eq!(c.versions[0].date.as_deref(), Some("2026-01-01"));
    assert_eq!(c.versions[0].entries, vec![entry(Category::Added, "a")]);
}

// ----- queries -----

#[test]
fn get_version_takes_first_exact_match() {
    let c = Changelog {
        title: "C".to_string(),
        description: None,
        versions: vec![
            version("1.0", None, vec![entry(Category::Added, "first")]),
            version("1.0", None, vec![entry(Category::Added, "second")]),
        ],
    };
    assert_eq!(c.get_version("1.0").unwrap().entries[0].description, "first");
    assert!(c.get_version("1.0 ").is_none());
}

#[test]
fn latest_and_unreleased_lookup() {
    let c = Changelog {
        title: "C".to_string(),
        description: None,
        versions: vec![version("UNRELEASED", None, vec![]), version("0.9.0", None, vec![])],
    };
    assert_eq!(c.unreleased().unwrap().name, "UNRELEASED");
    assert_eq!(c.latest_version().unwrap().name, "0.9.0");
    let only = Changelog {
        title: "C".to_string(),
        description: None,
        versions: vec![version("Unreleased", None, vec![])],
    };
    assert!(only.latest_version().is_none());
    assert_eq!(only.versions().len(), 1);
}

#[test]
fn entries_by_category_keeps_order() {
    let v = version(
        "1.0",
        None,
        vec![
            entry(Category::Fixed, "f1"),
            entry(Category::Added, "a1"),
            entry(Category::Fixed, "f2"),
        ],
    );
    let fixed: Vec<&str> =
        v.entries_by_category(Category::Fixed).iter().map(|e| e.description.as_str()).collect();
    assert_eq!(fixed, vec!["f1", "f2"]);
    let total: usize = ALL.iter().map(|c| v.entries_by_category(*c).len()).sum();
    assert_eq!(total, v.entries.len());
}

// ----- editing -----

#[test]
fn add_entry_then_get_version() {
    let mut c = Changelog::parse("# C\n## [1.0.0]\n### Added\n- a\n").unwrap();
    c.add_entry("1.0.0", Category::Security, "patched");
    let v = c.get_version("1.0.0").unwrap();
    assert_eq!(v.entries.last().unwrap(), &entry(Category::Security, "patched"));
    c.add_entry("2.0.0", Category::Removed, "gone");
    assert_eq!(c.versions.last().unwrap().name, "2.0.0");
    assert_eq!(c.versions.last().unwrap().date, None);
    c.add_entry("unreleased", Category::Added, "soon");
    assert_eq!(c.versions[0].name, "unreleased");
    assert_eq!(c.versions.len(), 3);
}

#[test]
fn add_entry_joins_unreleased_section_of_other_case() {
    let mut c = Changelog {
        title: "C".to_string(),
        description: None,
        versions: vec![version("unreleased", None, vec![])],
    };
    c.add_entry("Unreleased", Category::Added, "x");
    assert_eq!(c.versions.len(), 1);
    assert_eq!(c.versions[0].name, "unreleased");
    assert_eq!(c.versions[0].entries, vec![entry(Category::Added, "x")]);
}

#[test]
fn add_entry_prefers_exact_name_then_first_unreleased() {
    let mut c = Changelog {
        title: "C".to_string(),
        description: None,
        versions: vec![
            version("UNRELEASED", None, vec![]),
            version("1.0.0", Some("2026-01-01"), vec![]),
            version("Unreleased", None, vec![]),
        ],
    };
    c.add_entry("Unreleased", Category::Fixed, "exact");
    assert!(c.versions[0].entries.is_empty());
    assert_eq!(c.versions[2].entries, vec![entry(Category::Fixed, "exact")]);
    c.add_entry("unreleased", Category::Added, "first");
    assert_eq!(c.versions[0].entries, vec![entry(Category::Added, "first")]);
    assert_eq!(c.versions.len(), 3);
}

#[test]
fn version_add_entry_appends() {
    let mut v = version("1.0", None, vec![]);
    v.add_entry(Category::Changed, "tweak");
    assert_eq!(v.entries, vec![entry(Category::Changed, "tweak")]);
}

#[test]
fn release_without_unreleased_adds_empty_section() {
    let mut c = Changelog::parse("# C\n## [1.0.0] - 2026-01-01\n").unwrap();
    c.release("1.1.0", "2026-02-01");
    assert_eq!(c.versions.len(), 2);
    assert!(c.versions[0].is_unreleased());
    assert!(c.versions[0].entries.is_empty());
    assert_eq!(c.versions[1].name, "1.0.0");
    assert!(c.get_version("1.1.0").is_none());
}

#[test]
fn release_renames_first_unreleased_only() {
    let mut c = Changelog {
        title: "C".to_string(),
        description: None,
        versions: vec![
            version("unReleased", None, vec![entry(Category::Added, "x")]),
            version("Unreleased", None, vec![]),
        ],
    };
    c.release("1.0.0", "2026-01-02");
    assert_eq!(c.versions[0].name, "Unreleased");
    assert_eq!(c.versions[1].name, "1.0.0");
    assert_eq!(c.versions[1].date.as_deref(), Some("2026-01-02"));
    assert_eq!(c.versions[1].entries, vec![entry(Category::Added, "x")]);
    assert_eq!(c.versions[2].name, "Unreleased");
}

#[test]
fn diff_with_itself_is_empty() {
    let c = Changelog::parse("# C\n## 1.0\n### Added\n- a\n- b\n").unwrap();
    assert_eq!(c.diff("1.0", "1.0"), Some(vec![]));
}

#[test]
fn diff_compares_category_and_description() {
    let c = Changelog {
        title: "C".to_string(),
        description: None,
        versions: vec![
            version("2", None, vec![entry(Category::Added, "a"), entry(Category::Fixed, "a"), entry(Category::Added, "b")]),
            version("1", None, vec![entry(Category::Added, "a")]),
        ],
    };
    assert_eq!(
        c.diff("1", "2"),
        Some(vec![entry(Category::Fixed, "a"), entry(Category::Added, "b")])
    );
    assert_eq!(c.diff("2", "1"), Some(vec![]));
    assert_eq!(c.diff("3", "1"), None);
}

// ----- rendering -----

#[test]
fn to_markdown_exact_output() {
    let c = Changelog {
        title: "Changelog".to_string(),
        description: Some("Notes.".to_string()),
        versions: vec![
            version("unreleased", Some("2020-01-01"), vec![entry(Category::Fixed, "f")]),
            version("1.0.0", Some("2026-01-01"), vec![entry(Category::Fixed, "f2"), entry(Category::Added, "a")]),
            version("0.1.0", None, vec![]),
        ],
    };
    let want = "# Changelog\n\nNotes.\n\n## [Unreleased]\n\n### Fixed\n\n- f\n\n## [1.0.0] - 2026-01-01\n\n### Added\n\n- a\n\n### Fixed\n\n- f2\n\n## [0.1.0]\n";
    assert_eq!(c.to_markdown(), want);
}

#[test]
fn render_then_parse_groups_entries() {
    let c = Changelog {
        title: "Log".to_string(),
        description: None,
        versions: vec![
            version("unreleased", Some("ignored"), vec![entry(Category::Security, "s"), entry(Category::Added, "a")]),
            version("1.0.0", Some("2026-01-01"), vec![]),
        ],
    };
    let back = Changelog::parse(&c.to_markdown()).unwrap();
    assert_eq!(back.title, "Log");
    assert_eq!(back.description, None);
    assert_eq!(back.versions[0].name, "Unreleased");
    assert_eq!(back.versions[0].date, None);
    assert_eq!(
        back.versions[0].entries,
        vec![entry(Category::Added, "a"), entry(Category::Security, "s")]
    );
    assert_eq!(back.versions[1], version("1.0.0", Some("2026-01-01"), vec![]));
}

#[test]
fn normal_changelog_reads_back_exactly() {
    let c = Changelog {
        title: "Log".to_string(),
        description: Some("About.".to_string()),
        versions: vec![
            version("Unreleased", None, vec![entry(Category::Added, "a")]),
            version("1.0.0", Some("2026-01-01"), vec![entry(Category::Changed, "c"), entry(Category::Fixed, "f")]),
        ],
    };
    assert_eq!(Changelog::parse(&c.to_markdown()), Ok(c));
}

// ----- validation -----

#[test]
fn validate_messages_exact() {
    let c = Changelog {
        title: "C".to_string(),
        description: None,
        versions: vec![
            version("Unreleased", None, vec![]),
            version("1.0.0", Some("2026-1-01"), vec![entry(Category::Fixed, "  ")]),
            version("1.0.1", Some("2026-01-01"), vec![]),
        ],
    };
    assert_eq!(
        c.validate(),
        vec![
            "Version 1.0.0 has invalid date format: 2026-1-01 (expected YYYY-MM-DD)".to_string(),
            "Version 1.0.0 has an empty Fixed entry".to_string(),
            "Versions are not in descending order: 1.0.0 should come after 1.0.1".to_string(),
        ]
    );
}

#[test]
fn validate_equal_versions_are_out_of_order() {
    let c = Changelog {
        title: "C".to_string(),
        description: None,
        versions: vec![version("1.2.3", None, vec![]), version("1.2.3", None, vec![])],
    };
    assert_eq!(c.validate().len(), 1);
}

#[test]
fn validate_semver_details() {
    // "+2" parses as 2, so 1.+2.0 > 1.1.0 and the order is fine.
    let ok = Changelog {
        title: "C".to_string(),
        description: None,
        versions: vec![version("1.+2.0", None, vec![]), version("1.1.0", None, vec![])],
    };
    assert!(ok.validate().is_empty());
    // Non-numeric, overflowing, or two-part versions are not compared.
    let skipped = Changelog {
        title: "C".to_string(),
        description: None,
        versions: vec![
            version("0.1", None, vec![]),
            version("1.0.0-beta", None, vec![]),
            version("1.0.18446744073709551616", None, vec![]),
            version("9.9.9", None, vec![]),
        ],
    };
    assert!(skipped.validate().is_empty());
    let big = Changelog {
        title: "C".to_string(),
        description: None,
        versions: vec![version("0.0.18446744073709551615", None, vec![]), version("1.0.0", None, vec![])],
    };
    assert_eq!(big.validate().len(), 1);
}

#[test]
fn validate_date_shapes() {
    for (date, valid) in [
        ("2026-03-19", true),
        ("0000-00-00", true),
        ("2026/03/19", false),
        ("2026-03-1", false),
        ("2026-03-190", false),
        ("２０２６-03-19", false),
        ("", false),
    ] {
        let c = Changelog {
            title: "C".to_string(),
            description: None,
            versions: vec![version("1.0.0", Some(date), vec![])],
        };
        assert_eq!(c.validate().is_empty(), valid, "date {:?}", date);
    }
}

#[test]
fn filter_by_category_across_versions() {
    let c = Changelog {
        title: "C".to_string(),
        description: None,
        versions: vec![
            version("2", None, vec![entry(Category::Fixed, "f2"), entry(Category::Added, "a2")]),
            version("1", None, vec![entry(Category::Fixed, "f1a"), entry(Category::Fixed, "f1b")]),
        ],
    };
    let fixed: Vec<&str> =
        c.filter_by_category(Category::Fixed).iter().map(|e| e.description.as_str()).collect();
    assert_eq!(fixed, vec!["f2", "f1a", "f1b"]);
    assert!(c.filter_by_category(Category::Security).is_empty());
}

#[test]
fn multi_line_description_reads_back() {
    let c = Changelog {
        title: "Log".to_string(),
        description: Some("First line.\n  indented second\n\nthird".to_string()),
        versions: vec![version("1.0.0", None, vec![entry(Category::Added, "a")])],
    };
    assert_eq!(Changelog::parse(&c.to_markdown()), Ok(c));
}

#[test]
fn empty_title_and_inner_empty_entry_read_back() {
    let c = Changelog {
        title: String::new(),
        description: None,
        versions: vec![version(
            "1.0.0",
            None,
            vec![entry(Category::Added, ""), entry(Category::Added, "last")],
        )],
    };
    assert_eq!(Changelog::parse(&c.to_markdown()), Ok(c));
}

#[test]
fn trailing_empty_entry_does_not_read_back() {
    let c = Changelog {
        title: "T".to_string(),
        description: None,
        versions: vec![version("1.0.0", None, vec![entry(Category::Added, "a"), entry(Category::Added, "")])],
    };
    let back = Changelog::parse(&c.to_markdown()).unwrap();
    assert_eq!(back.versions[0].entries, vec![entry(Category::Added, "a -")]);
}

#[test]
fn rendered_markdown_is_stable() {
    let c = Changelog {
        title: "Log".to_string(),
        description: Some("Intro".to_string()),
        versions: vec![
            version("UNRELEASED", Some("x"), vec![entry(Category::Fixed, "f"), entry(Category::Added, "a")]),
            version("1.0.0", Some("2026-01-01"), vec![entry(Category::Security, "s"), entry(Category::Changed, "c")]),
        ],
    };
    let md = c.to_markdown();
    assert_eq!(Changelog::parse(&md).unwrap().to_markdown(), md);
}

// ----- parse precondition -----

#[test]
fn can_parse_flags_reversed_parentheses() {
    assert!(Changelog::can_parse(""));
    assert!(Changelog::can_parse("no title here"));
    assert!(Changelog::can_parse("# C\n## 1.0 (2026-01-01)\n"));
    assert!(Changelog::can_parse("# C\n## [1.0] )x(\n"));
    assert!(!Changelog::can_parse("# C\n## 1.0 )x(\n"));
    assert!(!Changelog::can_parse("# C\n## [1.0]\n### Added\n- a\n## 2.0 ) (\n"));
    // An unknown category stops parsing before the bad heading is reached.
    let stops = "# C\n## [1.0]\n### Bogus\n## 2.0 ) (\n";
    assert!(Changelog::can_parse(stops));
    assert_eq!(Changelog::parse(stops), Err(ParseError::InvalidCategory("Bogus".to_string())));
    // Headings before the title are not version sections.
    assert!(Changelog::can_parse("## 2.0 ) (\n# C\n"));
}

// ----- date and version number checks -----

#[test]
fn is_valid_date_exact() {
    assert!(is_valid_date("2026-03-19"));
    assert!(is_valid_date("9999-99-99"));
    assert!(!is_valid_date("2026-3-19"));
    assert!(!is_valid_date("2026_03_19"));
    assert!(!is_valid_date("20260319xx"));
}

#[test]
fn parse_semver_exact() {
    assert_eq!(parse_semver("1.2.3"), Some((1, 2, 3)));
    assert_eq!(parse_semver("+1.02.3"), Some((1, 2, 3)));
    assert_eq!(parse_semver("18446744073709551615.0.0"), Some((u64::MAX, 0, 0)));
    assert_eq!(parse_semver("18446744073709551616.0.0"), None);
    assert_eq!(parse_semver("1.2"), None);
    assert_eq!(parse_semver("1.2.3.4"), None);
    assert_eq!(parse_semver("1..3"), None);
    assert_eq!(parse_semver("+.1.2"), None);
    assert_eq!(parse_semver("Unreleased"), None);
}

// ----- edits that keep a changelog valid -----

#[test]
fn add_entry_keeps_valid_changelog_valid() {
    let mut c = Changelog {
        title: "C".to_string(),
        description: None,
        versions: vec![
            version("Unreleased", None, vec![]),
            version("1.1.0", Some("2026-02-01"), vec![entry(Category::Added, "a")]),
            version("1.0.0", Some("2026-01-01"), vec![]),
        ],
    };
    assert!(c.validate().is_empty());
    c.add_entry("unreleased", Category::Fixed, "fix");
    c.add_entry("1.0.0", Category::Removed, "old");
    assert!(c.validate().is_empty());
    assert_eq!(c.versions.len(), 3);
}

#[test]
fn release_keeps_valid_changelog_valid() {
    let mut c = Changelog {
        title: "C".to_string(),
        description: None,
        versions: vec![
            version("Unreleased", None, vec![entry(Category::Added, "new")]),
            version("1.0.0", Some("2026-01-01"), vec![]),
        ],
    };
    assert!(c.validate().is_empty());
    c.release("1.0.1", "2026-02-01");
    assert!(c.validate().is_empty());
    assert_eq!(c.latest_version().unwrap().name, "1.0.1");
    assert!(c.unreleased().unwrap().entries.is_empty());
    assert_eq!(c.versions[1].entries, vec![entry(Category::Added, "new")]);
}

#[test]
fn validate_counts_each_problem() {
    let c = Changelog {
        title: "C".to_string(),
        description: None,
        versions: vec![
            version("0.1.0", Some("bad"), vec![entry(Category::Added, ""), entry(Category::Fixed, " ")]),
            version("0.2.0", Some("2026-01-01"), vec![]),
            version("Unreleased", Some("x"), vec![]),
            version("0.3.0", None, vec![]),
        ],
    };
    // two bad dates, two blank entries, two pairs out of order
    assert_eq!(c.validate().len(), 6);
}

#[test]
fn padded_upper_case_category_names_parse() {
    for c in ALL {
        let upper = c.to_string().to_uppercase();
        assert_eq!(upper.parse::<Category>(), Ok(c));
        assert_eq!(format!(" \t{}\n ", c.to_string()).parse::<Category>(), Ok(c));
    }
}
