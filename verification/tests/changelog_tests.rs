use changelog::{Category, Changelog, ParseError};

const SAMPLE_CHANGELOG: &str = "\
# Changelog

All notable changes to this project will be documented in this file.

## [Unreleased]

### Added

- Upcoming feature

## [0.2.0] - 2026-03-15

### Added

- New widget

### Fixed

- Crash on startup

## [0.1.0] - 2026-03-01

### Added

- Initial release
";

#[test]
fn test_parse_basic() {
    let changelog = Changelog::parse(SAMPLE_CHANGELOG).unwrap();
    assert_eq!(changelog.title, "Changelog");
    assert!(changelog.description.is_some());
    assert_eq!(changelog.versions.len(), 3);

    let unreleased = &changelog.versions[0];
    assert!(unreleased.is_unreleased());
    assert_eq!(unreleased.entries.len(), 1);

    let v020 = &changelog.versions[1];
    assert_eq!(v020.name, "0.2.0");
    assert_eq!(v020.date.as_deref(), Some("2026-03-15"));
    assert_eq!(v020.entries.len(), 2);
}

#[test]
fn test_parse_multiple_versions() {
    let changelog = Changelog::parse(SAMPLE_CHANGELOG).unwrap();
    assert_eq!(changelog.versions.len(), 3);
    assert_eq!(changelog.versions[1].name, "0.2.0");
    assert_eq!(changelog.versions[2].name, "0.1.0");
}

#[test]
fn test_parse_bracket_dash_format() {
    let md = "# Changelog\n\n## [1.0.0] - 2026-01-01\n\n### Added\n\n- Feature\n";
    let changelog = Changelog::parse(md).unwrap();
    assert_eq!(changelog.versions[0].name, "1.0.0");
    assert_eq!(changelog.versions[0].date.as_deref(), Some("2026-01-01"));
}

#[test]
fn test_parse_paren_format() {
    let md = "# Changelog\n\n## 1.0.0 (2026-01-01)\n\n### Fixed\n\n- Bug\n";
    let changelog = Changelog::parse(md).unwrap();
    assert_eq!(changelog.versions[0].name, "1.0.0");
    assert_eq!(changelog.versions[0].date.as_deref(), Some("2026-01-01"));
}

#[test]
fn test_parse_plain_dash_format() {
    let md = "# Changelog\n\n## 1.0.0 - 2026-01-01\n\n### Added\n\n- Feature\n";
    let changelog = Changelog::parse(md).unwrap();
    assert_eq!(changelog.versions[0].name, "1.0.0");
    assert_eq!(changelog.versions[0].date.as_deref(), Some("2026-01-01"));
}

#[test]
fn test_add_entry_to_unreleased() {
    let mut changelog = Changelog::parse(SAMPLE_CHANGELOG).unwrap();
    changelog.add_entry("Unreleased", Category::Fixed, "A bug fix");
    let unreleased = changelog.unreleased().unwrap();
    assert_eq!(unreleased.entries.len(), 2);
    assert_eq!(unreleased.entries[1].category, Category::Fixed);
    assert_eq!(unreleased.entries[1].description, "A bug fix");
}

#[test]
fn test_add_entry_creates_version() {
    let mut changelog = Changelog::parse(SAMPLE_CHANGELOG).unwrap();
    changelog.add_entry("0.3.0", Category::Added, "Something new");
    let ver = changelog.get_version("0.3.0").unwrap();
    assert_eq!(ver.entries.len(), 1);
    assert_eq!(ver.entries[0].description, "Something new");
}

#[test]
fn test_add_entry_creates_unreleased() {
    let md = "# Changelog\n\n## [0.1.0] - 2026-01-01\n\n### Added\n\n- Feature\n";
    let mut changelog = Changelog::parse(md).unwrap();
    assert!(changelog.unreleased().is_none());
    changelog.add_entry("Unreleased", Category::Added, "New thing");
    assert!(changelog.unreleased().is_some());
    // Unreleased should be at the top
    assert!(changelog.versions[0].is_unreleased());
}

#[test]
fn test_release_promotes_unreleased() {
    let mut changelog = Changelog::parse(SAMPLE_CHANGELOG).unwrap();
    changelog.release("0.3.0", "2026-03-20");

    // New Unreleased should be at top
    assert!(changelog.versions[0].is_unreleased());
    assert!(changelog.versions[0].entries.is_empty());

    // Old Unreleased should now be 0.3.0
    let released = changelog.get_version("0.3.0").unwrap();
    assert_eq!(released.date.as_deref(), Some("2026-03-20"));
    assert_eq!(released.entries.len(), 1);
    assert_eq!(released.entries[0].description, "Upcoming feature");
}

#[test]
fn test_to_markdown_roundtrip() {
    let changelog = Changelog::parse(SAMPLE_CHANGELOG).unwrap();
    let rendered = changelog.to_markdown();
    let reparsed = Changelog::parse(&rendered).unwrap();
    assert_eq!(changelog.title, reparsed.title);
    assert_eq!(changelog.versions.len(), reparsed.versions.len());
    for (orig, re) in changelog.versions.iter().zip(reparsed.versions.iter()) {
        assert_eq!(orig.name, re.name);
        assert_eq!(orig.date, re.date);
        assert_eq!(orig.entries.len(), re.entries.len());
        for (oe, re_entry) in orig.entries.iter().zip(re.entries.iter()) {
            assert_eq!(oe.category, re_entry.category);
            assert_eq!(oe.description, re_entry.description);
        }
    }
}

#[test]
fn test_validate_bad_date() {
    let md = "# Changelog\n\n## [0.1.0] - 2026/03/19\n\n### Added\n\n- Feature\n";
    let changelog = Changelog::parse(md).unwrap();
    let issues = changelog.validate();
    assert!(!issues.is_empty());
    assert!(issues[0].contains("invalid date format"));
}

#[test]
fn test_validate_valid_changelog() {
    let changelog = Changelog::parse(SAMPLE_CHANGELOG).unwrap();
    let issues = changelog.validate();
    assert!(issues.is_empty(), "Expected no issues, got: {:?}", issues);
}

#[test]
fn test_validate_wrong_version_order() {
    let md = "# Changelog\n\n## [0.1.0] - 2026-01-01\n\n### Added\n\n- A\n\n## [0.2.0] - 2026-02-01\n\n### Added\n\n- B\n";
    let changelog = Changelog::parse(md).unwrap();
    let issues = changelog.validate();
    assert!(!issues.is_empty());
    assert!(issues[0].contains("descending order"));
}

#[test]
fn test_diff_between_versions() {
    let changelog = Changelog::parse(SAMPLE_CHANGELOG).unwrap();
    let diff = changelog.diff("0.1.0", "0.2.0").unwrap();
    // 0.2.0 has "New widget" (Added) and "Crash on startup" (Fixed)
    // 0.1.0 has "Initial release" (Added)
    // All entries in 0.2.0 differ from 0.1.0
    assert_eq!(diff.len(), 2);
}

#[test]
fn test_diff_missing_version() {
    let changelog = Changelog::parse(SAMPLE_CHANGELOG).unwrap();
    assert!(changelog.diff("0.1.0", "9.9.9").is_none());
}

#[test]
fn test_get_version() {
    let changelog = Changelog::parse(SAMPLE_CHANGELOG).unwrap();
    assert!(changelog.get_version("0.1.0").is_some());
    assert!(changelog.get_version("0.2.0").is_some());
    assert!(changelog.get_version("9.9.9").is_none());
}

#[test]
fn test_latest_version() {
    let changelog = Changelog::parse(SAMPLE_CHANGELOG).unwrap();
    let latest = changelog.latest_version().unwrap();
    assert_eq!(latest.name, "0.2.0");
}

#[test]
fn test_unreleased() {
    let changelog = Changelog::parse(SAMPLE_CHANGELOG).unwrap();
    let unreleased = changelog.unreleased().unwrap();
    assert!(unreleased.is_unreleased());
    assert_eq!(unreleased.entries.len(), 1);
}

#[test]
fn test_empty_input() {
    let result = Changelog::parse("");
    assert_eq!(result, Err(ParseError::EmptyInput));
}

#[test]
fn test_entries_by_category() {
    let changelog = Changelog::parse(SAMPLE_CHANGELOG).unwrap();
    let v020 = changelog.get_version("0.2.0").unwrap();
    let added = v020.entries_by_category(Category::Added);
    assert_eq!(added.len(), 1);
    assert_eq!(added[0].description, "New widget");
    let fixed = v020.entries_by_category(Category::Fixed);
    assert_eq!(fixed.len(), 1);
    let deprecated = v020.entries_by_category(Category::Deprecated);
    assert!(deprecated.is_empty());
}

#[test]
fn test_category_display() {
    assert_eq!(Category::Added.to_string(), "Added");
    assert_eq!(Category::Changed.to_string(), "Changed");
    assert_eq!(Category::Deprecated.to_string(), "Deprecated");
    assert_eq!(Category::Removed.to_string(), "Removed");
    assert_eq!(Category::Fixed.to_string(), "Fixed");
    assert_eq!(Category::Security.to_string(), "Security");
}

#[test]
fn test_category_from_str() {
    assert_eq!("Added".parse::<Category>().unwrap(), Category::Added);
    assert_eq!("added".parse::<Category>().unwrap(), Category::Added);
    assert_eq!("FIXED".parse::<Category>().unwrap(), Category::Fixed);
    assert_eq!("Security".parse::<Category>().unwrap(), Category::Security);
    assert!("invalid".parse::<Category>().is_err());
}

#[test]
fn test_multi_line_entries() {
    let md = "\
# Changelog

## [0.1.0] - 2026-03-19

### Added

- This is a long entry that spans
  multiple lines of text
- Single line entry
";
    let changelog = Changelog::parse(md).unwrap();
    let ver = changelog.get_version("0.1.0").unwrap();
    assert_eq!(ver.entries.len(), 2);
    assert_eq!(
        ver.entries[0].description,
        "This is a long entry that spans multiple lines of text"
    );
    assert_eq!(ver.entries[1].description, "Single line entry");
}

#[test]
fn test_parse_error_display() {
    assert_eq!(ParseError::EmptyInput.to_string(), "input is empty");
    assert_eq!(
        ParseError::InvalidFormat("bad".to_string()).to_string(),
        "invalid format: bad"
    );
    assert_eq!(
        ParseError::InvalidCategory("nope".to_string()).to_string(),
        "invalid category: nope"
    );
}

#[test]
fn test_versions_slice() {
    let changelog = Changelog::parse(SAMPLE_CHANGELOG).unwrap();
    let versions = changelog.versions();
    assert_eq!(versions.len(), 3);
}
