# changelog

Parsing, editing and rendering of `CHANGELOG.md` files in the
[Keep a Changelog](https://keepachangelog.com/en/1.1.0/) format, verified with Verus.

```rust
use changelog::{Category, Changelog};

let md = "# Changelog\n\n## [Unreleased]\n\n### Added\n\n- New feature\n";
let mut log = Changelog::parse(md).unwrap();
log.add_entry("Unreleased", Category::Fixed, "Another fix");
log.release("0.2.0", "2026-03-20");
let out = log.to_markdown();
assert!(log.validate().is_empty());
```

## Layout

- `src/text.rs` – the character-level model: Unicode whitespace and trimming,
  prefixes, searching, splitting, ASCII case folding; conversions between
  `str`/`String` and `Vec<char>`.
- `src/model.rs` – `Category`, `Entry`, `Version`, `Changelog`, `ParseError`,
  their views (`EntryView`, `VersionView`, `ChangelogView`, `ParseErrorView`)
  and category names.
- `src/version.rs` – lookups (`get_version`, `latest_version`, `unreleased`),
  edits (`add_entry`, `release`), `entries_by_category`, `filter_by_category`
  and `diff`.
- `src/parse.rs` – `Changelog::parse`, specified by `parse_spec` as a fold of a
  line-by-line state machine over the lines of the trimmed input.
- `src/render.rs` – `Changelog::to_markdown`, specified by `render`.
- `src/validate.rs` – `Changelog::validate`: date format, blank entries and
  the descending order of released versions; `is_valid_date` and
  `parse_semver`.
- `src/validity.rs` – what validation accepts (it reports nothing exactly
  when dates, entries and order are fine), how many issues it reports, and
  that adding a non-blank entry or releasing a higher version keeps a valid
  changelog valid.
- `src/laws.rs` – properties across functions: category names parse back in
  any case and with whitespace around them, which inputs give which parse
  errors, `diff` of a version with itself is empty, an added entry is found
  again, what `release` does, categories partition the entries, and
  changelogs whose entries are already in category order read back exactly.
- `src/roundtrip.rs` – rendering then parsing gives the changelog back, with
  entries grouped by category (`lemma_render_then_parse`), and the rendered
  markdown is a fixed point of parsing and rendering again
  (`lemma_markdown_stable`).

Every public function states its result exactly in its `ensures` clause.
`Changelog::parse` requires that no version heading it reaches has a `)`
before its first `(` outside the `[name]` form (the date range between them
would be reversed); `Changelog::can_parse` tells whether an input meets that. Display is provided by `to_string` methods.
