use keepachangelog::changelog::{parse_heading, release_from_heading, render_release, Changelog, Release, Section};

const SAMPLE: &str = "# Changelog\n\nSome intro.\n\n## [Unreleased]\n\n### Added\n\n- New thing\n\n## [1.2.0] - 2024-03-01\n\n### Fixed\n\n- Bug one\n- Bug two\n\n### Added\n\n- Feature\n\n## [1.1.0] - 2024-01-15 [YANKED]\n\n### Removed\n\n- Old API\n";

fn chars(s: &str) -> Vec<char> {
    s.chars().collect()
}

#[test]
fn section_names_and_descriptions() {
    assert_eq!(Section::all().len(), 6);
    assert_eq!(Section::all()[0], Section::Added);
    assert_eq!(Section::all()[5], Section::Security);
    assert_eq!(Section::Deprecated.as_str(), "Deprecated");
    assert_eq!(Section::Fixed.description(), "Any bug fixes");
    assert_eq!(Section::Changed.description(), "Changes to existing functionality");
    for s in Section::all() {
        assert_eq!(Section::from_str(s.as_str()), Some(s.clone()));
    }
}

#[test]
fn section_from_str_rejects_other_text() {
    assert_eq!(Section::from_str("added"), None);
    assert_eq!(Section::from_str(" Added"), None);
    assert_eq!(Section::from_str(""), None);
    assert_eq!(Section::from_str("Security"), Some(Section::Security));
}

#[test]
fn parse_sample() {
    let cl = Changelog::parse(SAMPLE);
    assert_eq!(cl.preamble, "# Changelog\n\nSome intro.\n");
    assert_eq!(cl.releases.len(), 3);

    let u = &cl.releases[0];
    assert_eq!(u.version, None);
    assert_eq!(u.date, None);
    assert!(!u.yanked);
    assert_eq!(u.entries.len(), 1);
    assert_eq!(u.entries[0].0, Section::Added);
    assert_eq!(u.entries[0].1, vec!["New thing".to_string()]);

    let r = &cl.releases[1];
    assert_eq!(r.version.as_deref(), Some("1.2.0"));
    assert_eq!(r.date.as_deref(), Some("2024-03-01"));
    assert!(!r.yanked);
    assert_eq!(r.entries.len(), 2);
    assert_eq!(r.entries[0].0, Section::Fixed);
    assert_eq!(r.entries[0].1, vec!["Bug one".to_string(), "Bug two".to_string()]);
    assert_eq!(r.entries[1].0, Section::Added);

    let y = &cl.releases[2];
    assert_eq!(y.version.as_deref(), Some("1.1.0"));
    assert_eq!(y.date.as_deref(), Some("2024-01-15"));
    assert!(y.yanked);
    assert_eq!(y.entries[0].1, vec!["Old API".to_string()]);
}

#[test]
fn parse_ignores_items_without_section_or_release() {
    let cl = Changelog::parse("intro\n- stray\n## [1.0.0]\n- no section\n### Bogus\n- unknown section\n### Added\n- kept\n");
    assert_eq!(cl.preamble, "intro");
    assert_eq!(cl.releases.len(), 1);
    assert_eq!(cl.releases[0].version.as_deref(), Some("1.0.0"));
    assert_eq!(cl.releases[0].date, None);
    assert_eq!(cl.releases[0].entries.len(), 1);
    assert_eq!(cl.releases[0].entries[0].1, vec!["kept".to_string()]);
}

#[test]
fn parse_merges_repeated_sections() {
    let cl = Changelog::parse("## [Unreleased]\n### Added\n- a\n### Fixed\n- b\n### Added\n- c\n");
    let r = &cl.releases[0];
    assert_eq!(r.entries.len(), 2);
    assert_eq!(r.entries[0].0, Section::Added);
    assert_eq!(r.entries[0].1, vec!["a".to_string(), "c".to_string()]);
    assert_eq!(r.entries[1].1, vec!["b".to_string()]);
}

#[test]
fn parse_crlf_and_empty_input() {
    let cl = Changelog::parse("Intro\r\n## [2.0.0] - 2020-02-02\r\n### Changed\r\n- x\r\n");
    assert_eq!(cl.preamble, "Intro");
    assert_eq!(cl.releases[0].date.as_deref(), Some("2020-02-02"));
    assert_eq!(cl.releases[0].entries[0].1, vec!["x".to_string()]);

    let empty = Changelog::parse("");
    assert_eq!(empty.preamble, "");
    assert!(empty.releases.is_empty());
}

#[test]
fn parse_heading_cases() {
    let r = parse_heading(&chars("## [UNRELEASED] - 2020-01-01"));
    assert_eq!(r.version, None);
    assert_eq!(r.date, None);

    let r = parse_heading(&chars("## 3.0.0 - 2021-05-05 [YANKED]"));
    assert_eq!(r.version.as_deref(), Some("3.0.0 - 2021-05-05"));
    assert_eq!(r.date.as_deref(), Some("2021-05-05"));
    assert!(r.yanked);

    let r = parse_heading(&chars("## ## [[1.0]x] -  d1  - d2"));
    assert_eq!(r.version.as_deref(), Some("1.0"));
    assert_eq!(r.date.as_deref(), Some("d1"));
    assert!(!r.yanked);
}

#[test]
fn release_from_heading_decides_on_lowered_text() {
    let r = release_from_heading(&chars("[9.9.9] - today"), true, &chars("[9.9.9] - today"));
    assert_eq!(r.version.as_deref(), Some("9.9.9"));
    assert_eq!(r.date.as_deref(), Some("today"));
    assert!(r.yanked);
    let u = release_from_heading(&chars("[9.9.9]"), true, &chars("unreleased"));
    assert_eq!(u.version, None);
    assert!(!u.yanked);
}

#[test]
fn render_new_empty() {
    let cl = Changelog::new_empty();
    let text = cl.render();
    assert_eq!(
        text,
        "# Changelog\n\nAll notable changes to this project will be documented in this file.\n\nThe format is based on [Keep a Changelog](https://keepachangelog.com/en/1.1.0/),\nand this project adheres to [Semantic Versioning](https://semver.org/spec/v2.0.0.html).\n\n## [Unreleased]\n\n"
    );
    let back = Changelog::parse(&text);
    assert_eq!(back.preamble, cl.preamble);
    assert_eq!(back.releases.len(), 1);
    assert_eq!(back.releases[0].version, None);
    assert!(back.releases[0].entries.is_empty());
}

#[test]
fn render_release_orders_sections() {
    let r = Release {
        version: Some("1.0.0".to_string()),
        date: Some("2024-01-01".to_string()),
        yanked: true,
        entries: vec![
            (Section::Fixed, vec!["fix".to_string()]),
            (Section::Removed, vec![]),
            (Section::Added, vec!["one".to_string(), "two".to_string()]),
        ],
    };
    assert_eq!(
        render_release(&r),
        "## [1.0.0] - 2024-01-01 [YANKED]\n\n### Added\n\n- one\n- two\n\n### Fixed\n\n- fix\n\n"
    );
    let u = Release::unreleased();
    assert_eq!(render_release(&u), "## [Unreleased]\n\n");
}

#[test]
fn render_adds_line_ending_to_preamble() {
    let cl = Changelog { preamble: "Intro".to_string(), releases: vec![] };
    assert_eq!(cl.render(), "Intro\n\n");
    let cl = Changelog { preamble: String::new(), releases: vec![] };
    assert_eq!(cl.render(), "\n\n");
}

#[test]
fn render_then_parse_sample() {
    let cl = Changelog::parse(SAMPLE);
    let text = cl.render();
    let back = Changelog::parse(&text);
    assert_eq!(back.preamble, cl.preamble);
    assert_eq!(back.releases.len(), cl.releases.len());
    assert_eq!(back.releases[1].entries[0].0, Section::Added);
    assert_eq!(back.releases[1].entries[1].0, Section::Fixed);
    assert_eq!(back.render(), text);
}

#[test]
fn get_section_mut_finds_or_creates() {
    let mut r = Release::unreleased();
    r.get_section_mut(&Section::Fixed).push("a".to_string());
    r.get_section_mut(&Section::Added).push("b".to_string());
    r.get_section_mut(&Section::Fixed).push("c".to_string());
    assert_eq!(r.entries.len(), 2);
    assert_eq!(r.entries[0].0, Section::Fixed);
    assert_eq!(r.entries[0].1, vec!["a".to_string(), "c".to_string()]);
    assert_eq!(r.entries[1].1, vec!["b".to_string()]);
    let v = r.get_section_mut(&Section::Security);
    assert!(v.is_empty());
    assert_eq!(r.entries.len(), 3);
}

#[test]
fn is_empty_and_all_entries() {
    let mut r = Release::unreleased();
    assert!(r.is_empty());
    r.get_section_mut(&Section::Removed);
    assert!(r.is_empty());
    r.get_section_mut(&Section::Added).push("x".to_string());
    r.get_section_mut(&Section::Added).push("y".to_string());
    r.get_section_mut(&Section::Removed).push("z".to_string());
    assert!(!r.is_empty());
    let all = r.all_entries();
    assert_eq!(all.len(), 3);
    assert_eq!(all[0], (&Section::Removed, "z"));
    assert_eq!(all[1], (&Section::Added, "x"));
    assert_eq!(all[2], (&Section::Added, "y"));
}

#[test]
fn unreleased_accessors() {
    let mut cl = Changelog { preamble: String::new(), releases: vec![] };
    assert!(cl.unreleased().is_none());
    assert_eq!(cl.latest_version(), None);
    cl.unreleased_mut().get_section_mut(&Section::Added).push("a".to_string());
    assert_eq!(cl.releases.len(), 1);
    cl.unreleased_mut();
    assert_eq!(cl.releases.len(), 1);
    assert!(cl.unreleased().is_some());

    let mut cl = Changelog::parse("## [1.0.0]\n## [0.9.0]\n");
    assert!(cl.unreleased().is_none());
    assert_eq!(cl.latest_version(), Some("1.0.0"));
    cl.unreleased_mut();
    assert_eq!(cl.releases.len(), 3);
    assert_eq!(cl.releases[0].version, None);
    assert_eq!(cl.latest_version(), Some("1.0.0"));
}

#[test]
fn normal_form_reads_back_exactly() {
    let cl = Changelog {
        preamble: "# Changelog\n\nNotes.\n".to_string(),
        releases: vec![
            Release {
                version: None,
                date: None,
                yanked: false,
                entries: vec![(Section::Changed, vec!["Tweak".to_string()])],
            },
            Release {
                version: Some("2.0.0".to_string()),
                date: Some("2024-12-24".to_string()),
                yanked: true,
                entries: vec![
                    (Section::Added, vec!["A".to_string(), "B [x]".to_string()]),
                    (Section::Security, vec!["- nested dash".to_string()]),
                ],
            },
            Release {
                version: Some("1.0.0".to_string()),
                date: None,
                yanked: false,
                entries: vec![],
            },
        ],
    };
    let back = Changelog::parse(&cl.render());
    assert_eq!(back.preamble, cl.preamble);
    assert_eq!(back.releases.len(), cl.releases.len());
    for (a, b) in back.releases.iter().zip(cl.releases.iter()) {
        assert_eq!(a.version, b.version);
        assert_eq!(a.date, b.date);
        assert_eq!(a.yanked, b.yanked);
        assert_eq!(a.entries, b.entries);
    }
}

#[test]
fn reading_back_gives_the_normal_form() {
    let cl = Changelog {
        preamble: "Top".to_string(),
        releases: vec![Release {
            version: None,
            date: Some("ignored".to_string()),
            yanked: true,
            entries: vec![
                (Section::Fixed, vec!["f".to_string()]),
                (Section::Added, vec![]),
                (Section::Fixed, vec!["dropped".to_string()]),
                (Section::Added, vec!["a".to_string()]),
            ],
        }],
    };
    let text = cl.render();
    let back = Changelog::parse(&text);
    assert_eq!(back.preamble, "Top\n");
    assert_eq!(back.releases[0].date, None);
    assert!(!back.releases[0].yanked);
    assert_eq!(
        back.releases[0].entries,
        vec![(Section::Fixed, vec!["f".to_string()])]
    );
    assert_eq!(back.render(), text);
}

#[test]
fn version_with_bracket_does_not_read_back() {
    let cl = Changelog {
        preamble: "\n".to_string(),
        releases: vec![Release {
            version: Some("1.0]beta".to_string()),
            date: None,
            yanked: false,
            entries: vec![],
        }],
    };
    let back = Changelog::parse(&cl.render());
    assert_eq!(back.releases[0].version.as_deref(), Some("1.0"));
}

#[test]
fn entry_order_does_not_change_release_text() {
    let a = Release {
        version: Some("1.0.0".to_string()),
        date: None,
        yanked: false,
        entries: vec![
            (Section::Fixed, vec!["f".to_string()]),
            (Section::Added, vec!["a".to_string()]),
        ],
    };
    let b = Release {
        version: Some("1.0.0".to_string()),
        date: None,
        yanked: false,
        entries: vec![
            (Section::Security, vec![]),
            (Section::Added, vec!["a".to_string()]),
            (Section::Fixed, vec!["f".to_string()]),
        ],
    };
    assert_eq!(render_release(&a), render_release(&b));
}

#[test]
fn plain_lines_after_a_heading_are_ignored() {
    let base = "Intro\n## [1.0.0]\n### Added\n- a\n";
    let more = "Intro\n## [1.0.0]\nstray text\n### Added\n- a\nmore\n";
    let x = Changelog::parse(base);
    let y = Changelog::parse(more);
    assert_eq!(x.preamble, y.preamble);
    assert_eq!(x.releases.len(), y.releases.len());
    assert_eq!(x.releases[0].version, y.releases[0].version);
    assert_eq!(x.releases[0].entries, y.releases[0].entries);
}

#[test]
fn lowercase_heading_detection() {
    let r = parse_heading(&chars("## [UnReLeAsEd]"));
    assert_eq!(r.version, None);
    let r = parse_heading(&chars("## [ÜNRELEASED]"));
    assert_eq!(r.version.as_deref(), Some("ÜNRELEASED"));
}
