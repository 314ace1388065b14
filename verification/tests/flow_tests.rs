use keepachangelog::changelog::{Changelog, Release, Section};
use keepachangelog::display::{full_view, unreleased_summary};
use keepachangelog::flow::{
    add_entry, bump_patch, check_description, cut_release, nothing_to_release, semver_like,
    suggested_version, suggestion_available, valid_release_date, Action, DescriptionCheck,
};
use keepachangelog::hook::hook_script;

#[test]
fn semver_like_cases() {
    assert!(semver_like("1.2.3"));
    assert!(semver_like("  0.0.0 \n"));
    assert!(semver_like("+1.2.3"));
    assert!(semver_like("01.002.3"));
    assert!(!semver_like("1.2"));
    assert!(!semver_like("1.2.3.4"));
    assert!(!semver_like("1.x.3"));
    assert!(!semver_like("1..3"));
    assert!(!semver_like("1.2.-3"));
    assert!(!semver_like("1.2.4294967296"));
    assert!(semver_like("1.2.4294967295"));
    assert!(!semver_like(""));
}

#[test]
fn bump_patch_cases() {
    assert_eq!(bump_patch("1.2.3").as_deref(), Some("1.2.4"));
    assert_eq!(bump_patch("0.9.9").as_deref(), Some("0.9.10"));
    assert_eq!(bump_patch("v1.x.007").as_deref(), Some("v1.x.8"));
    assert_eq!(bump_patch("1.2.+5").as_deref(), Some("1.2.6"));
    assert_eq!(bump_patch("1.2"), None);
    assert_eq!(bump_patch("1.2.3-beta"), None);
    assert_eq!(bump_patch("1.2.3 "), None);
    assert_eq!(bump_patch("1.2.4294967294").as_deref(), Some("1.2.4294967295"));
}

#[test]
fn suggested_version_cases() {
    let cl = Changelog::parse("## [Unreleased]\n## [2.4.9] - 2024-01-01\n## [2.4.8]\n");
    assert_eq!(suggested_version(&cl), "2.4.10");
    let cl = Changelog::parse("## [Unreleased]\n");
    assert_eq!(suggested_version(&cl), "0.1.0");
    let cl = Changelog::parse("## [next]\n## [1.0.0]\n");
    assert_eq!(suggested_version(&cl), "0.1.0");
}

#[test]
fn release_date_cases() {
    assert!(valid_release_date("2024-03-01"));
    assert!(!valid_release_date("2024-3-01"));
    assert!(!valid_release_date("24-03-01"));
    assert!(!valid_release_date("2024-03-01-"));
    assert!(!valid_release_date("2024-0a-01"));
    assert!(!valid_release_date(" 2024-03-01"));
    assert!(!valid_release_date("２０２４-03-01"));
    assert!(!valid_release_date(""));
}

#[test]
fn description_cases() {
    assert_eq!(check_description("   "), DescriptionCheck::Empty);
    assert_eq!(check_description(""), DescriptionCheck::Empty);
    assert_eq!(check_description("  Fix the thing  "), DescriptionCheck::Valid);
    let long = "x".repeat(281);
    assert_eq!(check_description(&long), DescriptionCheck::TooLong(281));
    let exact = "y".repeat(280);
    assert_eq!(check_description(&format!("  {exact}  ")), DescriptionCheck::Valid);
    let wide = "é".repeat(141);
    assert_eq!(check_description(&wide), DescriptionCheck::TooLong(282));
}

#[test]
fn ends_session_cases() {
    assert!(Action::Release.ends_session());
    assert!(Action::Skip.ends_session());
    assert!(!Action::Add.ends_session());
    assert!(!Action::View.ends_session());
}

#[test]
fn add_entry_and_release() {
    let mut cl = Changelog::parse("# Log\n\n## [1.0.0] - 2023-01-01\n\n### Added\n\n- First\n");
    assert!(nothing_to_release(&cl));
    add_entry(&mut cl, Section::Fixed, "  Crash on start \n");
    assert_eq!(cl.releases.len(), 2);
    assert_eq!(cl.releases[0].version, None);
    assert_eq!(cl.releases[0].entries[0].0, Section::Fixed);
    assert_eq!(cl.releases[0].entries[0].1, vec!["Crash on start".to_string()]);
    assert!(!nothing_to_release(&cl));
    assert_eq!(suggested_version(&cl), "1.0.1");

    cut_release(&mut cl, " 1.0.1 ", "2024-05-06\n");
    assert_eq!(cl.releases.len(), 3);
    assert_eq!(cl.releases[0].version, None);
    assert!(cl.releases[0].entries.is_empty());
    assert_eq!(cl.releases[1].version.as_deref(), Some("1.0.1"));
    assert_eq!(cl.releases[1].date.as_deref(), Some("2024-05-06"));
    assert_eq!(cl.latest_version(), Some("1.0.1"));
    assert!(nothing_to_release(&cl));
    assert_eq!(
        cl.render(),
        "# Log\n\n## [Unreleased]\n\n## [1.0.1] - 2024-05-06\n\n### Fixed\n\n- Crash on start\n\n## [1.0.0] - 2023-01-01\n\n### Added\n\n- First\n\n"
    );
}

#[test]
fn cut_release_without_unreleased_block() {
    let mut cl = Changelog { preamble: String::new(), releases: vec![] };
    cut_release(&mut cl, "0.1.0", "2020-01-01");
    assert_eq!(cl.releases.len(), 2);
    assert_eq!(cl.releases[0].version, None);
    assert_eq!(cl.releases[1].version.as_deref(), Some("0.1.0"));
}

#[test]
fn full_view_text() {
    let mut cl = Changelog::parse("## [Unreleased]\n## [1.0.0] - 2024-01-01 [YANKED]\n### Added\n- a\n### Fixed\n");
    cl.releases[1].get_section_mut(&Section::Removed);
    let text = full_view(&cl);
    assert_eq!(
        text,
        "\n  \u{1b}[1;36m[Unreleased]\u{1b}[0m\n    (no entries)\n\n  \u{1b}[1;34m[1.0.0]\u{1b}[0m \u{2014} 2024-01-01  \u{1b}[31m[YANKED]\u{1b}[0m\n    \u{1b}[1;33mAdded\u{1b}[0m\n      \u{2022} a\n\n"
    );
}

#[test]
fn unreleased_summary_text() {
    assert_eq!(unreleased_summary(None), "  \u{1b}[1;36m[Unreleased]\u{1b}[0m\n    (empty)\n\n");
    let empty = Release::unreleased();
    assert_eq!(unreleased_summary(Some(&empty)), "  \u{1b}[1;36m[Unreleased]\u{1b}[0m\n    (empty)\n\n");
    let mut r = Release::unreleased();
    for item in ["a", "b", "c", "d", "e"] {
        r.get_section_mut(&Section::Changed).push(item.to_string());
    }
    r.get_section_mut(&Section::Security).push("s".to_string());
    assert_eq!(
        unreleased_summary(Some(&r)),
        "  \u{1b}[1;36m[Unreleased]\u{1b}[0m\n    Changed (5)\n      \u{2022} a\n      \u{2022} b\n      \u{2022} c\n      ... and 2 more\n    Security (1)\n      \u{2022} s\n\n"
    );
}

#[test]
fn hook_script_text() {
    assert_eq!(
        hook_script("C:\\tools\\kac.exe", "CHANGELOG.md"),
        "#!/usr/bin/env sh\n\"C:/tools/kac.exe\" --file \"CHANGELOG.md\"\n"
    );
    assert_eq!(
        hook_script("/usr/bin/kac", "docs/CHANGES.md"),
        "#!/usr/bin/env sh\n\"/usr/bin/kac\" --file \"docs/CHANGES.md\"\n"
    );
}

#[test]
fn bumped_versions_stay_semver_like() {
    for v in ["1.2.3", " 0.0.9", "+1.+2.3", "10.20.4294967294"] {
        let w = bump_patch(v).expect("bump succeeds");
        assert!(semver_like(&w), "{w}");
    }
    let cl = Changelog::parse("## [Unreleased]\n## [3.1.4]\n");
    assert!(semver_like(&suggested_version(&cl)));
    let cl = Changelog::parse("## [Unreleased]\n");
    assert!(semver_like(&suggested_version(&cl)));
}

#[test]
fn suggestion_available_cases() {
    assert!(suggestion_available(&Changelog::parse("## [Unreleased]\n")));
    assert!(suggestion_available(&Changelog::parse("## [1.2.3]\n")));
    assert!(suggestion_available(&Changelog::parse("## [1.2]\n")));
    assert!(suggestion_available(&Changelog::parse("## [1.2.4294967294]\n")));
    assert!(!suggestion_available(&Changelog::parse("## [Unreleased]\n## [1.2.4294967295]\n")));
}
