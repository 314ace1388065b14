//! The changelog model: sections, releases and the whole file, with the
//! parser and the renderer of the Keep-a-Changelog format.

use vstd::prelude::*;
use crate::text::{
    before_first, before_first_chars, chars_eq, contains, contains_chars, join, join_chars,
    lines, lines_chars, push_str, remove_all, remove_all_chars, second_field,
    second_field_chars, starts_with, starts_with_chars, lowercase, to_chars,
    to_lowercase_chars, to_string, trim, trim_chars, trim_start_matches,
    trim_start_matches_chars, copy_range,
};

verus! {

// ---------------------------------------------------------------------------
// Sections
// ---------------------------------------------------------------------------

/// The kinds of change that Keep a Changelog distinguishes.
#[derive(Debug, Clone, Copy, PartialEq, Eq, Structural)]
pub enum Section {
    Added,
    Changed,
    Deprecated,
    Removed,
    Fixed,
    Security,
}

/// Every section, in the order in which a release lists them.
pub open spec fn all_sections() -> Seq<Section> {
    seq![
        Section::Added,
        Section::Changed,
        Section::Deprecated,
        Section::Removed,
        Section::Fixed,
        Section::Security,
    ]
}

/// The heading text of a section.
pub open spec fn section_name(s: Section) -> Seq<char> {
    match s {
        Section::Added => "Added"@,
        Section::Changed => "Changed"@,
        Section::Deprecated => "Deprecated"@,
        Section::Removed => "Removed"@,
        Section::Fixed => "Fixed"@,
        Section::Security => "Security"@,
    }
}

/// The one-line explanation of a section.
pub open spec fn section_description(s: Section) -> Seq<char> {
    match s {
        Section::Added => "New features"@,
        Section::Changed => "Changes to existing functionality"@,
        Section::Deprecated => "Features to be removed in upcoming releases"@,
        Section::Removed => "Features removed in this release"@,
        Section::Fixed => "Any bug fixes"@,
        Section::Security => "Vulnerabilities patched"@,
    }
}

/// The section whose heading text is exactly `t`.
pub open spec fn section_from_name(t: Seq<char>) -> Option<Section> {
    if t == "Added"@ {
        Some(Section::Added)
    } else if t == "Changed"@ {
        Some(Section::Changed)
    } else if t == "Deprecated"@ {
        Some(Section::Deprecated)
    } else if t == "Removed"@ {
        Some(Section::Removed)
    } else if t == "Fixed"@ {
        Some(Section::Fixed)
    } else if t == "Security"@ {
        Some(Section::Security)
    } else {
        None
    }
}

impl Section {
    /// Every section, in the order in which a release lists them.
    pub fn all() -> (r: &'static [Section])
        ensures
            r@ == all_sections(),
    {
        &[
            Section::Added,
            Section::Changed,
            Section::Deprecated,
            Section::Removed,
            Section::Fixed,
            Section::Security,
        ]
    }

    /// The heading text of the section.
    pub fn as_str(&self) -> (r: &'static str)
        ensures
            r@ == section_name(*self),
    {
        match self {
            Section::Added => "Added",
            Section::Changed => "Changed",
            Section::Deprecated => "Deprecated",
            Section::Removed => "Removed",
            Section::Fixed => "Fixed",
            Section::Security => "Security",
        }
    }

    /// The one-line explanation of the section.
    pub fn description(&self) -> (r: &'static str)
        ensures
            r@ == section_description(*self),
    {
        match self {
            Section::Added => "New features",
            Section::Changed => "Changes to existing functionality",
            Section::Deprecated => "Features to be removed in upcoming releases",
            Section::Removed => "Features removed in this release",
            Section::Fixed => "Any bug fixes",
            Section::Security => "Vulnerabilities patched",
        }
    }

    /// The section whose heading text is exactly `s`.
    pub fn from_str(s: &str) -> (r: Option<Section>)
        ensures
            r == section_from_name(s@),
    {
        let t = to_chars(s);
        section_from_chars(t.as_slice())
    }
}

/// The section whose heading text is exactly `t`.
pub fn section_from_chars(t: &[char]) -> (r: Option<Section>)
    ensures
        r == section_from_name(t@),
{
    if chars_eq(t, to_chars("Added").as_slice()) {
        Some(Section::Added)
    } else if chars_eq(t, to_chars("Changed").as_slice()) {
        Some(Section::Changed)
    } else if chars_eq(t, to_chars("Deprecated").as_slice()) {
        Some(Section::Deprecated)
    } else if chars_eq(t, to_chars("Removed").as_slice()) {
        Some(Section::Removed)
    } else if chars_eq(t, to_chars("Fixed").as_slice()) {
        Some(Section::Fixed)
    } else if chars_eq(t, to_chars("Security").as_slice()) {
        Some(Section::Security)
    } else {
        None
    }
}

/// The position of the first entry for section `s`, or `secs.len()` when
/// there is none.
pub open spec fn find_section(secs: Seq<Section>, s: Section) -> int
    decreases secs.len(),
{
    if secs.len() == 0 {
        0
    } else if secs[0] == s {
        0
    } else {
        1 + find_section(secs.drop_first(), s)
    }
}

pub open spec fn sections_of<T>(e: Seq<(Section, T)>) -> Seq<Section> {
    e.map_values(|x: (Section, T)| x.0)
}

/// `e` with the value of the first entry for `s` replaced by `v`, or with
/// `(s, v)` appended when there is no entry for `s`.
pub open spec fn slot_after<T>(e: Seq<(Section, T)>, s: Section, v: T) -> Seq<(Section, T)> {
    let i = find_section(sections_of(e), s);
    if i < e.len() {
        e.update(i, (s, v))
    } else {
        e.push((s, v))
    }
}

pub proof fn lemma_find_section(secs: Seq<Section>, s: Section)
    ensures
        0 <= find_section(secs, s) <= secs.len(),
        find_section(secs, s) < secs.len() ==> secs[find_section(secs, s)] == s,
        forall|j: int| 0 <= j < find_section(secs, s) ==> secs[j] != s,
    decreases secs.len(),
{
    if secs.len() > 0 && secs[0] != s {
        lemma_find_section(secs.drop_first(), s);
        assert forall|j: int| 0 <= j < find_section(secs, s) implies secs[j] != s by {
            if j > 0 {
                assert(secs[j] == secs.drop_first()[j - 1]);
            }
        }
    }
}

pub proof fn lemma_find_section_at(secs: Seq<Section>, s: Section, i: int)
    requires
        0 <= i <= secs.len(),
        i < secs.len() ==> secs[i] == s,
        forall|j: int| 0 <= j < i ==> secs[j] != s,
    ensures
        find_section(secs, s) == i,
    decreases i,
{
    if i > 0 {
        let t = secs.drop_first();
        assert forall|j: int| 0 <= j < i - 1 implies t[j] != s by {
            assert(t[j] == secs[j + 1]);
        }
        lemma_find_section_at(t, s, i - 1);
    }
}

// ---------------------------------------------------------------------------
// Releases
// ---------------------------------------------------------------------------

/// One release block: a version heading and its entries by section.
#[derive(Debug, Clone)]
pub struct Release {
    pub version: Option<String>,
    pub date: Option<String>,
    pub yanked: bool,
    pub entries: Vec<(Section, Vec<String>)>,
}

/// A release as values: `version` is `None` for the unreleased block.
#[verifier::ext_equal]
pub struct ReleaseView {
    pub version: Option<Seq<char>>,
    pub date: Option<Seq<char>>,
    pub yanked: bool,
    pub entries: Seq<(Section, Seq<Seq<char>>)>,
}

pub open spec fn opt_string_view(o: Option<String>) -> Option<Seq<char>> {
    match o {
        Some(s) => Some(s@),
        None => None,
    }
}

pub open spec fn items_view(v: Vec<String>) -> Seq<Seq<char>> {
    v@.map_values(|s: String| s@)
}

pub open spec fn entries_view(e: Seq<(Section, Vec<String>)>) -> Seq<(Section, Seq<Seq<char>>)> {
    e.map_values(|x: (Section, Vec<String>)| (x.0, items_view(x.1)))
}

impl View for Release {
    type V = ReleaseView;

    open spec fn view(&self) -> ReleaseView {
        ReleaseView {
            version: opt_string_view(self.version),
            date: opt_string_view(self.date),
            yanked: self.yanked,
            entries: entries_view(self.entries@),
        }
    }
}

/// The empty unreleased block.
pub open spec fn unreleased_view() -> ReleaseView {
    ReleaseView { version: None, date: None, yanked: false, entries: seq![] }
}

/// `r` with `item` appended to the first entry of section `s`, or with a new
/// entry for `s` holding just `item` when there is none.
pub open spec fn add_item(r: ReleaseView, s: Section, item: Seq<char>) -> ReleaseView {
    let i = find_section(sections_of(r.entries), s);
    if i < r.entries.len() {
        ReleaseView { entries: r.entries.update(i, (s, r.entries[i].1.push(item))), ..r }
    } else {
        ReleaseView { entries: r.entries.push((s, seq![item])), ..r }
    }
}

/// No entry of the release holds an item.
pub open spec fn release_is_empty(r: ReleaseView) -> bool {
    forall|i: int| 0 <= i < r.entries.len() ==> (#[trigger] r.entries[i]).1.len() == 0
}

/// Every item of the release with its section, in the order of the entries.
pub open spec fn flat_entries(e: Seq<(Section, Seq<Seq<char>>)>) -> Seq<(Section, Seq<char>)>
    decreases e.len(),
{
    if e.len() == 0 {
        seq![]
    } else {
        let s = e.last().0;
        flat_entries(e.drop_last()) + e.last().1.map_values(|it: Seq<char>| (s, it))
    }
}

/// Sections appear at most once among the entries.
pub open spec fn distinct_sections(e: Seq<(Section, Seq<Seq<char>>)>) -> bool {
    forall|i: int, j: int| 0 <= i < j < e.len() ==> (#[trigger] e[i]).0 != (#[trigger] e[j]).0
}

impl Release {
    /// The empty unreleased block.
    pub fn unreleased() -> (r: Release)
        ensures
            r@ == unreleased_view(),
    {
        let r = Release { version: None, date: None, yanked: false, entries: Vec::new() };
        assert(r@ =~= unreleased_view());
        r
    }

    /// The item list of the first entry for `section`; an empty entry for it
    /// is appended first when there is none.
    pub fn get_section_mut(&mut self, section: &Section) -> (r: &mut Vec<String>)
        ensures
            ({
                let i = find_section(sections_of(old(self).entries@), *section);
                if i < old(self).entries@.len() {
                    &&& *r == old(self).entries@[i].1
                    &&& final(self).entries@ == old(self).entries@.update(i, (*section, *final(r)))
                } else {
                    &&& r@ == Seq::<String>::empty()
                    &&& final(self).entries@ == old(self).entries@.push((*section, *final(r)))
                }
            }),
            final(self).entries@ == slot_after(old(self).entries@, *section, *final(r)),
            final(self).version == old(self).version,
            final(self).date == old(self).date,
            final(self).yanked == old(self).yanked,
    {
        let ghost secs = sections_of(self.entries@);
        let mut pos: usize = 0;
        while pos < self.entries.len()
            invariant
                pos <= self.entries@.len(),
                *self == *old(self),
                secs == sections_of(self.entries@),
                forall|j: int| 0 <= j < pos ==> secs[j] != *section,
            decreases self.entries.len() - pos,
        {
            if self.entries[pos].0 == *section {
                proof {
                    lemma_find_section_at(secs, *section, pos as int);
                }
                return &mut self.entries[pos].1;
            }
            pos = pos + 1;
        }
        proof {
            lemma_find_section_at(secs, *section, pos as int);
        }
        self.entries.push((*section, Vec::new()));
        let last = self.entries.len() - 1;
        &mut self.entries[last].1
    }

    /// Appends `item` to the first entry of `section`, which is created when
    /// there is none.
    pub fn push_item(&mut self, section: Section, item: String)
        ensures
            final(self)@ == add_item(old(self)@, section, item@),
    {
        let ghost before = *self;
        let items = self.get_section_mut(&section);
        let ghost item_view = item@;
        items.push(item);
        proof {
            let k = find_section(sections_of(before.entries@), section);
            assert(sections_of(entries_view(before.entries@)) =~= sections_of(before.entries@));
            lemma_find_section(sections_of(before.entries@), section);
            assert(sections_of(before.entries@).len() == before.entries@.len());
            if k < before.entries@.len() {
                assert(items_view(self.entries@[k].1) =~= items_view(before.entries@[k].1).push(item_view));
                assert(entries_view(self.entries@) =~= entries_view(before.entries@).update(
                    k,
                    (section, items_view(before.entries@[k].1).push(item_view)),
                ));
            } else {
                assert(items_view(self.entries@[before.entries@.len() as int].1) =~= seq![item_view]);
                assert(entries_view(self.entries@) =~= entries_view(before.entries@).push(
                    (section, seq![item_view]),
                ));
            }
            assert(self@ =~= add_item(before@, section, item_view));
        }
    }

    /// No entry of the release holds an item.
    pub fn is_empty(&self) -> (r: bool)
        ensures
            r == release_is_empty(self@),
    {
        let mut i: usize = 0;
        while i < self.entries.len()
            invariant
                i <= self.entries@.len(),
                forall|j: int| 0 <= j < i ==> (#[trigger] self@.entries[j]).1.len() == 0,
            decreases self.entries.len() - i,
        {
            if self.entries[i].1.len() != 0 {
                assert(self@.entries[i as int].1.len() != 0);
                return false;
            }
            assert(self@.entries[i as int].1.len() == 0);
            i = i + 1;
        }
        true
    }

    /// Every item of the release with its section, in the order of the
    /// entries.
    pub fn all_entries(&self) -> (r: Vec<(&Section, &str)>)
        ensures
            r@.map_values(|p: (&Section, &str)| (*p.0, p.1@)) == flat_entries(self@.entries),
    {
        let ghost e = self@.entries;
        let mut out: Vec<(&Section, &str)> = Vec::new();
        let mut i: usize = 0;
        while i < self.entries.len()
            invariant
                i <= self.entries@.len(),
                e == self@.entries,
                out@.map_values(|p: (&Section, &str)| (*p.0, p.1@)) == flat_entries(
                    e.take(i as int),
                ),
            decreases self.entries.len() - i,
        {
            let s = &self.entries[i].0;
            let items = &self.entries[i].1;
            let ghost base = out@.map_values(|p: (&Section, &str)| (*p.0, p.1@));
            let mut k: usize = 0;
            while k < items.len()
                invariant
                    k <= items@.len(),
                    i < e.len(),
                    *s == e[i as int].0,
                    items_view(*items) == e[i as int].1,
                    out@.map_values(|p: (&Section, &str)| (*p.0, p.1@)) == base + items_view(
                        *items,
                    ).take(k as int).map_values(|it: Seq<char>| (*s, it)),
                decreases items.len() - k,
            {
                let ghost prev = out@.map_values(|p: (&Section, &str)| (*p.0, p.1@));
                let t = items[k].as_str();
                assert(t@ == items_view(*items)[k as int]);
                out.push((s, t));
                assert(out@.map_values(|p: (&Section, &str)| (*p.0, p.1@)) =~= prev.push((*s, t@)));
                assert(items_view(*items).take(k + 1).map_values(|it: Seq<char>| (*s, it))
                    =~= items_view(*items).take(k as int).map_values(|it: Seq<char>| (*s, it)).push((*s, t@)));
                k = k + 1;
                assert(out@.map_values(|p: (&Section, &str)| (*p.0, p.1@)) =~= base + items_view(
                    *items,
                ).take(k as int).map_values(|it: Seq<char>| (*s, it)));
            }
            assert(items_view(*items).take(k as int) =~= items_view(*items));
            assert(e.take(i + 1).drop_last() =~= e.take(i as int));
            i = i + 1;
        }
        assert(e.take(i as int) =~= e);
        out
    }
}

// ---------------------------------------------------------------------------
// The whole changelog
// ---------------------------------------------------------------------------

/// A changelog file: free text before the first release heading, then the
/// releases, newest first.
#[derive(Debug)]
pub struct Changelog {
    pub preamble: String,
    pub releases: Vec<Release>,
}

/// A changelog as values.
#[verifier::ext_equal]
pub struct ChangelogView {
    pub preamble: Seq<char>,
    pub releases: Seq<ReleaseView>,
}

pub open spec fn releases_view(rs: Seq<Release>) -> Seq<ReleaseView> {
    rs.map_values(|r: Release| r@)
}

impl View for Changelog {
    type V = ChangelogView;

    open spec fn view(&self) -> ChangelogView {
        ChangelogView { preamble: self.preamble@, releases: releases_view(self.releases@) }
    }
}

/// The text that a new changelog starts with.
pub open spec fn new_preamble() -> Seq<char> {
    "# Changelog\n\nAll notable changes to this project will be documented in this file.\n\nThe format is based on [Keep a Changelog](https://keepachangelog.com/en/1.1.0/),\nand this project adheres to [Semantic Versioning](https://semver.org/spec/v2.0.0.html).\n"@
}

/// `rs` with an empty unreleased block in front, unless it starts with an
/// unreleased block already.
pub open spec fn with_unreleased_first(rs: Seq<ReleaseView>) -> Seq<ReleaseView> {
    if rs.len() > 0 && rs[0].version is None {
        rs
    } else {
        rs.insert(0, unreleased_view())
    }
}

/// The version of the first release that has one.
pub open spec fn latest_version_of(rs: Seq<ReleaseView>) -> Option<Seq<char>>
    decreases rs.len(),
{
    if rs.len() == 0 {
        None
    } else if rs[0].version is Some {
        rs[0].version
    } else {
        latest_version_of(rs.drop_first())
    }
}

pub proof fn lemma_latest_version_skip(rs: Seq<ReleaseView>, i: int)
    requires
        0 <= i <= rs.len(),
        forall|j: int| 0 <= j < i ==> (#[trigger] rs[j]).version is None,
    ensures
        latest_version_of(rs) == latest_version_of(rs.skip(i)),
    decreases i,
{
    if i == 0 {
        assert(rs.skip(0) =~= rs);
    } else {
        let t = rs.drop_first();
        assert forall|j: int| 0 <= j < i - 1 implies (#[trigger] t[j]).version is None by {
            assert(t[j] == rs[j + 1]);
        }
        lemma_latest_version_skip(t, i - 1);
        assert(t.skip(i - 1) =~= rs.skip(i));
    }
}

impl Changelog {
    /// A changelog with the standard preamble and an empty unreleased block.
    pub fn new_empty() -> (cl: Changelog)
        ensures
            cl@.preamble == new_preamble(),
            cl@.releases == seq![unreleased_view()],
    {
        let preamble = String::from_str(
            "# Changelog\n\nAll notable changes to this project will be documented in this file.\n\nThe format is based on [Keep a Changelog](https://keepachangelog.com/en/1.1.0/),\nand this project adheres to [Semantic Versioning](https://semver.org/spec/v2.0.0.html).\n",
        );
        let mut releases: Vec<Release> = Vec::new();
        releases.push(Release::unreleased());
        let cl = Changelog { preamble, releases };
        assert(cl@.releases =~= seq![unreleased_view()]);
        cl
    }

    /// The unreleased block, which is put in front first when the changelog
    /// does not start with one.
    pub fn unreleased_mut(&mut self) -> (r: &mut Release)
        ensures
            ({
                let mid = with_unreleased_first(old(self)@.releases);
                &&& (*r)@ == mid[0]
                &&& final(self)@.releases == mid.update(0, (*final(r))@)
            }),
            final(self).preamble == old(self).preamble,
    {
        if self.releases.len() == 0 || self.releases[0].version.is_some() {
            self.releases.insert(0, Release::unreleased());
        }
        let ghost mid = self.releases@;
        assert(releases_view(mid) =~= with_unreleased_first(old(self)@.releases));
        &mut self.releases[0]
    }

    /// The first release, when it is the unreleased block.
    pub fn unreleased(&self) -> (r: Option<&Release>)
        ensures
            r is Some <==> (self@.releases.len() > 0 && self@.releases[0].version is None),
            r matches Some(x) ==> x@ == self@.releases[0],
    {
        if self.releases.len() > 0 && self.releases[0].version.is_none() {
            Some(&self.releases[0])
        } else {
            None
        }
    }

    /// The version of the newest release that has one.
    pub fn latest_version(&self) -> (r: Option<&str>)
        ensures
            match latest_version_of(self@.releases) {
                Some(v) => r matches Some(x) && x@ == v,
                None => r is None,
            },
    {
        let ghost rs = self@.releases;
        let mut i: usize = 0;
        while i < self.releases.len()
            invariant
                i <= self.releases@.len(),
                rs == self@.releases,
                forall|j: int| 0 <= j < i ==> (#[trigger] rs[j]).version is None,
            decreases self.releases.len() - i,
        {
            match &self.releases[i].version {
                Some(v) => {
                    proof {
                        lemma_latest_version_skip(rs, i as int);
                        assert(rs.skip(i as int)[0] == rs[i as int]);
                    }
                    return Some(v.as_str());
                },
                None => {
                    assert(rs[i as int].version is None);
                },
            }
            i = i + 1;
        }
        proof {
            lemma_latest_version_skip(rs, i as int);
        }
        None
    }
}

// ---------------------------------------------------------------------------
// Parsing
// ---------------------------------------------------------------------------

/// Where the parser stands after some lines.
pub struct ParseState {
    pub preamble: Seq<Seq<char>>,
    pub releases: Seq<ReleaseView>,
    pub current: Option<ReleaseView>,
    pub section: Option<Section>,
    pub in_preamble: bool,
}

pub open spec fn start_state() -> ParseState {
    ParseState {
        preamble: seq![],
        releases: seq![],
        current: None,
        section: None,
        in_preamble: true,
    }
}

/// The release that a heading `s` stands for, given the heading text `b`
/// (without `[YANKED]`), whether the heading was marked `[YANKED]`, and
/// `lowered`, the lower-case form of `b`.
pub open spec fn heading_fields(b: Seq<char>, yanked: bool, lowered: Seq<char>) -> ReleaseView {
    if contains(lowered, "unreleased"@) {
        unreleased_view()
    } else {
        ReleaseView {
            version: Some(before_first(trim_start_matches(b, "["@), "]"@)),
            date: match second_field(b, " - "@) {
                Some(d) => Some(trim(d)),
                None => None,
            },
            yanked,
            entries: seq![],
        }
    }
}

/// The text of a `## ` heading line, trimmed.
pub open spec fn heading_body(line: Seq<char>) -> Seq<char> {
    trim(trim_start_matches(line, "## "@))
}

/// The heading text with `[YANKED]` taken out, trimmed.
pub open spec fn heading_text_without_mark(line: Seq<char>) -> Seq<char> {
    trim(remove_all(heading_body(line), "[YANKED]"@))
}

/// The release that a `## ` heading line opens.
pub open spec fn heading_release(line: Seq<char>) -> ReleaseView {
    let b = heading_text_without_mark(line);
    heading_fields(b, contains(heading_body(line), "[YANKED]"@), lowercase(b))
}

/// One line of input.
pub open spec fn parse_step(st: ParseState, line: Seq<char>) -> ParseState {
    if starts_with(line, "## "@) {
        ParseState {
            preamble: st.preamble,
            releases: match st.current {
                Some(r) => st.releases.push(r),
                None => st.releases,
            },
            current: Some(heading_release(line)),
            section: None,
            in_preamble: false,
        }
    } else if starts_with(line, "### "@) {
        ParseState { section: section_from_name(trim(trim_start_matches(line, "### "@))), ..st }
    } else if starts_with(line, "- "@) {
        match (st.current, st.section) {
            (Some(r), Some(s)) => ParseState {
                current: Some(add_item(r, s, line.skip("- "@.len() as int))),
                ..st
            },
            _ => st,
        }
    } else if st.in_preamble {
        ParseState { preamble: st.preamble.push(line), ..st }
    } else {
        st
    }
}

pub open spec fn run_lines(ls: Seq<Seq<char>>) -> ParseState
    decreases ls.len(),
{
    if ls.len() == 0 {
        start_state()
    } else {
        parse_step(run_lines(ls.drop_last()), ls.last())
    }
}

pub open spec fn finish(st: ParseState) -> ChangelogView {
    ChangelogView {
        preamble: join(st.preamble, "\n"@),
        releases: match st.current {
            Some(r) => st.releases.push(r),
            None => st.releases,
        },
    }
}

/// The changelog that a text describes.
pub open spec fn parse_text(src: Seq<char>) -> ChangelogView {
    finish(run_lines(lines(src)))
}

pub open spec fn opt_release_view(o: Option<Release>) -> Option<ReleaseView> {
    match o {
        Some(r) => Some(r@),
        None => None,
    }
}

pub open spec fn chars_lines_view(v: Seq<Vec<char>>) -> Seq<Seq<char>> {
    v.map_values(|l: Vec<char>| l@)
}

/// The release that a heading stands for, given the heading text `body`
/// without `[YANKED]`, whether the heading was marked `[YANKED]`, and
/// `lowered`, the lower-case form of `body`.
pub fn release_from_heading(body: &[char], yanked: bool, lowered: &[char]) -> (r: Release)
    ensures
        r@ == heading_fields(body@, yanked, lowered@),
{
    let unreleased = to_chars("unreleased");
    if contains_chars(lowered, unreleased.as_slice()) {
        return Release::unreleased();
    }
    let open = to_chars("[");
    let close = to_chars("]");
    let sep = to_chars(" - ");
    proof {
        reveal_strlit("[");
    }
    let unbracketed = trim_start_matches_chars(body, open.as_slice());
    let version = before_first_chars(unbracketed.as_slice(), close.as_slice());
    let date = match second_field_chars(body, sep.as_slice()) {
        Some(d) => Some(to_string(trim_chars(d.as_slice()).as_slice())),
        None => None,
    };
    let r = Release {
        version: Some(to_string(version.as_slice())),
        date,
        yanked,
        entries: Vec::new(),
    };
    assert(r@ =~= heading_fields(body@, yanked, lowered@));
    r
}

/// The release that a `## ` heading line opens.
pub fn parse_heading(line: &[char]) -> (r: Release)
    ensures
        r@ == heading_release(line@),
{
    let h2 = to_chars("## ");
    let mark = to_chars("[YANKED]");
    proof {
        reveal_strlit("## ");
        reveal_strlit("[YANKED]");
    }
    let body = trim_chars(trim_start_matches_chars(line, h2.as_slice()).as_slice());
    let yanked = contains_chars(body.as_slice(), mark.as_slice());
    let b = trim_chars(remove_all_chars(body.as_slice(), mark.as_slice()).as_slice());
    let lowered = to_lowercase_chars(b.as_slice());
    assert(lowered@ == lowercase(b@));
    release_from_heading(b.as_slice(), yanked, lowered.as_slice())
}

impl Changelog {
    /// Reads a changelog text: the lines before the first `## ` heading
    /// make the preamble, each `## ` heading opens a release, `### ` lines
    /// choose the section and `- ` lines add items to it.
    pub fn parse(src: &str) -> (cl: Changelog)
        ensures
            cl@ == parse_text(src@),
    {
        let chars = to_chars(src);
        let ls = lines_chars(chars.as_slice());
        let ghost all = lines(src@);
        let h2 = to_chars("## ");
        let h3 = to_chars("### ");
        let dash = to_chars("- ");
        proof {
            reveal_strlit("## ");
            reveal_strlit("### ");
            reveal_strlit("- ");
        }
        let mut preamble_lines: Vec<Vec<char>> = Vec::new();
        let mut releases: Vec<Release> = Vec::new();
        let mut current: Option<Release> = None;
        let mut cur_section: Option<Section> = None;
        let mut in_preamble = true;
        let mut i: usize = 0;
        assert(all.take(0) =~= Seq::<Seq<char>>::empty());
        while i < ls.len()
            invariant
                i <= ls@.len(),
                chars_lines_view(ls@) == all,
                h2@ == "## "@,
                h3@ == "### "@,
                dash@ == "- "@,
                dash@.len() == 2,
                h3@.len() == 4,
                ({
                    let st = run_lines(all.take(i as int));
                    &&& chars_lines_view(preamble_lines@) == st.preamble
                    &&& releases_view(releases@) == st.releases
                    &&& opt_release_view(current) == st.current
                    &&& cur_section == st.section
                    &&& in_preamble == st.in_preamble
                }),
            decreases ls.len() - i,
        {
            let line = &ls[i];
            let ghost st = run_lines(all.take(i as int));
            assert(all.take(i + 1).drop_last() =~= all.take(i as int));
            assert(all.take(i + 1).last() == line@);
            if starts_with_chars(line.as_slice(), h2.as_slice()) {
                in_preamble = false;
                match current {
                    Some(r) => {
                        releases.push(r);
                    },
                    None => {},
                }
                cur_section = None;
                current = Some(parse_heading(line.as_slice()));
                assert(releases_view(releases@) =~= run_lines(all.take(i + 1)).releases);
            } else if starts_with_chars(line.as_slice(), h3.as_slice()) {
                let name = trim_chars(trim_start_matches_chars(line.as_slice(), h3.as_slice()).as_slice());
                cur_section = section_from_chars(name.as_slice());
            } else if starts_with_chars(line.as_slice(), dash.as_slice()) {
                if current.is_some() && cur_section.is_some() {
                    let mut r = current.unwrap();
                    let s = cur_section.unwrap();
                    let text = to_string(copy_range(line.as_slice(), 2, line.len()).as_slice());
                    assert(line@.skip(2) =~= line@.subrange(2, line@.len() as int));
                    r.push_item(s, text);
                    current = Some(r);
                }
            } else if in_preamble {
                let copy = copy_range(line.as_slice(), 0, line.len());
                assert(copy@ =~= line@);
                preamble_lines.push(copy);
                assert(chars_lines_view(preamble_lines@) =~= st.preamble.push(line@));
            }
            i = i + 1;
        }
        match current {
            Some(r) => {
                releases.push(r);
            },
            None => {},
        }
        assert(all.take(i as int) =~= all);
        let nl = to_chars("\n");
        let preamble = join_chars(&preamble_lines, nl.as_slice());
        let cl = Changelog { preamble: to_string(preamble.as_slice()), releases };
        assert(cl@ =~= parse_text(src@));
        cl
    }
}

// ---------------------------------------------------------------------------
// Rendering
// ---------------------------------------------------------------------------

/// The `## ` heading line of a release, without its line ending.
pub open spec fn heading_line(r: ReleaseView) -> Seq<char> {
    match r.version {
        None => "## [Unreleased]"@,
        Some(v) => "## ["@ + v + "]"@ + match r.date {
            Some(d) => " - "@ + d,
            None => seq![],
        } + if r.yanked {
            " [YANKED]"@
        } else {
            seq![]
        },
    }
}

/// The `- ` lines of some items.
pub open spec fn items_text(items: Seq<Seq<char>>) -> Seq<char>
    decreases items.len(),
{
    if items.len() == 0 {
        seq![]
    } else {
        items_text(items.drop_last()) + "- "@ + items.last() + "\n"@
    }
}

/// The block of section `s`: present when the first entry for `s` holds
/// items.
pub open spec fn section_block(e: Seq<(Section, Seq<Seq<char>>)>, s: Section) -> Seq<char> {
    let i = find_section(sections_of(e), s);
    if i < e.len() && e[i].1.len() > 0 {
        "\n### "@ + section_name(s) + "\n\n"@ + items_text(e[i].1)
    } else {
        seq![]
    }
}

/// The blocks of the sections `secs`, in that order.
pub open spec fn section_blocks(e: Seq<(Section, Seq<Seq<char>>)>, secs: Seq<Section>) -> Seq<char>
    decreases secs.len(),
{
    if secs.len() == 0 {
        seq![]
    } else {
        section_blocks(e, secs.drop_last()) + section_block(e, secs.last())
    }
}

/// The text of one release.
pub open spec fn release_text(r: ReleaseView) -> Seq<char> {
    heading_line(r) + "\n"@ + section_blocks(r.entries, all_sections()) + "\n"@
}

/// The texts of some releases, one after the other.
pub open spec fn releases_text(rs: Seq<ReleaseView>) -> Seq<char>
    decreases rs.len(),
{
    if rs.len() == 0 {
        seq![]
    } else {
        releases_text(rs.drop_last()) + release_text(rs.last())
    }
}

/// The preamble as it is written out: ending with a line ending, then an
/// empty line.
pub open spec fn preamble_text(p: Seq<char>) -> Seq<char> {
    if p.len() > 0 && p.last() == '\n' {
        p.push('\n')
    } else {
        p.push('\n').push('\n')
    }
}

/// The text of a changelog.
pub open spec fn render_text(cl: ChangelogView) -> Seq<char> {
    preamble_text(cl.preamble) + releases_text(cl.releases)
}

/// Appends the text of `r` to `out`.
fn push_release(out: &mut Vec<char>, r: &Release)
    ensures
        final(out)@ == old(out)@ + release_text(r@),
{
    let ghost start = out@;
    match &r.version {
        None => push_str(out, "## [Unreleased]"),
        Some(v) => {
            push_str(out, "## [");
            push_str(out, v.as_str());
            push_str(out, "]");
            match &r.date {
                Some(d) => {
                    push_str(out, " - ");
                    push_str(out, d.as_str());
                },
                None => {},
            }
            if r.yanked {
                push_str(out, " [YANKED]");
            }
        },
    }
    assert(out@ =~= start + heading_line(r@));
    push_str(out, "\n");
    let ghost head = out@;
    let all = Section::all();
    let ghost e = r@.entries;
    let mut k: usize = 0;
    assert(all_sections().take(0) =~= Seq::<Section>::empty());
    while k < all.len()
        invariant
            k <= all@.len(),
            all@ == all_sections(),
            e == r@.entries,
            out@ == head + section_blocks(e, all@.take(k as int)),
        decreases all.len() - k,
    {
        let section = all[k];
        assert(all@.take(k + 1).drop_last() =~= all@.take(k as int));
        let ghost secs = sections_of(e);
        assert(secs.len() == r.entries@.len());
        let mut pos: usize = 0;
        while pos < r.entries.len() && r.entries[pos].0 != section
            invariant
                pos <= r.entries@.len(),
                secs == sections_of(e),
                e == r@.entries,
                secs.len() == r.entries@.len(),
                forall|j: int| 0 <= j < pos ==> secs[j] != section,
            decreases r.entries.len() - pos,
        {
            assert(secs[pos as int] == r.entries@[pos as int].0);
            pos = pos + 1;
        }
        proof {
            if pos < r.entries@.len() {
                assert(secs[pos as int] == r.entries@[pos as int].0);
            }
            lemma_find_section_at(secs, section, pos as int);
        }
        let ghost before = out@;
        if pos < r.entries.len() && r.entries[pos].1.len() > 0 {
            let items = &r.entries[pos].1;
            push_str(out, "\n### ");
            push_str(out, section.as_str());
            push_str(out, "\n\n");
            let ghost mid = out@;
            let ghost iv = items_view(*items);
            assert(iv == e[pos as int].1);
            let mut j: usize = 0;
            assert(iv.take(0) =~= Seq::<Seq<char>>::empty());
            while j < items.len()
                invariant
                    j <= items@.len(),
                    iv == items_view(*items),
                    out@ == mid + items_text(iv.take(j as int)),
                decreases items.len() - j,
            {
                assert(iv.take(j + 1).drop_last() =~= iv.take(j as int));
                push_str(out, "- ");
                push_str(out, items[j].as_str());
                push_str(out, "\n");
                j = j + 1;
                assert(out@ =~= mid + items_text(iv.take(j as int)));
            }
            assert(iv.take(j as int) =~= iv);
            assert(out@ =~= before + section_block(e, section));
        } else {
            assert(section_block(e, section) =~= Seq::<char>::empty());
            assert(out@ =~= before + section_block(e, section));
        }
        k = k + 1;
        assert(out@ =~= head + section_blocks(e, all@.take(k as int)));
    }
    assert(all@.take(k as int) =~= all_sections());
    push_str(out, "\n");
    assert(out@ =~= start + release_text(r@));
}

/// The text of one release: its heading line, the blocks of its non-empty
/// sections in the standard order, and an empty line.
pub fn render_release(r: &Release) -> (s: String)
    ensures
        s@ == release_text(r@),
{
    let mut out: Vec<char> = Vec::new();
    push_release(&mut out, r);
    assert(out@ =~= release_text(r@));
    to_string(out.as_slice())
}

impl Changelog {
    /// The text of the changelog.
    pub fn render(&self) -> (s: String)
        ensures
            s@ == render_text(self@),
    {
        let mut out = to_chars(self.preamble.as_str());
        let n = out.len();
        if !(n > 0 && out[n - 1] == '\n') {
            out.push('\n');
        }
        out.push('\n');
        assert(out@ =~= preamble_text(self@.preamble));
        let ghost head = out@;
        let ghost rs = self@.releases;
        let mut i: usize = 0;
        assert(rs.take(0) =~= Seq::<ReleaseView>::empty());
        while i < self.releases.len()
            invariant
                i <= self.releases@.len(),
                rs == self@.releases,
                out@ == head + releases_text(rs.take(i as int)),
            decreases self.releases.len() - i,
        {
            assert(rs.take(i + 1).drop_last() =~= rs.take(i as int));
            push_release(&mut out, &self.releases[i]);
            i = i + 1;
            assert(out@ =~= head + releases_text(rs.take(i as int)));
        }
        assert(rs.take(i as int) =~= rs);
        to_string(out.as_slice())
    }
}

} // verus!
