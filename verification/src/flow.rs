//! The decisions of the interactive session: what a menu choice leads to,
//! how the answers are checked, what version is suggested, and how an
//! entry or a release changes the changelog.

use vstd::prelude::*;
use vstd::utf8::encode_utf8;
use crate::changelog::{
    add_item, release_is_empty, unreleased_view, with_unreleased_first, Changelog,
    ChangelogView, latest_version_of, Release, ReleaseView, Section,
};
use crate::text::{
    all_digits, is_digit, decimal, parse_u32, parse_u32_chars, push_chars, push_decimal,
    push_str, split_char, split_char_exec, to_chars, to_string, trim, trim_chars,
};

verus! {

// ---------------------------------------------------------------------------
// The session loop
// ---------------------------------------------------------------------------

/// What the user can choose in the main menu.
#[derive(Debug, Clone, Copy, PartialEq, Eq, Structural)]
pub enum Action {
    Add,
    Release,
    View,
    Skip,
}

impl Action {
    /// Whether the session ends after this choice has been carried out:
    /// cutting a release and skipping end it, the others return to the menu.
    pub fn ends_session(&self) -> (r: bool)
        ensures
            r == (*self == Action::Release || *self == Action::Skip),
    {
        match self {
            Action::Release => true,
            Action::Skip => true,
            Action::Add => false,
            Action::View => false,
        }
    }
}

// ---------------------------------------------------------------------------
// Versions
// ---------------------------------------------------------------------------

/// Three dot-separated fields after trimming, each a `u32`.
pub open spec fn is_semver_like(s: Seq<char>) -> bool {
    let parts = split_char(trim(s), '.');
    &&& parts.len() == 3
    &&& forall|i: int| 0 <= i < 3 ==> (#[trigger] parse_u32(parts[i])) is Some
}

/// The patch number of `v`, when `v` has three dot-separated fields and the
/// third is a `u32`.
pub open spec fn patch_of(v: Seq<char>) -> Option<u32> {
    let parts = split_char(v, '.');
    if parts.len() == 3 {
        parse_u32(parts[2])
    } else {
        None
    }
}

/// `v` with its patch number one higher; the first two fields are kept as
/// they stand.
pub open spec fn bumped(v: Seq<char>) -> Option<Seq<char>> {
    let parts = split_char(v, '.');
    match patch_of(v) {
        Some(n) => Some(parts[0] + "."@ + parts[1] + "."@ + decimal(n as nat + 1)),
        None => None,
    }
}

/// The version offered for a new release.
pub open spec fn suggestion(rs: Seq<ReleaseView>) -> Seq<char> {
    match latest_version_of(rs) {
        Some(v) => match bumped(v) {
            Some(w) => w,
            None => "0.1.0"@,
        },
        None => "0.1.0"@,
    }
}

/// Whether `s` looks like a semantic version: three dot-separated numbers.
pub fn semver_like(s: &str) -> (r: bool)
    ensures
        r == is_semver_like(s@),
{
    let t = trim_chars(to_chars(s).as_slice());
    let parts = split_char_exec(t.as_slice(), '.');
    let ghost pv = split_char(trim(s@), '.');
    assert(pv.len() == parts@.len());
    if parts.len() != 3 {
        return false;
    }
    let mut i: usize = 0;
    while i < 3
        invariant
            i <= 3,
            parts@.len() == 3,
            pv.len() == 3,
            pv == split_char(trim(s@), '.'),
            forall|j: int| 0 <= j < 3 ==> #[trigger] pv[j] == parts@[j]@,
            forall|j: int| 0 <= j < i ==> (#[trigger] parse_u32(pv[j])) is Some,
        decreases 3 - i,
    {
        assert(pv[i as int] == parts@[i as int]@);
        if parse_u32_chars(parts[i].as_slice()).is_none() {
            assert(parse_u32(pv[i as int]) is None);
            return false;
        }
        i = i + 1;
    }
    true
}

/// `v` with its patch number raised by one, when it has three
/// dot-separated fields and the third is a number.
pub fn bump_patch(v: &str) -> (r: Option<String>)
    requires
        patch_of(v@) != Some(u32::MAX),
    ensures
        match bumped(v@) {
            Some(w) => r matches Some(x) && x@ == w,
            None => r is None,
        },
{
    let chars = to_chars(v);
    let parts = split_char_exec(chars.as_slice(), '.');
    let ghost pv = split_char(v@, '.');
    assert(pv.len() == parts@.len());
    if parts.len() != 3 {
        return None;
    }
    assert(pv[0] == parts@[0]@ && pv[1] == parts@[1]@ && pv[2] == parts@[2]@);
    let patch = match parse_u32_chars(parts[2].as_slice()) {
        Some(n) => n,
        None => {
            return None;
        },
    };
    let mut out: Vec<char> = Vec::new();
    push_chars(&mut out, parts[0].as_slice());
    push_str(&mut out, ".");
    push_chars(&mut out, parts[1].as_slice());
    push_str(&mut out, ".");
    push_decimal(&mut out, (patch + 1) as u64);
    assert(out@ =~= pv[0] + "."@ + pv[1] + "."@ + decimal(patch as nat + 1));
    Some(to_string(out.as_slice()))
}

/// Whether the version suggested for a new release can be computed: a
/// patch number at the top of the `u32` range cannot be raised.
pub open spec fn suggestion_defined(rs: Seq<ReleaseView>) -> bool {
    match latest_version_of(rs) {
        Some(v) => patch_of(v) != Some(u32::MAX),
        None => true,
    }
}

/// Whether the version suggested for a new release can be computed: false
/// when the latest version has three dot-separated fields and its patch
/// number is already the largest `u32`.
pub fn suggestion_available(cl: &Changelog) -> (r: bool)
    ensures
        r == suggestion_defined(cl@.releases),
{
    match cl.latest_version() {
        Some(v) => {
            let chars = to_chars(v);
            let parts = split_char_exec(chars.as_slice(), '.');
            let ghost pv = split_char(v@, '.');
            assert(pv.len() == parts@.len());
            if parts.len() != 3 {
                return true;
            }
            assert(pv[2] == parts@[2]@);
            match parse_u32_chars(parts[2].as_slice()) {
                Some(n) => n != u32::MAX,
                None => true,
            }
        },
        None => true,
    }
}

/// The version offered for a new release: the latest version with its
/// patch number raised, or `0.1.0`.
pub fn suggested_version(cl: &Changelog) -> (r: String)
    requires
        suggestion_defined(cl@.releases),
    ensures
        r@ == suggestion(cl@.releases),
{
    match cl.latest_version() {
        Some(v) => match bump_patch(v) {
            Some(w) => w,
            None => String::from_str("0.1.0"),
        },
        None => String::from_str("0.1.0"),
    }
}

// ---------------------------------------------------------------------------
// Checking answers
// ---------------------------------------------------------------------------

/// `YYYY-MM-DD`: three dash-separated fields of four, two and two decimal
/// digits.
pub open spec fn is_release_date(s: Seq<char>) -> bool {
    let parts = split_char(s, '-');
    &&& parts.len() == 3
    &&& parts[0].len() == 4
    &&& parts[1].len() == 2
    &&& parts[2].len() == 2
    &&& forall|i: int| 0 <= i < 3 ==> all_digits(#[trigger] parts[i])
}

/// Whether `input` is a release date of the form `YYYY-MM-DD`.
pub fn valid_release_date(input: &str) -> (r: bool)
    ensures
        r == is_release_date(input@),
{
    let chars = to_chars(input);
    let parts = split_char_exec(chars.as_slice(), '-');
    let ghost pv = split_char(input@, '-');
    assert(pv.len() == parts@.len());
    if parts.len() != 3 {
        return false;
    }
    assert(pv[0] == parts@[0]@ && pv[1] == parts@[1]@ && pv[2] == parts@[2]@);
    if parts[0].len() != 4 || parts[1].len() != 2 || parts[2].len() != 2 {
        return false;
    }
    let mut i: usize = 0;
    while i < 3
        invariant
            i <= 3,
            parts@.len() == 3,
            pv.len() == 3,
            pv == split_char(input@, '-'),
            pv[0].len() == 4 && pv[1].len() == 2 && pv[2].len() == 2,
            forall|j: int| 0 <= j < 3 ==> #[trigger] pv[j] == parts@[j]@,
            forall|j: int| 0 <= j < i ==> all_digits(#[trigger] pv[j]),
        decreases 3 - i,
    {
        let part = &parts[i];
        assert(pv[i as int] == part@);
        let mut k: usize = 0;
        while k < part.len()
            invariant
                k <= part@.len(),
                i < 3,
                pv.len() == 3,
                pv == split_char(input@, '-'),
                part@ == pv[i as int],
                forall|m: int| 0 <= m < k ==> '0' <= #[trigger] part@[m] <= '9',
            decreases part.len() - k,
        {
            if !('0' <= part[k] && part[k] <= '9') {
                assert(!is_digit(pv[i as int][k as int]));
                assert(!all_digits(pv[i as int]));
                return false;
            }
            k = k + 1;
        }
        i = i + 1;
    }
    true
}

/// The verdict on a change description.
#[derive(Debug, Clone, Copy, PartialEq, Eq, Structural)]
pub enum DescriptionCheck {
    Valid,
    Empty,
    /// Longer than allowed; the length in bytes.
    TooLong(usize),
}

/// The longest description accepted, in bytes.
pub const MAX_DESCRIPTION_BYTES: usize = 280;

/// The verdict on a description: trimmed, it must not be empty and must
/// take at most 280 bytes.
pub open spec fn description_check(s: Seq<char>) -> DescriptionCheck {
    let t = trim(s);
    let n = encode_utf8(t).len() as usize;
    if t.len() == 0 {
        DescriptionCheck::Empty
    } else if n > MAX_DESCRIPTION_BYTES {
        DescriptionCheck::TooLong(n)
    } else {
        DescriptionCheck::Valid
    }
}

/// Checks a change description.
pub fn check_description(input: &str) -> (r: DescriptionCheck)
    ensures
        r == description_check(input@),
{
    let t = to_string(trim_chars(to_chars(input).as_slice()).as_slice());
    let text = t.as_str();
    if text.is_empty() {
        DescriptionCheck::Empty
    } else if text.len() > MAX_DESCRIPTION_BYTES {
        DescriptionCheck::TooLong(text.len())
    } else {
        DescriptionCheck::Valid
    }
}

// ---------------------------------------------------------------------------
// Changing the changelog
// ---------------------------------------------------------------------------

/// Nothing can be released: there is no unreleased block, or it is empty.
pub open spec fn nothing_to_release_spec(cl: ChangelogView) -> bool {
    !(cl.releases.len() > 0 && cl.releases[0].version is None) || release_is_empty(
        cl.releases[0],
    )
}

/// Whether a release would be empty.
pub fn nothing_to_release(cl: &Changelog) -> (r: bool)
    ensures
        r == nothing_to_release_spec(cl@),
{
    match cl.unreleased() {
        Some(r) => r.is_empty(),
        None => true,
    }
}

/// `cl` with `item` added to section `s` of the unreleased block, which is
/// put in front first when there is none.
pub open spec fn with_entry(cl: ChangelogView, s: Section, item: Seq<char>) -> ChangelogView {
    let mid = with_unreleased_first(cl.releases);
    ChangelogView { preamble: cl.preamble, releases: mid.update(0, add_item(mid[0], s, item)) }
}

/// Records a change: the trimmed `entry` goes to `section` of the
/// unreleased block.
pub fn add_entry(cl: &mut Changelog, section: Section, entry: &str)
    ensures
        final(cl)@ == with_entry(old(cl)@, section, trim(entry@)),
{
    let text = to_string(trim_chars(to_chars(entry).as_slice()).as_slice());
    let r = cl.unreleased_mut();
    r.push_item(section, text);
    assert(final(cl)@ =~= with_entry(old(cl)@, section, trim(entry@)));
}

/// `cl` with its unreleased block turned into release `version` of `date`,
/// and a new empty unreleased block in front.
pub open spec fn with_release(cl: ChangelogView, version: Seq<char>, date: Seq<char>) -> ChangelogView {
    let mid = with_unreleased_first(cl.releases);
    let released = ReleaseView { version: Some(version), date: Some(date), ..mid[0] };
    ChangelogView {
        preamble: cl.preamble,
        releases: mid.update(0, released).insert(0, unreleased_view()),
    }
}

/// Cuts a release: the unreleased block gets the trimmed `version` and
/// `date`, and a new empty unreleased block is put in front.
pub fn cut_release(cl: &mut Changelog, version: &str, date: &str)
    ensures
        final(cl)@ == with_release(old(cl)@, trim(version@), trim(date@)),
{
    let v = to_string(trim_chars(to_chars(version).as_slice()).as_slice());
    let d = to_string(trim_chars(to_chars(date).as_slice()).as_slice());
    let r = cl.unreleased_mut();
    r.version = Some(v);
    r.date = Some(d);
    cl.releases.insert(0, Release::unreleased());
    assert(cl@ =~= with_release(old(cl)@, trim(version@), trim(date@)));
}

} // verus!
