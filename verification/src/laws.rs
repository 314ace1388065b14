//! Properties of the library as a whole, each proved over the model that
//! the operations' contracts are stated in.

use vstd::prelude::*;
use crate::changelog::{
    add_item, all_sections, distinct_sections, find_section, heading_fields, latest_version_of,
    lemma_find_section, parse_text, release_is_empty, run_lines, section_from_name,
    section_name, sections_of, unreleased_view, parse_step, start_state, slot_after,
    section_block, section_blocks, release_text, heading_line, with_unreleased_first,
    ChangelogView, ParseState, ReleaseView, Section,
};
use crate::flow::{suggestion, suggestion_defined, bumped, is_semver_like, nothing_to_release_spec, patch_of, with_entry, with_release};
use crate::text::{
    all_digits, decimal, digit_char, digit_value, digits_value, is_digit, is_ws,
    lemma_split_char_nonempty, parse_u32, split_char, lines, starts_with, trim, trim_end, trim_start,
};
use crate::roundtrip::{lemma_split_char_append, not_marker, run_from};
use crate::display::{
    bullet_lines, entry_lines, full_listing, release_listing, releases_listing, summary_entry,
};

verus! {

/// Reading the heading text of a section gives the section back.
pub proof fn law_section_name_roundtrip(s: Section)
    ensures
        section_from_name(section_name(s)) == Some(s),
{
    reveal_strlit("Added");
    reveal_strlit("Changed");
    reveal_strlit("Deprecated");
    reveal_strlit("Removed");
    reveal_strlit("Fixed");
    reveal_strlit("Security");
    assert("Added"@[0] == 'A');
    assert("Changed"@[0] == 'C');
    assert("Deprecated"@[0] == 'D');
    assert("Removed"@[0] == 'R');
    assert("Fixed"@[0] == 'F');
    assert("Security"@[0] == 'S');
    assert("Added"@.len() == 5);
    assert("Changed"@.len() == 7);
    assert("Deprecated"@.len() == 10);
    assert("Removed"@.len() == 7);
    assert("Fixed"@.len() == 5);
    assert("Security"@.len() == 8);
}

/// The standard order lists every section exactly once.
pub proof fn law_all_sections_once(s: Section)
    ensures
        all_sections().len() == 6,
        exists|i: int| 0 <= i < 6 && all_sections()[i] == s,
        forall|i: int, j: int| 0 <= i < j < 6 ==> all_sections()[i] != all_sections()[j],
{
    match s {
        Section::Added => assert(all_sections()[0] == s),
        Section::Changed => assert(all_sections()[1] == s),
        Section::Deprecated => assert(all_sections()[2] == s),
        Section::Removed => assert(all_sections()[3] == s),
        Section::Fixed => assert(all_sections()[4] == s),
        Section::Security => assert(all_sections()[5] == s),
    }
}

/// The entries of a release name each section at most once, and none is
/// empty.
pub open spec fn tidy_entries(e: Seq<(Section, Seq<Seq<char>>)>) -> bool {
    &&& distinct_sections(e)
    &&& forall|i: int| 0 <= i < e.len() ==> (#[trigger] e[i]).1.len() > 0
}

/// Adding an item keeps the entries tidy, and the item ends the entry of
/// its section.
pub proof fn law_add_item_tidy(r: ReleaseView, s: Section, item: Seq<char>)
    requires
        tidy_entries(r.entries),
    ensures
        tidy_entries(add_item(r, s, item).entries),
        ({
            let e = add_item(r, s, item).entries;
            let k = find_section(sections_of(e), s);
            &&& k < e.len()
            &&& e[k].1.last() == item
            &&& e[k].1.len() >= 1
        }),
        add_item(r, s, item).version == r.version,
        add_item(r, s, item).date == r.date,
        add_item(r, s, item).yanked == r.yanked,
{
    let secs = sections_of(r.entries);
    lemma_find_section(secs, s);
    let i = find_section(secs, s);
    let e = add_item(r, s, item).entries;
    if i < r.entries.len() {
        assert(secs[i] == r.entries[i].0);
        assert forall|a: int, b: int| 0 <= a < b < e.len() implies (#[trigger] e[a]).0 != (
        #[trigger] e[b]).0 by {
            assert(r.entries[a].0 != r.entries[b].0);
        }
        assert(sections_of(e) =~= secs);
    } else {
        assert forall|a: int, b: int| 0 <= a < b < e.len() implies (#[trigger] e[a]).0 != (
        #[trigger] e[b]).0 by {
            if b == r.entries.len() {
                assert(secs[a] == r.entries[a].0);
            } else {
                assert(r.entries[a].0 != r.entries[b].0);
            }
        }
        assert forall|j: int| 0 <= j < e.len() implies (#[trigger] e[j]).1.len() > 0 by {
            if j < r.entries.len() {
                assert(r.entries[j].1.len() > 0);
            }
        }
        let se = sections_of(e);
        assert forall|j: int| 0 <= j < r.entries.len() implies se[j] != s by {
            assert(se[j] == secs[j]);
        }
        crate::changelog::lemma_find_section_at(se, s, r.entries.len() as int);
    }
}

/// Every state the parser passes through holds tidy releases.
pub open spec fn tidy_state(st: ParseState) -> bool {
    &&& forall|i: int| 0 <= i < st.releases.len() ==> tidy_entries(#[trigger] st.releases[i].entries)
    &&& st.current matches Some(r) ==> tidy_entries(r.entries)
}

proof fn lemma_run_lines_tidy(ls: Seq<Seq<char>>)
    ensures
        tidy_state(run_lines(ls)),
    decreases ls.len(),
{
    if ls.len() > 0 {
        lemma_run_lines_tidy(ls.drop_last());
        let st = run_lines(ls.drop_last());
        let line = ls.last();
        let b = crate::changelog::heading_text_without_mark(line);
        let h = heading_fields(
            b,
            crate::text::contains(crate::changelog::heading_body(line), "[YANKED]"@),
            crate::text::lowercase(b),
        );
        assert(h.entries =~= Seq::<(Section, Seq<Seq<char>>)>::empty());
        match (st.current, st.section) {
            (Some(r), Some(s)) => {
                law_add_item_tidy(r, s, line.skip("- "@.len() as int));
            },
            _ => {},
        }
    }
}

/// Every release that parsing yields names each section at most once and
/// has no empty entry.
pub proof fn law_parse_tidy(src: Seq<char>)
    ensures
        forall|i: int|
            0 <= i < parse_text(src).releases.len() ==> tidy_entries(
                #[trigger] parse_text(src).releases[i].entries,
            ),
{
    lemma_run_lines_tidy(crate::text::lines(src));
}

/// Putting the unreleased block in front leaves a changelog that starts
/// with one, and doing it again changes nothing.
pub proof fn law_unreleased_first(rs: Seq<ReleaseView>)
    ensures
        with_unreleased_first(rs).len() >= 1,
        with_unreleased_first(rs)[0].version is None,
        with_unreleased_first(with_unreleased_first(rs)) == with_unreleased_first(rs),
{
}

/// After an entry is recorded there is something to release, and the
/// entry ends the list of its section in the unreleased block.
pub proof fn law_entry_enables_release(cl: ChangelogView, s: Section, item: Seq<char>)
    requires
        forall|i: int|
            0 <= i < cl.releases.len() ==> tidy_entries(#[trigger] cl.releases[i].entries),
    ensures
        !nothing_to_release_spec(with_entry(cl, s, item)),
        with_entry(cl, s, item).releases[0].version is None,
        latest_version_of(with_entry(cl, s, item).releases) == latest_version_of(cl.releases),
        ({
            let e = with_entry(cl, s, item).releases[0].entries;
            let k = find_section(sections_of(e), s);
            k < e.len() && e[k].1.last() == item
        }),
{
    let mid = with_unreleased_first(cl.releases);
    assert(tidy_entries(mid[0].entries)) by {
        if !(cl.releases.len() > 0 && cl.releases[0].version is None) {
            assert(mid[0] == unreleased_view());
        }
    }
    law_add_item_tidy(mid[0], s, item);
    let after = add_item(mid[0], s, item);
    let k = find_section(sections_of(after.entries), s);
    assert(after.entries[k].1.len() > 0);
    let res = with_entry(cl, s, item).releases;
    assert(res[0] == after);
    assert(res.drop_first() =~= mid.drop_first());
    assert(latest_version_of(res) == latest_version_of(mid));
    if !(cl.releases.len() > 0 && cl.releases[0].version is None) {
        assert(mid.drop_first() =~= cl.releases);
    }
}

/// After a release is cut, the changelog starts with an empty unreleased
/// block followed by the new release, whose version is the latest one,
/// and there is nothing left to release.
pub proof fn law_cut_release(cl: ChangelogView, version: Seq<char>, date: Seq<char>)
    ensures
        with_release(cl, version, date).releases[0] == unreleased_view(),
        with_release(cl, version, date).releases[1].version == Some(version),
        with_release(cl, version, date).releases[1].date == Some(date),
        with_release(cl, version, date).releases[1].entries == with_unreleased_first(
            cl.releases,
        )[0].entries,
        latest_version_of(with_release(cl, version, date).releases) == Some(version),
        nothing_to_release_spec(with_release(cl, version, date)),
        with_release(cl, version, date).preamble == cl.preamble,
{
    let rs = with_release(cl, version, date).releases;
    assert(rs.len() >= 2);
    assert(rs.drop_first()[0] == rs[1]);
    assert(rs.drop_first()[0].version is Some);
    assert(latest_version_of(rs.drop_first()) == Some(version));
    assert(rs[0].version is None);
    assert(release_is_empty(rs[0]));
}

// ---------------------------------------------------------------------------
// Versions
// ---------------------------------------------------------------------------

/// How many white-space characters `s` starts with.
pub open spec fn leading_ws(s: Seq<char>) -> nat
    decreases s.len(),
{
    if s.len() > 0 && is_ws(s[0]) {
        1 + leading_ws(s.drop_first())
    } else {
        0
    }
}

/// How many white-space characters `s` ends with.
pub open spec fn trailing_ws(s: Seq<char>) -> nat
    decreases s.len(),
{
    if s.len() > 0 && is_ws(s.last()) {
        1 + trailing_ws(s.drop_last())
    } else {
        0
    }
}

proof fn lemma_leading_ws(s: Seq<char>)
    ensures
        leading_ws(s) <= s.len(),
        forall|j: int| 0 <= j < leading_ws(s) ==> is_ws(#[trigger] s[j]),
        trim_start(s) == s.skip(leading_ws(s) as int),
    decreases s.len(),
{
    if s.len() > 0 && is_ws(s[0]) {
        let t = s.drop_first();
        lemma_leading_ws(t);
        assert forall|j: int| 0 <= j < leading_ws(s) implies is_ws(#[trigger] s[j]) by {
            if j > 0 {
                assert(s[j] == t[j - 1]);
            }
        }
        assert(t.skip(leading_ws(t) as int) =~= s.skip(leading_ws(s) as int));
    } else {
        assert(s.skip(0) =~= s);
    }
}

proof fn lemma_trailing_ws(s: Seq<char>)
    ensures
        trailing_ws(s) <= s.len(),
        forall|j: int| s.len() - trailing_ws(s) <= j < s.len() ==> is_ws(#[trigger] s[j]),
        trim_end(s) == s.take(s.len() - trailing_ws(s)),
    decreases s.len(),
{
    if s.len() > 0 && is_ws(s.last()) {
        let t = s.drop_last();
        lemma_trailing_ws(t);
        assert forall|j: int| s.len() - trailing_ws(s) <= j < s.len() implies is_ws(#[trigger] s[j]) by {
            if j < s.len() - 1 {
                assert(s[j] == t[j]);
            }
        }
        assert(t.take(t.len() - trailing_ws(t)) =~= s.take(s.len() - trailing_ws(s)));
    } else {
        assert(s.take(s.len() as int) =~= s);
    }
}

/// Putting text without the separator in front extends the first field.
proof fn lemma_split_char_prepend(a: Seq<char>, b: Seq<char>, c: char)
    requires
        !a.contains(c),
    ensures
        split_char(a + b, c) == split_char(b, c).update(0, a + split_char(b, c)[0]),
    decreases b.len(),
{
    lemma_split_char_nonempty(b, c);
    if b.len() == 0 {
        assert(a + b =~= a);
        crate::roundtrip::lemma_split_char_single(a, c);
        assert(split_char(b, c) =~= seq![Seq::<char>::empty()]);
        assert(split_char(b, c).update(0, a + split_char(b, c)[0]) =~= seq![a]);
    } else {
        let b1 = b.drop_last();
        lemma_split_char_prepend(a, b1, c);
        lemma_split_char_nonempty(b1, c);
        assert((a + b).drop_last() =~= a + b1);
        assert((a + b).last() == b.last());
        let prev = split_char(b1, c);
        if b.last() == c {
            assert(split_char(a + b, c) =~= split_char(b, c).update(0, a + split_char(b, c)[0]));
        } else {
            if prev.len() == 1 {
                assert((a + prev[0]).push(b.last()) =~= a + prev[0].push(b.last()));
            }
            assert(split_char(a + b, c) =~= split_char(b, c).update(0, a + split_char(b, c)[0]));
        }
    }
}

proof fn lemma_ws_no_dot(s: Seq<char>)
    requires
        forall|j: int| 0 <= j < s.len() ==> is_ws(#[trigger] s[j]),
    ensures
        !s.contains('.'),
        forall|j: int| 0 <= j < s.len() ==> !is_digit(#[trigger] s[j]) && s[j] != '+',
{
    assert forall|j: int| 0 <= j < s.len() implies !is_digit(#[trigger] s[j]) && s[j] != '+' by {
        assert(is_ws(s[j]));
    }
    if s.contains('.') {
        let k = choose|k: int| 0 <= k < s.len() && s[k] == '.';
        assert(is_ws(s[k]));
    }
}

proof fn lemma_digit_char(d: nat)
    requires
        d < 10,
    ensures
        digit_value(digit_char(d)) == d,
        is_digit(digit_char(d)),
{
}

proof fn lemma_digits_value_decimal(n: nat)
    ensures
        decimal(n).len() > 0,
        all_digits(decimal(n)),
        digits_value(decimal(n)) == n,
    decreases n,
{
    lemma_digit_char(n % 10);
    if n < 10 {
        let d = decimal(n);
        assert(d =~= seq![digit_char(n)]);
        assert(d.drop_last() =~= Seq::<char>::empty());
        assert(digits_value(d) == digits_value(d.drop_last()) * 10 + digit_value(d.last()));
    }
    if n >= 10 {
        lemma_digits_value_decimal(n / 10);
        let d = decimal(n);
        assert(d.drop_last() == decimal(n / 10));
        assert(d.last() == digit_char(n % 10));
        assert forall|i: int| 0 <= i < d.len() implies is_digit(#[trigger] d[i]) by {
            if i < d.len() - 1 {
                assert(d[i] == decimal(n / 10)[i]);
            }
        }
        assert(digits_value(d) == digits_value(decimal(n / 10)) * 10 + digit_value(digit_char(n % 10)));
        assert((n / 10) * 10 + n % 10 == n);
    }
}

/// The decimal form of a `u32` parses back to it.
proof fn lemma_parse_decimal(n: nat)
    requires
        n <= u32::MAX,
    ensures
        parse_u32(decimal(n)) == Some(n as u32),
        !decimal(n).contains('.'),
        !is_ws(decimal(n)[0]),
        !is_ws(decimal(n).last()),
{
    lemma_digits_value_decimal(n);
    let d = decimal(n);
    assert(is_digit(d[0]));
    assert(is_digit(d[d.len() - 1]));
    if d.contains('.') {
        let k = choose|k: int| 0 <= k < d.len() && d[k] == '.';
        assert(is_digit(d[k]));
    }
}

/// A field that parses as a `u32` starts with `+` or a digit and ends with a
/// digit.
proof fn lemma_parsed_field(f: Seq<char>)
    requires
        parse_u32(f) is Some,
    ensures
        f.len() > 0,
        !is_ws(f[0]),
        is_digit(f.last()),
        !f.contains('.'),
{
    let d = if f.len() > 0 && f[0] == '+' {
        f.drop_first()
    } else {
        f
    };
    assert(d.len() > 0 && all_digits(d));
    assert(is_digit(d[d.len() - 1]));
    assert(d.last() == f.last());
    if f[0] != '+' {
        assert(is_digit(d[0]));
    }
    if f.contains('.') {
        let k = choose|k: int| 0 <= k < f.len() && f[k] == '.';
        if f[0] == '+' {
            assert(k > 0);
            assert(is_digit(d[k - 1]));
        } else {
            assert(is_digit(d[k]));
        }
    }
}

/// Three fields joined by dots split back into them.
proof fn lemma_split_three(a: Seq<char>, b: Seq<char>, c: Seq<char>)
    requires
        !a.contains('.'),
        !b.contains('.'),
        !c.contains('.'),
    ensures
        split_char(a + "."@ + b + "."@ + c, '.') == seq![a, b, c],
{
    reveal_strlit(".");
    assert("."@ =~= seq!['.']);
    crate::roundtrip::lemma_split_char_single(a, '.');
    crate::roundtrip::lemma_split_char_sep(a, '.');
    assert(a + "."@ =~= a.push('.'));
    crate::roundtrip::lemma_split_char_append(a.push('.'), b, '.');
    assert(split_char(a + "."@ + b, '.') =~= seq![a, b]);
    crate::roundtrip::lemma_split_char_sep(a + "."@ + b, '.');
    assert(a + "."@ + b + "."@ =~= (a + "."@ + b).push('.'));
    crate::roundtrip::lemma_split_char_append((a + "."@ + b).push('.'), c, '.');
    assert(split_char(a + "."@ + b + "."@ + c, '.') =~= seq![a, b, c]);
}

/// Raising the patch number of a semantic version gives a semantic version
/// whose patch number is one higher.
pub proof fn law_bump_keeps_semver(v: Seq<char>)
    requires
        is_semver_like(v),
        patch_of(v) is Some,
        patch_of(v) != Some(u32::MAX),
    ensures
        bumped(v) is Some,
        is_semver_like(bumped(v)->0),
        patch_of(bumped(v)->0) == Some((patch_of(v)->0 + 1) as u32),
{
    let k = leading_ws(v);
    lemma_leading_ws(v);
    let s1 = v.skip(k as int);
    let tr = trailing_ws(s1);
    lemma_trailing_ws(s1);
    let t = s1.take(s1.len() - tr);
    let lead = v.take(k as int);
    let tail = s1.skip(s1.len() - tr);
    assert(trim(v) == t);
    assert forall|j: int| 0 <= j < lead.len() implies is_ws(#[trigger] lead[j]) by {
        assert(lead[j] == v[j]);
    }
    assert forall|j: int| 0 <= j < tail.len() implies is_ws(#[trigger] tail[j]) by {
        assert(tail[j] == s1[j + s1.len() - tr]);
    }
    lemma_ws_no_dot(lead);
    lemma_ws_no_dot(tail);
    assert(v =~= lead + (t + tail));
    let q = split_char(t, '.');
    assert(q.len() == 3);
    lemma_split_char_append(t, tail, '.');
    lemma_split_char_prepend(lead, t + tail, '.');
    let pv = split_char(v, '.');
    assert(pv =~= seq![lead + q[0], q[1], q[2] + tail]);
    assert(parse_u32(q[0]) is Some && parse_u32(q[1]) is Some && parse_u32(q[2]) is Some) by {
        assert(parse_u32(q[0]) is Some);
        assert(parse_u32(q[1]) is Some);
        assert(parse_u32(q[2]) is Some);
    }
    lemma_parsed_field(q[0]);
    lemma_parsed_field(q[1]);
    lemma_parsed_field(pv[2]);
    assert(tail.len() == 0) by {
        if tail.len() > 0 {
            assert(pv[2].last() == tail.last());
            assert(is_ws(tail[tail.len() - 1]));
        }
    }
    assert(pv[2] =~= q[2]);
    let n = patch_of(v)->0;
    let dec = decimal(n as nat + 1);
    lemma_parse_decimal(n as nat + 1);
    let u = q[0] + "."@ + q[1] + "."@ + dec;
    let w = pv[0] + "."@ + pv[1] + "."@ + dec;
    assert(bumped(v) == Some(w));
    assert(w =~= lead + u);
    lemma_split_three(q[0], q[1], dec);
    reveal_strlit(".");
    assert(u[0] == q[0][0]);
    assert(u.last() == dec.last());
    assert(forall|j: int| 0 <= j < lead.len() ==> is_ws(#[trigger] w[j])) by {
        assert forall|j: int| 0 <= j < lead.len() implies is_ws(#[trigger] w[j]) by {
            assert(w[j] == lead[j]);
        }
    }
    assert(w[lead.len() as int] == u[0]);
    crate::text::lemma_trim_start_skip(w, lead.len() as int);
    assert(w.skip(lead.len() as int) =~= u);
    crate::roundtrip::lemma_trim_id(u);
    assert(trim(w) == trim_end(u));
    assert(trim(w) == u);
    lemma_split_char_prepend(lead, u, '.');
    assert(split_char(w, '.') =~= seq![lead + q[0], q[1], dec]);
}

/// The version suggested for a new release is a semantic version whenever
/// the latest version is one.
pub proof fn law_suggestion_semver(rs: Seq<ReleaseView>)
    requires
        suggestion_defined(rs),
        latest_version_of(rs) matches Some(v) ==> is_semver_like(v),
    ensures
        is_semver_like(suggestion(rs)),
{
    let fallback = "0.1.0"@;
    reveal_strlit("0.1.0");
    reveal_strlit(".");
    let zero = seq!['0'];
    let one = seq!['1'];
    assert(fallback =~= zero + "."@ + one + "."@ + zero);
    lemma_parse_decimal(0);
    lemma_parse_decimal(1);
    assert(decimal(0) =~= zero);
    assert(decimal(1) =~= one);
    lemma_split_three(zero, one, zero);
    crate::roundtrip::lemma_trim_id(fallback);
    assert(is_semver_like(fallback)) by {
        let parts = split_char(trim(fallback), '.');
        assert(parts =~= seq![zero, one, zero]);
        assert forall|i: int| 0 <= i < 3 implies (#[trigger] parse_u32(parts[i])) is Some by {
            if i == 1 {
                assert(parts[i] == one);
            } else {
                assert(parts[i] == zero);
            }
        }
    }
    match latest_version_of(rs) {
        Some(v) => {
            if patch_of(v) is Some {
                law_bump_keeps_semver(v);
            }
        },
        None => {},
    }
}

// ---------------------------------------------------------------------------
// Entries, parsing and rendering
// ---------------------------------------------------------------------------

/// No section occurs twice.
pub open spec fn distinct(secs: Seq<Section>) -> bool {
    forall|i: int, j: int| 0 <= i < j < secs.len() ==> secs[i] != secs[j]
}

/// Whatever is written through the list that `Release::get_section_mut`
/// hands out (its final value `v`), entries with distinct sections keep
/// distinct sections, exactly one entry has section `s`, the other entries
/// stay as they were, and at most one entry is added.
pub proof fn law_section_slot<T>(e: Seq<(Section, T)>, s: Section, v: T)
    requires
        distinct(sections_of(e)),
    ensures
        distinct(sections_of(slot_after(e, s, v))),
        exists|j: int| 0 <= j < slot_after(e, s, v).len() && slot_after(e, s, v)[j] == (s, v),
        forall|j: int, k: int|
            0 <= j < k < slot_after(e, s, v).len() ==> !(slot_after(e, s, v)[j].0 == s
                && slot_after(e, s, v)[k].0 == s),
        forall|j: int| 0 <= j < e.len() && e[j].0 != s ==> slot_after(e, s, v)[j] == e[j],
        e.len() <= slot_after(e, s, v).len() <= e.len() + 1,
{
    let secs = sections_of(e);
    lemma_find_section(secs, s);
    let i = find_section(secs, s);
    let out = slot_after(e, s, v);
    let so = sections_of(out);
    if i < e.len() {
        assert(secs[i] == e[i].0);
        assert(so =~= secs);
        assert(out[i] == (s, v));
        assert forall|j: int, k: int| 0 <= j < k < out.len() implies !(out[j].0 == s && out[k].0
            == s) by {
            assert(out[j].0 == so[j] && out[k].0 == so[k]);
        }
        assert forall|j: int| 0 <= j < e.len() && e[j].0 != s implies out[j] == e[j] by {
            assert(secs[j] == e[j].0);
        }
    } else {
        assert forall|a: int, b: int| 0 <= a < b < so.len() implies so[a] != so[b] by {
            assert(so[a] == secs[a]);
            if b < e.len() {
                assert(so[b] == secs[b]);
            } else {
                assert(so[b] == s);
            }
        }
        assert(out[e.len() as int] == (s, v));
        assert forall|j: int, k: int| 0 <= j < k < out.len() implies !(out[j].0 == s && out[k].0
            == s) by {
            if k < e.len() {
                assert(so[j] == secs[j] && so[k] == secs[k]);
            } else {
                assert(out[j].0 == secs[j]);
            }
        }
    }
}

proof fn lemma_step_keeps_body(st: ParseState, l: Seq<char>)
    requires
        !st.in_preamble,
    ensures
        !parse_step(st, l).in_preamble,
{
}

proof fn lemma_after_heading(st: ParseState, a: Seq<Seq<char>>, j: int)
    requires
        0 <= j < a.len(),
        starts_with(a[j], "## "@),
    ensures
        !run_from(st, a).in_preamble,
    decreases a.len(),
{
    if j < a.len() - 1 {
        assert(a.drop_last()[j] == a[j]);
        lemma_after_heading(st, a.drop_last(), j);
        lemma_step_keeps_body(run_from(st, a.drop_last()), a.last());
    } else {
        assert(a.last() == a[j]);
    }
}

/// A line that is neither a heading, a section nor an item changes nothing
/// once a release heading has been read.
pub proof fn law_parse_ignores_plain_lines(src: Seq<char>, src2: Seq<char>, k: int, x: Seq<char>)
    requires
        0 <= k <= lines(src).len(),
        lines(src2) == lines(src).insert(k, x),
        exists|j: int| 0 <= j < k && starts_with(#[trigger] lines(src)[j], "## "@),
        not_marker(x),
    ensures
        parse_text(src2) == parse_text(src),
{
    let ls = lines(src);
    let a = ls.take(k);
    let b = ls.skip(k);
    let j = choose|j: int| 0 <= j < k && starts_with(#[trigger] lines(src)[j], "## "@);
    assert(a[j] == ls[j]);
    crate::roundtrip::lemma_run_lines_from(ls);
    crate::roundtrip::lemma_run_lines_from(lines(src2));
    assert(ls =~= a + b);
    assert(lines(src2) =~= (a + seq![x]) + b);
    crate::roundtrip::lemma_run_from_concat(start_state(), a, b);
    crate::roundtrip::lemma_run_from_concat(start_state(), a + seq![x], b);
    crate::roundtrip::lemma_run_from_concat(start_state(), a, seq![x]);
    lemma_after_heading(start_state(), a, j);
    let st = run_from(start_state(), a);
    assert(seq![x].drop_last() =~= Seq::<Seq<char>>::empty());
    assert(run_from(st, seq![x].drop_last()) == st);
    assert(seq![x].last() == x);
    assert(run_from(st, seq![x]) == parse_step(st, x));
    assert(parse_step(st, x) == st);
}

/// The section blocks of two entry lists agree when each holds the
/// non-empty entries of the other and neither names a section twice.
proof fn lemma_same_block(e: Seq<(Section, Seq<Seq<char>>)>, e2: Seq<(Section, Seq<Seq<char>>)>, s: Section)
    requires
        distinct(sections_of(e)),
        distinct(sections_of(e2)),
        forall|j: int| 0 <= j < e2.len() && e2[j].1.len() > 0 ==> e.contains(#[trigger] e2[j]),
        forall|j: int| 0 <= j < e.len() && e[j].1.len() > 0 ==> e2.contains(#[trigger] e[j]),
    ensures
        section_block(e2, s) == section_block(e, s),
{
    let se = sections_of(e);
    let se2 = sections_of(e2);
    lemma_find_section(se, s);
    lemma_find_section(se2, s);
    let i = find_section(se, s);
    let i2 = find_section(se2, s);
    if i < e.len() && e[i].1.len() > 0 {
        assert(se[i] == e[i].0);
        assert(e2.contains(e[i]));
        let m = choose|m: int| 0 <= m < e2.len() && e2[m] == e[i];
        assert(se2[m] == s);
        assert(i2 == m) by {
            if i2 < m {
                assert(se2[i2] == s);
            }
        }
    } else if i2 < e2.len() && e2[i2].1.len() > 0 {
        assert(se2[i2] == e2[i2].0);
        assert(e.contains(e2[i2]));
        let m = choose|m: int| 0 <= m < e.len() && e[m] == e2[i2];
        assert(se[m] == s);
        assert(i <= m);
        assert(i == m) by {
            if i < m {
                assert(se[i] == s);
            }
        }
    }
}

proof fn lemma_same_blocks(e: Seq<(Section, Seq<Seq<char>>)>, e2: Seq<(Section, Seq<Seq<char>>)>, secs: Seq<Section>)
    requires
        distinct(sections_of(e)),
        distinct(sections_of(e2)),
        forall|j: int| 0 <= j < e2.len() && e2[j].1.len() > 0 ==> e.contains(#[trigger] e2[j]),
        forall|j: int| 0 <= j < e.len() && e[j].1.len() > 0 ==> e2.contains(#[trigger] e[j]),
    ensures
        section_blocks(e2, secs) == section_blocks(e, secs),
    decreases secs.len(),
{
    if secs.len() > 0 {
        lemma_same_blocks(e, e2, secs.drop_last());
        lemma_same_block(e, e2, secs.last());
    }
}

/// The text of a release does not depend on the order of its entries, nor
/// on entries without items: two releases with the same heading whose
/// entries name each section at most once and hold the same non-empty
/// entries have the same text.
pub proof fn law_release_text_order(r: ReleaseView, r2: ReleaseView)
    requires
        r2.version == r.version,
        r2.date == r.date,
        r2.yanked == r.yanked,
        distinct(sections_of(r.entries)),
        distinct(sections_of(r2.entries)),
        forall|j: int|
            0 <= j < r2.entries.len() && r2.entries[j].1.len() > 0 ==> r.entries.contains(
                #[trigger] r2.entries[j],
            ),
        forall|j: int|
            0 <= j < r.entries.len() && r.entries[j].1.len() > 0 ==> r2.entries.contains(
                #[trigger] r.entries[j],
            ),
    ensures
        release_text(r2) == release_text(r),
{
    lemma_same_blocks(r.entries, r2.entries, all_sections());
    assert(heading_line(r2) == heading_line(r));
}

// ---------------------------------------------------------------------------
// What the operations are for
// ---------------------------------------------------------------------------

/// After a `### ` line that names no known section, the `- ` lines that
/// follow are filed nowhere: the parse is the same as without all of them,
/// whatever section was current before.
pub proof fn law_unknown_section_files_nothing(
    src: Seq<char>,
    src2: Seq<char>,
    h: Seq<char>,
    items: Seq<Seq<char>>,
)
    requires
        starts_with(h, "### "@),
        section_from_name(trim(crate::text::trim_start_matches(h, "### "@))) is None,
        forall|k: int| 0 <= k < items.len() ==> starts_with(#[trigger] items[k], "- "@),
        lines(src2) == lines(src) + seq![h] + items,
    ensures
        parse_text(src2) == parse_text(src),
{
    crate::roundtrip::lemma_literals();
    let ls = lines(src);
    crate::roundtrip::lemma_run_lines_from(ls);
    crate::roundtrip::lemma_run_lines_from(lines(src2));
    crate::roundtrip::lemma_run_from_concat(start_state(), ls + seq![h], items);
    crate::roundtrip::lemma_run_from_concat(start_state(), ls, seq![h]);
    let st = run_from(start_state(), ls);
    assert(seq![h].drop_last() =~= Seq::<Seq<char>>::empty());
    assert(seq![h].last() == h);
    assert(run_from(st, seq![h].drop_last()) == st);
    assert(!starts_with(h, "## "@)) by {
        assert(h.take(4) =~= "### "@);
        if starts_with(h, "## "@) {
            assert(h.take(3)[2] == h.take(4)[2]);
        }
    }
    let st1 = ParseState { section: None, ..st };
    assert(run_from(st, seq![h]) == st1);
    lemma_dash_lines_without_section(st1, items);
    assert(crate::changelog::finish(st1) == crate::changelog::finish(st));
}

proof fn lemma_dash_lines_without_section(st: ParseState, items: Seq<Seq<char>>)
    requires
        st.section is None,
        forall|k: int| 0 <= k < items.len() ==> starts_with(#[trigger] items[k], "- "@),
    ensures
        run_from(st, items) == st,
    decreases items.len(),
{
    crate::roundtrip::lemma_literals();
    if items.len() > 0 {
        let i1 = items.drop_last();
        assert forall|k: int| 0 <= k < i1.len() implies starts_with(#[trigger] i1[k], "- "@) by {
            assert(i1[k] == items[k]);
        }
        lemma_dash_lines_without_section(st, i1);
        let l = items.last();
        assert(starts_with(items[items.len() - 1], "- "@));
        assert(l.take(2) =~= "- "@);
        assert(l[0] == '-') by {
            assert(l.take(2)[0] == l[0]);
        }
        assert(!starts_with(l, "## "@)) by {
            if starts_with(l, "## "@) {
                assert(l.take(3)[0] == l[0]);
            }
        }
        assert(!starts_with(l, "### "@)) by {
            if starts_with(l, "### "@) {
                assert(l.take(4)[0] == l[0]);
            }
        }
    }
}

/// The separator `c` splits `a c b c d` into `a`, `b`, `d` when none of them
/// holds it.
proof fn lemma_split_three_with(a: Seq<char>, b: Seq<char>, d: Seq<char>, c: char)
    requires
        !a.contains(c),
        !b.contains(c),
        !d.contains(c),
    ensures
        split_char(a + seq![c] + b + seq![c] + d, c) == seq![a, b, d],
{
    crate::roundtrip::lemma_split_char_single(a, c);
    crate::roundtrip::lemma_split_char_sep(a, c);
    assert(a + seq![c] =~= a.push(c));
    lemma_split_char_append(a.push(c), b, c);
    assert(split_char(a + seq![c] + b, c) =~= seq![a, b]);
    crate::roundtrip::lemma_split_char_sep(a + seq![c] + b, c);
    assert(a + seq![c] + b + seq![c] =~= (a + seq![c] + b).push(c));
    lemma_split_char_append((a + seq![c] + b).push(c), d, c);
    assert(split_char(a + seq![c] + b + seq![c] + d, c) =~= seq![a, b, d]);
}

/// Year, month and day fields of a release date: four, two and two decimal
/// digits.
pub open spec fn date_fields(y: Seq<char>, m: Seq<char>, d: Seq<char>) -> bool {
    &&& y.len() == 4 && all_digits(y)
    &&& m.len() == 2 && all_digits(m)
    &&& d.len() == 2 && all_digits(d)
}

proof fn lemma_digits_no(s: Seq<char>, c: char)
    requires
        all_digits(s),
        !is_digit(c),
    ensures
        !s.contains(c),
{
    if s.contains(c) {
        let k = choose|k: int| 0 <= k < s.len() && s[k] == c;
        assert(is_digit(s[k]));
    }
}

/// A release date is accepted exactly when it is four digits, a dash, two
/// digits, a dash and two digits.
pub proof fn law_release_date_form(s: Seq<char>)
    ensures
        crate::flow::is_release_date(s) <==> exists|y: Seq<char>, m: Seq<char>, d: Seq<char>|
            #[trigger] date_fields(y, m, d) && s == y + seq!['-'] + m + seq!['-'] + d,
{
    if crate::flow::is_release_date(s) {
        let parts = split_char(s, '-');
        crate::roundtrip::lemma_split_char_rejoin(s, '-');
        let p = parts.drop_last();
        assert(p.len() == 2);
        assert(p.drop_last().drop_last() =~= Seq::<Seq<char>>::empty());
        assert(p.drop_last() =~= seq![parts[0]]);
        assert(p.last() == parts[1]);
        assert(p.drop_last().last() == parts[0]);
        assert(crate::roundtrip::text_with(p.drop_last().drop_last(), '-') =~= Seq::<char>::empty());
        assert(crate::roundtrip::text_with(p.drop_last(), '-') =~= parts[0] + seq!['-']);
        assert(crate::roundtrip::text_with(p, '-') =~= parts[0] + seq!['-'] + parts[1] + seq!['-']);
        assert(s =~= parts[0] + seq!['-'] + parts[1] + seq!['-'] + parts[2]);
        assert(all_digits(parts[0]) && all_digits(parts[1]) && all_digits(parts[2])) by {
            assert(all_digits(parts[0]));
            assert(all_digits(parts[1]));
            assert(all_digits(parts[2]));
        }
        assert(date_fields(parts[0], parts[1], parts[2]));
    }
    if exists|y: Seq<char>, m: Seq<char>, d: Seq<char>|
        #[trigger] date_fields(y, m, d) && s == y + seq!['-'] + m + seq!['-'] + d {
        let (y, m, d) = choose|y: Seq<char>, m: Seq<char>, d: Seq<char>|
            #[trigger] date_fields(y, m, d) && s == y + seq!['-'] + m + seq!['-'] + d;
        lemma_digits_no(y, '-');
        lemma_digits_no(m, '-');
        lemma_digits_no(d, '-');
        lemma_split_three_with(y, m, d, '-');
        let parts = split_char(s, '-');
        assert(parts == seq![y, m, d]);
        assert forall|i: int| 0 <= i < 3 implies all_digits(#[trigger] parts[i]) by {
            if i == 0 {
                assert(parts[i] == y);
            } else if i == 1 {
                assert(parts[i] == m);
            } else {
                assert(parts[i] == d);
            }
        }
    }
}

/// The version offered for a new release keeps the first two fields of the
/// latest version as they stand and raises its patch number by one,
/// whatever those fields hold.
pub proof fn law_suggestion_raises_patch(rs: Seq<ReleaseView>, a: Seq<char>, b: Seq<char>, p: Seq<char>)
    requires
        latest_version_of(rs) == Some(a + "."@ + b + "."@ + p),
        !a.contains('.'),
        !b.contains('.'),
        parse_u32(p) is Some,
        parse_u32(p)->0 < u32::MAX,
    ensures
        suggestion(rs) == a + "."@ + b + "."@ + decimal(parse_u32(p)->0 as nat + 1),
{
    lemma_parsed_field(p);
    lemma_split_three(a, b, p);
}

/// With no version in the changelog, or with a latest version that is not
/// three dot-separated fields with a numeric patch, the release is offered
/// as `0.1.0`.
pub proof fn law_suggestion_default(rs: Seq<ReleaseView>)
    ensures
        latest_version_of(rs) is None ==> suggestion(rs) == "0.1.0"@,
        latest_version_of(rs) is Some && (split_char(latest_version_of(rs)->0, '.').len() != 3
            || parse_u32(split_char(latest_version_of(rs)->0, '.')[2]) is None) ==> suggestion(rs)
            == "0.1.0"@,
{
}


/// `x` stands somewhere in `s` as one contiguous piece.
pub open spec fn occurs_in(x: Seq<char>, s: Seq<char>) -> bool {
    exists|p: Seq<char>, q: Seq<char>| #[trigger] p.add(x).add(q) == s
}

proof fn lemma_occurs_whole(x: Seq<char>, p: Seq<char>, q: Seq<char>)
    ensures
        occurs_in(x, p + x + q),
{
    assert(p.add(x).add(q) == p + x + q);
}

proof fn lemma_occurs_widen(x: Seq<char>, s: Seq<char>, a: Seq<char>, b: Seq<char>)
    requires
        occurs_in(x, s),
    ensures
        occurs_in(x, a + s + b),
{
    let (p, q) = choose|p: Seq<char>, q: Seq<char>| #[trigger] p.add(x).add(q) == s;
    assert((a + p).add(x).add(q + b) =~= a + s + b);
}

/// The bullet line of one item in a listing.
pub open spec fn bullet(item: Seq<char>) -> Seq<char> {
    "      \u{2022} "@ + item + "\n"@
}

proof fn lemma_bullet_in_lines(items: Seq<Seq<char>>, k: int)
    requires
        0 <= k < items.len(),
    ensures
        occurs_in(bullet(items[k]), bullet_lines(items)),
    decreases items.len(),
{
    let b = bullet_lines(items.drop_last());
    if k == items.len() - 1 {
        assert(bullet_lines(items) =~= b + bullet(items[k]) + Seq::<char>::empty());
        lemma_occurs_whole(bullet(items[k]), b, Seq::<char>::empty());
    } else {
        lemma_bullet_in_lines(items.drop_last(), k);
        assert(items.drop_last()[k] == items[k]);
        lemma_occurs_widen(bullet(items[k]), b, Seq::<char>::empty(), bullet(items.last()));
        assert(bullet_lines(items) =~= Seq::<char>::empty() + b + bullet(items.last()));
    }
}

/// The block of one non-empty entry in the full listing: its section line
/// and a bullet line for each of its items.
pub open spec fn entry_block(s: Section, items: Seq<Seq<char>>) -> Seq<char> {
    "    \x1b[1;33m"@ + section_name(s) + "\x1b[0m\n"@ + bullet_lines(items)
}

proof fn lemma_block_in_entries(e: Seq<(Section, Seq<Seq<char>>)>, j: int)
    requires
        0 <= j < e.len(),
        e[j].1.len() > 0,
    ensures
        occurs_in(entry_block(e[j].0, e[j].1), entry_lines(e)),
    decreases e.len(),
{
    let a = entry_lines(e.drop_last());
    let x = entry_block(e[j].0, e[j].1);
    if j == e.len() - 1 {
        assert(entry_lines(e) =~= a + x + Seq::<char>::empty());
        lemma_occurs_whole(x, a, Seq::<char>::empty());
    } else {
        lemma_block_in_entries(e.drop_last(), j);
        assert(e.drop_last()[j] == e[j]);
        let rest = entry_lines(e).skip(a.len() as int);
        assert(entry_lines(e) =~= Seq::<char>::empty() + a + rest);
        lemma_occurs_widen(x, a, Seq::<char>::empty(), rest);
    }
}

proof fn lemma_block_in_releases(rs: Seq<ReleaseView>, i: int, j: int)
    requires
        0 <= i < rs.len(),
        0 <= j < rs[i].entries.len(),
        rs[i].entries[j].1.len() > 0,
    ensures
        occurs_in(entry_block(rs[i].entries[j].0, rs[i].entries[j].1), releases_listing(rs)),
    decreases rs.len(),
{
    let x = entry_block(rs[i].entries[j].0, rs[i].entries[j].1);
    let a = releases_listing(rs.drop_last());
    if i == rs.len() - 1 {
        let r = rs[i];
        assert(!release_is_empty(r)) by {
            assert(r.entries[j].1.len() > 0);
        }
        lemma_block_in_entries(r.entries, j);
        let h = "  "@ + crate::display::view_heading(r) + "\n"@;
        lemma_occurs_widen(x, entry_lines(r.entries), h, "\n"@);
        assert(release_listing(r) =~= h + entry_lines(r.entries) + "\n"@);
        lemma_occurs_widen(x, release_listing(r), a, Seq::<char>::empty());
        assert(releases_listing(rs) =~= a + release_listing(r) + Seq::<char>::empty());
    } else {
        lemma_block_in_releases(rs.drop_last(), i, j);
        assert(rs.drop_last()[i] == rs[i]);
        lemma_occurs_widen(x, a, Seq::<char>::empty(), release_listing(rs.last()));
        assert(releases_listing(rs) =~= Seq::<char>::empty() + a + release_listing(rs.last()));
    }
}

/// The full listing shows every non-empty entry of every release whole: its
/// section line followed by a bullet line for each of its items, all of
/// them, in their order; so every item of every release is on a bullet line
/// of the listing.
pub proof fn law_full_listing_shows_every_item(rs: Seq<ReleaseView>, i: int, j: int, k: int)
    requires
        0 <= i < rs.len(),
        0 <= j < rs[i].entries.len(),
        0 <= k < rs[i].entries[j].1.len(),
    ensures
        occurs_in(entry_block(rs[i].entries[j].0, rs[i].entries[j].1), full_listing(rs)),
        occurs_in(bullet(rs[i].entries[j].1[k]), full_listing(rs)),
{
    let e = rs[i].entries[j];
    let x = entry_block(e.0, e.1);
    lemma_block_in_releases(rs, i, j);
    lemma_occurs_widen(x, releases_listing(rs), "\n"@, Seq::<char>::empty());
    assert(full_listing(rs) =~= "\n"@ + releases_listing(rs) + Seq::<char>::empty());
    lemma_bullet_in_lines(e.1, k);
    let h = "    \x1b[1;33m"@ + section_name(e.0) + "\x1b[0m\n"@;
    lemma_occurs_widen(bullet(e.1[k]), bullet_lines(e.1), h, Seq::<char>::empty());
    assert(x =~= h + bullet_lines(e.1) + Seq::<char>::empty());
    let (p, q) = choose|p: Seq<char>, q: Seq<char>| #[trigger] p.add(x).add(q) == full_listing(rs);
    let (p2, q2) = choose|p2: Seq<char>, q2: Seq<char>| #[trigger] p2.add(bullet(e.1[k])).add(q2) == x;
    assert((p + p2).add(bullet(e.1[k])).add(q2 + q) =~= full_listing(rs));
}

/// The first line of an entry in the summary: its section and how many
/// items it holds.
pub open spec fn summary_header(s: Section, n: nat) -> Seq<char> {
    "    "@ + section_name(s) + " ("@ + decimal(n) + ")\n"@
}

/// In the summary an entry of at most three items shows all of them and
/// nothing more; an entry of more than three shows its first three, then a
/// line that says how many it leaves out, at least one. An entry without
/// items is not shown.
pub proof fn law_summary_shows_three(s: Section, items: Seq<Seq<char>>)
    ensures
        items.len() == 0 ==> summary_entry(s, items) == Seq::<char>::empty(),
        0 < items.len() <= 3 ==> summary_entry(s, items) == summary_header(s, items.len())
            + bullet_lines(items),
        items.len() > 3 ==> {
            &&& items.skip(3).len() >= 1
            &&& items.take(3) + items.skip(3) == items
            &&& summary_entry(s, items) == summary_header(s, items.len()) + bullet_lines(
                items.take(3),
            ) + "      ... and "@ + decimal(items.skip(3).len()) + " more\n"@
        },
{
    if 0 < items.len() <= 3 {
        assert(items.take(items.len() as int) =~= items);
    }
    if items.len() > 3 {
        assert(items.take(3) + items.skip(3) =~= items);
    }
}

} // verus!
