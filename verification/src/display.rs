//! The terminal views of a changelog: the full listing and the summary of
//! the unreleased block, as the text that is printed.

use vstd::prelude::*;
use crate::changelog::{release_is_empty, section_name, Changelog, Release, ReleaseView, Section};
use crate::text::{decimal, push_decimal, push_str};

verus! {

/// The coloured heading of a release in the full listing.
pub open spec fn view_heading(r: ReleaseView) -> Seq<char> {
    match r.version {
        None => "\x1b[1;36m[Unreleased]\x1b[0m"@,
        Some(v) => "\x1b[1;34m["@ + v + "]\x1b[0m"@ + match r.date {
            Some(d) => " \u{2014} "@ + d,
            None => seq![],
        } + if r.yanked {
            "  \x1b[31m[YANKED]\x1b[0m"@
        } else {
            seq![]
        },
    }
}

/// One bullet line per item.
pub open spec fn bullet_lines(items: Seq<Seq<char>>) -> Seq<char>
    decreases items.len(),
{
    if items.len() == 0 {
        seq![]
    } else {
        bullet_lines(items.drop_last()) + "      \u{2022} "@ + items.last() + "\n"@
    }
}

/// The non-empty entries of a release, each as its coloured section name
/// and its bullets, in the order in which they are stored.
pub open spec fn entry_lines(e: Seq<(Section, Seq<Seq<char>>)>) -> Seq<char>
    decreases e.len(),
{
    if e.len() == 0 {
        seq![]
    } else {
        entry_lines(e.drop_last()) + if e.last().1.len() == 0 {
            seq![]
        } else {
            "    \x1b[1;33m"@ + section_name(e.last().0) + "\x1b[0m\n"@ + bullet_lines(e.last().1)
        }
    }
}

/// One release in the full listing.
pub open spec fn release_listing(r: ReleaseView) -> Seq<char> {
    "  "@ + view_heading(r) + "\n"@ + if release_is_empty(r) {
        "    (no entries)\n"@
    } else {
        entry_lines(r.entries)
    } + "\n"@
}

/// The releases in the full listing, one after the other.
pub open spec fn releases_listing(rs: Seq<ReleaseView>) -> Seq<char>
    decreases rs.len(),
{
    if rs.len() == 0 {
        seq![]
    } else {
        releases_listing(rs.drop_last()) + release_listing(rs.last())
    }
}

/// The full listing: an empty line, then every release.
pub open spec fn full_listing(rs: Seq<ReleaseView>) -> Seq<char> {
    "\n"@ + releases_listing(rs)
}

/// One non-empty entry in the summary: the section with its count, at most
/// three bullets, and how many more there are.
pub open spec fn summary_entry(s: Section, items: Seq<Seq<char>>) -> Seq<char> {
    if items.len() == 0 {
        seq![]
    } else {
        "    "@ + section_name(s) + " ("@ + decimal(items.len()) + ")\n"@ + bullet_lines(
            items.take(if items.len() < 3 {
                items.len() as int
            } else {
                3
            }),
        ) + if items.len() > 3 {
            "      ... and "@ + decimal((items.len() - 3) as nat) + " more\n"@
        } else {
            seq![]
        }
    }
}

pub open spec fn summary_entries(e: Seq<(Section, Seq<Seq<char>>)>) -> Seq<char>
    decreases e.len(),
{
    if e.len() == 0 {
        seq![]
    } else {
        summary_entries(e.drop_last()) + summary_entry(e.last().0, e.last().1)
    }
}

/// The summary of the unreleased block.
pub open spec fn summary(u: Option<ReleaseView>) -> Seq<char> {
    "  \x1b[1;36m[Unreleased]\x1b[0m\n"@ + match u {
        Some(r) => if release_is_empty(r) {
            "    (empty)\n\n"@
        } else {
            summary_entries(r.entries) + "\n"@
        },
        None => "    (empty)\n\n"@,
    }
}

/// Appends a bullet line for each of the first `n` items.
fn push_bullets(out: &mut Vec<char>, items: &Vec<String>, n: usize)
    requires
        n <= items@.len(),
    ensures
        final(out)@ == old(out)@ + bullet_lines(items@.map_values(|s: String| s@).take(n as int)),
{
    let ghost start = out@;
    let ghost iv = items@.map_values(|s: String| s@);
    let mut j: usize = 0;
    assert(iv.take(0) =~= Seq::<Seq<char>>::empty());
    while j < n
        invariant
            j <= n <= items@.len(),
            iv == items@.map_values(|s: String| s@),
            out@ == start + bullet_lines(iv.take(j as int)),
        decreases n - j,
    {
        assert(iv.take(j + 1).drop_last() =~= iv.take(j as int));
        push_str(out, "      \u{2022} ");
        push_str(out, items[j].as_str());
        push_str(out, "\n");
        j = j + 1;
        assert(out@ =~= start + bullet_lines(iv.take(j as int)));
    }
}

/// Appends the listing of one release.
fn push_listing(out: &mut Vec<char>, r: &Release)
    ensures
        final(out)@ == old(out)@ + release_listing(r@),
{
    let ghost start = out@;
    push_str(out, "  ");
    match &r.version {
        None => push_str(out, "\x1b[1;36m[Unreleased]\x1b[0m"),
        Some(v) => {
            push_str(out, "\x1b[1;34m[");
            push_str(out, v.as_str());
            push_str(out, "]\x1b[0m");
            match &r.date {
                Some(d) => {
                    push_str(out, " \u{2014} ");
                    push_str(out, d.as_str());
                },
                None => {},
            }
            if r.yanked {
                push_str(out, "  \x1b[31m[YANKED]\x1b[0m");
            }
        },
    }
    push_str(out, "\n");
    assert(out@ =~= start + "  "@ + view_heading(r@) + "\n"@);
    let ghost head = out@;
    if r.is_empty() {
        push_str(out, "    (no entries)\n");
    } else {
        let ghost e = r@.entries;
        let mut i: usize = 0;
        assert(e.take(0) =~= Seq::<(Section, Seq<Seq<char>>)>::empty());
        while i < r.entries.len()
            invariant
                i <= r.entries@.len(),
                e == r@.entries,
                out@ == head + entry_lines(e.take(i as int)),
            decreases r.entries.len() - i,
        {
            assert(e.take(i + 1).drop_last() =~= e.take(i as int));
            let items = &r.entries[i].1;
            assert(e[i as int].1 == items@.map_values(|s: String| s@));
            if items.len() > 0 {
                push_str(out, "    \x1b[1;33m");
                push_str(out, r.entries[i].0.as_str());
                push_str(out, "\x1b[0m\n");
                push_bullets(out, items, items.len());
                assert(items@.map_values(|s: String| s@).take(items.len() as int) =~= e[i as int].1);
            }
            i = i + 1;
            assert(out@ =~= head + entry_lines(e.take(i as int)));
        }
        assert(e.take(i as int) =~= e);
    }
    push_str(out, "\n");
    assert(out@ =~= start + release_listing(r@));
}

/// Appends the summary lines of one entry.
fn push_summary_entry(out: &mut Vec<char>, section: Section, items: &Vec<String>)
    ensures
        final(out)@ == old(out)@ + summary_entry(section, items@.map_values(|s: String| s@)),
{
    let ghost before = out@;
    let ghost iv = items@.map_values(|s: String| s@);
    let n = items.len();
    if n > 0 {
        push_str(out, "    ");
        push_str(out, section.as_str());
        push_str(out, " (");
        push_decimal(out, n as u64);
        push_str(out, ")\n");
        let shown: usize = if n < 3 {
            n
        } else {
            3
        };
        push_bullets(out, items, shown);
        if n > 3 {
            push_str(out, "      ... and ");
            push_decimal(out, (n - 3) as u64);
            push_str(out, " more\n");
        }
    }
    assert(out@ =~= before + summary_entry(section, iv));
}

/// The full listing of the changelog, as it is printed.
pub fn full_view(cl: &Changelog) -> (s: String)
    ensures
        s@ == full_listing(cl@.releases),
{
    let mut out: Vec<char> = Vec::new();
    push_str(&mut out, "\n");
    let ghost head = out@;
    let ghost rs = cl@.releases;
    let mut i: usize = 0;
    assert(rs.take(0) =~= Seq::<ReleaseView>::empty());
    while i < cl.releases.len()
        invariant
            i <= cl.releases@.len(),
            rs == cl@.releases,
            out@ == head + releases_listing(rs.take(i as int)),
        decreases cl.releases.len() - i,
    {
        assert(rs.take(i + 1).drop_last() =~= rs.take(i as int));
        push_listing(&mut out, &cl.releases[i]);
        i = i + 1;
        assert(out@ =~= head + releases_listing(rs.take(i as int)));
    }
    assert(rs.take(i as int) =~= rs);
    assert(out@ =~= full_listing(cl@.releases));
    crate::text::to_string(out.as_slice())
}

/// The summary of the unreleased block, as it is printed.
pub fn unreleased_summary(unreleased: Option<&Release>) -> (s: String)
    ensures
        s@ == summary(
            match unreleased {
                Some(r) => Some(r@),
                None => None,
            },
        ),
{
    let mut out: Vec<char> = Vec::new();
    push_str(&mut out, "  \x1b[1;36m[Unreleased]\x1b[0m\n");
    let ghost head = out@;
    match unreleased {
        None => push_str(&mut out, "    (empty)\n\n"),
        Some(r) => {
            if r.is_empty() {
                push_str(&mut out, "    (empty)\n\n");
            } else {
                let ghost e = r@.entries;
                let mut i: usize = 0;
                assert(e.take(0) =~= Seq::<(Section, Seq<Seq<char>>)>::empty());
                while i < r.entries.len()
                    invariant
                        i <= r.entries@.len(),
                        e == r@.entries,
                        out@ == head + summary_entries(e.take(i as int)),
                    decreases r.entries.len() - i,
                {
                    assert(e.take(i + 1).drop_last() =~= e.take(i as int));
                    let ghost before = out@;
                    push_summary_entry(&mut out, r.entries[i].0, &r.entries[i].1);
                    assert(out@ =~= before + summary_entry(e[i as int].0, e[i as int].1));
                    i = i + 1;
                    assert(out@ =~= head + summary_entries(e.take(i as int)));
                }
                assert(e.take(i as int) =~= e);
                push_str(&mut out, "\n");
            }
        },
    }
    crate::text::to_string(out.as_slice())
}

} // verus!
