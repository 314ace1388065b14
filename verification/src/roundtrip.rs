//! Reading back what was written: parsing the rendered text of a changelog
//! gives the changelog in its normal form.

use vstd::prelude::*;
use crate::changelog::{
    add_item, parse_step, run_lines, start_state, ParseState, unreleased_view, all_sections, find_section, heading_line, items_text, preamble_text, release_text,
    releases_text, render_text, section_block, section_blocks, section_name, sections_of,
    ChangelogView, ReleaseView, Section,
};
use crate::text::{
    before_first, contains, is_ws, second_field, lemma_find_from_found, lemma_find_from_none,
    lemma_split_char_nonempty, lemma_trim_end_take, lemma_trim_start_skip, lines, matches_at,
    remove_all, split_char, starts_with, strip_cr, trim, trim_end, trim_start,
    trim_start_matches, join, lowercase, all_ascii, ascii_lower,
};

verus! {

// ---------------------------------------------------------------------------
// Text made of lines
// ---------------------------------------------------------------------------

/// Each line followed by a line ending.
pub open spec fn text_of_lines(ls: Seq<Seq<char>>) -> Seq<char>
    decreases ls.len(),
{
    if ls.len() == 0 {
        seq![]
    } else {
        text_of_lines(ls.drop_last()) + ls.last() + seq!['\n']
    }
}

/// A line that `str::lines` gives back unchanged: no line ending inside,
/// and no carriage return at its end.
pub open spec fn plain_line(l: Seq<char>) -> bool {
    &&& !l.contains('\n')
    &&& !(l.len() > 0 && l.last() == '\r')
}

pub proof fn lemma_text_of_lines_concat(a: Seq<Seq<char>>, b: Seq<Seq<char>>)
    ensures
        text_of_lines(a + b) == text_of_lines(a) + text_of_lines(b),
    decreases b.len(),
{
    if b.len() == 0 {
        assert(a + b =~= a);
        assert(text_of_lines(a) + text_of_lines(b) =~= text_of_lines(a));
    } else {
        lemma_text_of_lines_concat(a, b.drop_last());
        assert((a + b).drop_last() =~= a + b.drop_last());
        assert((a + b).last() == b.last());
        assert(text_of_lines(a + b) =~= text_of_lines(a) + text_of_lines(b));
    }
}

/// Appending text without the separator extends the last field.
pub proof fn lemma_split_char_append(a: Seq<char>, b: Seq<char>, c: char)
    requires
        !b.contains(c),
    ensures
        split_char(a + b, c) == split_char(a, c).update(
            split_char(a, c).len() - 1,
            split_char(a, c).last() + b,
        ),
        split_char(a + b, c).len() == split_char(a, c).len(),
    decreases b.len(),
{
    lemma_split_char_nonempty(a, c);
    if b.len() == 0 {
        assert(a + b =~= a);
        assert(split_char(a, c).last() + b =~= split_char(a, c).last());
        assert(split_char(a, c).update(split_char(a, c).len() - 1, split_char(a, c).last())
            =~= split_char(a, c));
    } else {
        let b1 = b.drop_last();
        assert(!b1.contains(c)) by {
            if b1.contains(c) {
                let k = choose|k: int| 0 <= k < b1.len() && b1[k] == c;
                assert(b[k] == c);
            }
        }
        lemma_split_char_append(a, b1, c);
        assert((a + b).drop_last() =~= a + b1);
        assert((a + b).last() == b.last());
        assert(b.last() != c) by {
            assert(b[b.len() - 1] == b.last());
        }
        let prev = split_char(a + b1, c);
        lemma_split_char_nonempty(a + b1, c);
        assert(split_char(a + b, c) == prev.update(prev.len() - 1, prev.last().push(b.last())));
        assert((split_char(a, c).last() + b1).push(b.last()) =~= split_char(a, c).last() + b);
        assert(split_char(a + b, c) =~= split_char(a, c).update(
            split_char(a, c).len() - 1,
            split_char(a, c).last() + b,
        ));
    }
}

pub proof fn lemma_split_char_sep(a: Seq<char>, c: char)
    ensures
        split_char(a.push(c), c) == split_char(a, c).push(seq![]),
{
    assert(a.push(c).drop_last() =~= a);
}

/// A field without the separator is split into itself.
pub proof fn lemma_split_char_single(b: Seq<char>, c: char)
    requires
        !b.contains(c),
    ensures
        split_char(b, c) == seq![b],
{
    lemma_split_char_append(seq![], b, c);
    assert(Seq::<char>::empty() + b =~= b);
    assert(Seq::<char>::empty() + b =~= b);
    assert(split_char(seq![], c) =~= seq![Seq::<char>::empty()]);
    assert(split_char(seq![], c).update(0, Seq::<char>::empty() + b) =~= seq![b]);
}

/// The fields of a split never hold the separator.
pub proof fn lemma_split_char_fields(s: Seq<char>, c: char)
    ensures
        forall|i: int| 0 <= i < split_char(s, c).len() ==> !(#[trigger] split_char(s, c)[i]).contains(c),
    decreases s.len(),
{
    lemma_split_char_nonempty(s, c);
    if s.len() > 0 {
        lemma_split_char_fields(s.drop_last(), c);
        lemma_split_char_nonempty(s.drop_last(), c);
        let prev = split_char(s.drop_last(), c);
        if s.last() != c {
            assert forall|i: int| 0 <= i < split_char(s, c).len() implies !(#[trigger] split_char(
                s,
                c,
            )[i]).contains(c) by {
                if i == prev.len() - 1 {
                    let f = prev.last().push(s.last());
                    assert(split_char(s, c)[i] == f);
                    if f.contains(c) {
                        let k = choose|k: int| 0 <= k < f.len() && f[k] == c;
                        if k < prev.last().len() {
                            assert(prev.last()[k] == c);
                            assert(prev[prev.len() - 1].contains(c));
                        }
                    }
                } else {
                    assert(split_char(s, c)[i] == prev[i]);
                }
            }
        } else {
            assert forall|i: int| 0 <= i < split_char(s, c).len() implies !(#[trigger] split_char(
                s,
                c,
            )[i]).contains(c) by {
                if i < prev.len() {
                    assert(split_char(s, c)[i] == prev[i]);
                } else {
                    assert(split_char(s, c)[i] =~= Seq::<char>::empty());
                }
            }
        }
    }
}

/// The fields with the separator after each of them but the last give the
/// text back.
pub proof fn lemma_split_char_rejoin(s: Seq<char>, c: char)
    ensures
        text_with(split_char(s, c).drop_last(), c) + split_char(s, c).last() == s,
    decreases s.len(),
{
    lemma_split_char_nonempty(s, c);
    if s.len() == 0 {
        assert(split_char(s, c).drop_last() =~= Seq::<Seq<char>>::empty());
        assert(text_with(Seq::<Seq<char>>::empty(), c) + Seq::<char>::empty() =~= s);
    } else {
        let s1 = s.drop_last();
        lemma_split_char_rejoin(s1, c);
        lemma_split_char_nonempty(s1, c);
        let prev = split_char(s1, c);
        if s.last() == c {
            assert(split_char(s, c).drop_last() =~= prev);
            assert(text_with(prev, c) =~= text_with(prev.drop_last(), c) + prev.last() + seq![c]);
            assert(text_with(prev, c) + Seq::<char>::empty() =~= s);
        } else {
            let cur = split_char(s, c);
            assert(cur.drop_last() =~= prev.drop_last());
            assert(cur.last() == prev.last().push(s.last()));
            assert(text_with(cur.drop_last(), c) == text_with(prev.drop_last(), c));
            assert(text_with(prev.drop_last(), c) + prev.last() == s1);
            assert(text_with(prev.drop_last(), c) + prev.last().push(s.last()) =~= s1.push(s.last()));
            assert(s1.push(s.last()) =~= s);
        }
    }
}

/// Each line followed by the separator `c`.
pub open spec fn text_with(ls: Seq<Seq<char>>, c: char) -> Seq<char>
    decreases ls.len(),
{
    if ls.len() == 0 {
        seq![]
    } else {
        text_with(ls.drop_last(), c) + ls.last() + seq![c]
    }
}

pub proof fn lemma_text_with_newline(ls: Seq<Seq<char>>)
    ensures
        text_with(ls, '\n') == text_of_lines(ls),
    decreases ls.len(),
{
    if ls.len() > 0 {
        lemma_text_with_newline(ls.drop_last());
    }
}

/// Splitting text made of lines gives the lines and an empty last field.
pub proof fn lemma_split_text_of_lines(ls: Seq<Seq<char>>)
    requires
        forall|i: int| 0 <= i < ls.len() ==> !(#[trigger] ls[i]).contains('\n'),
    ensures
        split_char(text_of_lines(ls), '\n') == ls.push(seq![]),
    decreases ls.len(),
{
    if ls.len() == 0 {
        assert(split_char(seq![], '\n') =~= ls.push(seq![]));
    } else {
        let l1 = ls.drop_last();
        assert forall|i: int| 0 <= i < l1.len() implies !(#[trigger] l1[i]).contains('\n') by {
            assert(l1[i] == ls[i]);
        }
        lemma_split_text_of_lines(l1);
        let a = text_of_lines(l1);
        let l = ls.last();
        assert(!l.contains('\n')) by {
            assert(ls[ls.len() - 1] == l);
        }
        lemma_split_char_append(a, l, '\n');
        assert(seq![] + l =~= l);
        assert(split_char(a + l, '\n') =~= l1.push(l));
        lemma_split_char_sep(a + l, '\n');
        assert(text_of_lines(ls) =~= (a + l).push('\n'));
        assert(l1.push(l) =~= ls);
    }
}

/// `str::lines` gives back the lines of text made of plain lines.
pub proof fn lemma_lines_of_text(ls: Seq<Seq<char>>)
    requires
        forall|i: int| 0 <= i < ls.len() ==> plain_line(#[trigger] ls[i]),
    ensures
        lines(text_of_lines(ls)) == ls,
{
    assert forall|i: int| 0 <= i < ls.len() implies !(#[trigger] ls[i]).contains('\n') by {
        assert(plain_line(ls[i]));
    }
    lemma_split_text_of_lines(ls);
    let t = text_of_lines(ls);
    if ls.len() == 0 {
        assert(t.len() == 0);
    } else {
        assert(t == text_of_lines(ls.drop_last()) + ls.last() + seq!['\n']);
        assert(t.last() == '\n');
        let p = split_char(t, '\n');
        assert(p.drop_last() =~= ls);
        assert(p.drop_last().map_values(|l: Seq<char>| strip_cr(l)) =~= ls) by {
            assert forall|i: int| 0 <= i < ls.len() implies strip_cr(#[trigger] ls[i]) == ls[i] by {
                assert(plain_line(ls[i]));
            }
        }
    }
}

pub proof fn lemma_join_text_of_lines(ls: Seq<Seq<char>>)
    requires
        ls.len() > 0,
    ensures
        join(ls.push(seq![]), seq!['\n']) == text_of_lines(ls),
        join(ls, seq!['\n']) + seq!['\n'] == text_of_lines(ls),
    decreases ls.len(),
{
    if ls.len() == 1 {
        assert(ls.push(seq![]).drop_last() =~= ls);
        assert(join(ls, seq!['\n']) == ls[0]);
        assert(text_of_lines(ls.drop_last()) =~= Seq::<char>::empty());
        assert(text_of_lines(ls) =~= ls[0] + seq!['\n']);
        assert(join(ls.push(seq![]), seq!['\n']) =~= ls[0] + seq!['\n'] + Seq::<char>::empty());
    } else {
        lemma_join_text_of_lines(ls.drop_last());
        assert(ls.push(seq![]).drop_last() =~= ls);
        assert(join(ls, seq!['\n']) + seq!['\n'] =~= join(ls.drop_last(), seq!['\n']) + seq!['\n']
            + ls.last() + seq!['\n']);
        assert(join(ls.push(seq![]), seq!['\n']) =~= join(ls, seq!['\n']) + seq!['\n']
            + Seq::<char>::empty());
    }
}

// ---------------------------------------------------------------------------
// The rendered text as lines
// ---------------------------------------------------------------------------

/// The character sequences of the fixed pieces of the format.
pub proof fn lemma_literals()
    ensures
        "\n"@ == seq!['\n'],
        "\n\n"@ == seq!['\n', '\n'],
        "## "@ == seq!['#', '#', ' '],
        "### "@ == seq!['#', '#', '#', ' '],
        "\n### "@ == seq!['\n', '#', '#', '#', ' '],
        "- "@ == seq!['-', ' '],
        "## ["@ == seq!['#', '#', ' ', '['],
        "["@ == seq!['['],
        "]"@ == seq![']'],
        " - "@ == seq![' ', '-', ' '],
        "[YANKED]"@ == seq!['[', 'Y', 'A', 'N', 'K', 'E', 'D', ']'],
        " [YANKED]"@ == seq![' ', '[', 'Y', 'A', 'N', 'K', 'E', 'D', ']'],
        "## [Unreleased]"@ == seq!['#', '#', ' '] + "[Unreleased]"@,
        "[Unreleased]"@ == seq!['[', 'U', 'n', 'r', 'e', 'l', 'e', 'a', 's', 'e', 'd', ']'],
{
    reveal_strlit("\n");
    reveal_strlit("\n\n");
    reveal_strlit("## ");
    reveal_strlit("### ");
    reveal_strlit("\n### ");
    reveal_strlit("- ");
    reveal_strlit("## [");
    reveal_strlit("[");
    reveal_strlit("]");
    reveal_strlit(" - ");
    reveal_strlit("[YANKED]");
    reveal_strlit(" [YANKED]");
    reveal_strlit("## [Unreleased]");
    reveal_strlit("[Unreleased]");
    assert("\n"@ =~= seq!['\n']);
    assert("\n\n"@ =~= seq!['\n', '\n']);
    assert("## "@ =~= seq!['#', '#', ' ']);
    assert("### "@ =~= seq!['#', '#', '#', ' ']);
    assert("\n### "@ =~= seq!['\n', '#', '#', '#', ' ']);
    assert("- "@ =~= seq!['-', ' ']);
    assert("## ["@ =~= seq!['#', '#', ' ', '[']);
    assert("["@ =~= seq!['[']);
    assert("]"@ =~= seq![']']);
    assert(" - "@ =~= seq![' ', '-', ' ']);
    assert("[YANKED]"@ =~= seq!['[', 'Y', 'A', 'N', 'K', 'E', 'D', ']']);
    assert(" [YANKED]"@ =~= seq![' ', '[', 'Y', 'A', 'N', 'K', 'E', 'D', ']']);
    assert("[Unreleased]"@ =~= seq!['[', 'U', 'n', 'r', 'e', 'l', 'e', 'a', 's', 'e', 'd', ']']);
    assert("## [Unreleased]"@ =~= seq!['#', '#', ' '] + "[Unreleased]"@);
}

/// The preamble as it comes back: with a line ending at its end.
pub open spec fn norm_preamble(p: Seq<char>) -> Seq<char> {
    if p.len() > 0 && p.last() == '\n' {
        p
    } else {
        p.push('\n')
    }
}

pub open spec fn item_lines(items: Seq<Seq<char>>) -> Seq<Seq<char>> {
    items.map_values(|it: Seq<char>| "- "@ + it)
}

pub open spec fn section_lines(e: Seq<(Section, Seq<Seq<char>>)>, s: Section) -> Seq<Seq<char>> {
    let i = find_section(sections_of(e), s);
    if i < e.len() && e[i].1.len() > 0 {
        seq![seq![], "### "@ + section_name(s), seq![]] + item_lines(e[i].1)
    } else {
        seq![]
    }
}

pub open spec fn block_lines(e: Seq<(Section, Seq<Seq<char>>)>, secs: Seq<Section>) -> Seq<Seq<char>>
    decreases secs.len(),
{
    if secs.len() == 0 {
        seq![]
    } else {
        block_lines(e, secs.drop_last()) + section_lines(e, secs.last())
    }
}

pub open spec fn release_lines(r: ReleaseView) -> Seq<Seq<char>> {
    seq![heading_line(r)] + block_lines(r.entries, all_sections()) + seq![seq![]]
}

pub open spec fn releases_lines(rs: Seq<ReleaseView>) -> Seq<Seq<char>>
    decreases rs.len(),
{
    if rs.len() == 0 {
        seq![]
    } else {
        releases_lines(rs.drop_last()) + release_lines(rs.last())
    }
}

pub open spec fn preamble_lines(p: Seq<char>) -> Seq<Seq<char>> {
    split_char(norm_preamble(p), '\n').drop_last()
}

/// The lines of the rendered text.
pub open spec fn rendered_lines(cl: ChangelogView) -> Seq<Seq<char>> {
    preamble_lines(cl.preamble) + seq![seq![]] + releases_lines(cl.releases)
}

pub proof fn lemma_text_of_lines_one(x: Seq<char>)
    ensures
        text_of_lines(seq![x]) == x + seq!['\n'],
{
    assert(seq![x].drop_last() =~= Seq::<Seq<char>>::empty());
    assert(text_of_lines(Seq::<Seq<char>>::empty()) =~= Seq::<char>::empty());
    assert(text_of_lines(seq![x].drop_last()) =~= Seq::<char>::empty());
    assert(seq![x].last() == x);
    assert(text_of_lines(seq![x]) =~= x + seq!['\n']);
}

proof fn lemma_items_text(items: Seq<Seq<char>>)
    ensures
        items_text(items) == text_of_lines(item_lines(items)),
    decreases items.len(),
{
    lemma_literals();
    if items.len() > 0 {
        lemma_items_text(items.drop_last());
        assert(item_lines(items).drop_last() =~= item_lines(items.drop_last()));
        assert(item_lines(items).last() == "- "@ + items.last());
        assert(items_text(items) =~= text_of_lines(item_lines(items)));
    }
}

proof fn lemma_section_block(e: Seq<(Section, Seq<Seq<char>>)>, s: Section)
    ensures
        section_block(e, s) == text_of_lines(section_lines(e, s)),
{
    lemma_literals();
    let i = find_section(sections_of(e), s);
    if i < e.len() && e[i].1.len() > 0 {
        let head: Seq<Seq<char>> = seq![seq![], "### "@ + section_name(s), seq![]];
        lemma_items_text(e[i].1);
        lemma_text_of_lines_concat(head, item_lines(e[i].1));
        let n = "### "@ + section_name(s);
        lemma_text_of_lines_one(seq![]);
        lemma_text_of_lines_one(n);
        lemma_text_of_lines_concat(seq![seq![]], seq![n]);
        lemma_text_of_lines_concat(seq![seq![], n], seq![seq![]]);
        assert(seq![seq![]] + seq![n] =~= seq![seq![], n]);
        assert(seq![seq![], n] + seq![seq![]] =~= head);
        assert(text_of_lines(head) =~= seq!['\n'] + "### "@ + section_name(s) + seq!['\n', '\n']);
        assert(section_block(e, s) =~= text_of_lines(section_lines(e, s)));
    } else {
        assert(section_block(e, s) =~= text_of_lines(section_lines(e, s)));
    }
}

proof fn lemma_section_blocks(e: Seq<(Section, Seq<Seq<char>>)>, secs: Seq<Section>)
    ensures
        section_blocks(e, secs) == text_of_lines(block_lines(e, secs)),
    decreases secs.len(),
{
    if secs.len() > 0 {
        lemma_section_blocks(e, secs.drop_last());
        lemma_section_block(e, secs.last());
        lemma_text_of_lines_concat(block_lines(e, secs.drop_last()), section_lines(e, secs.last()));
    }
}

proof fn lemma_release_text(r: ReleaseView)
    ensures
        release_text(r) == text_of_lines(release_lines(r)),
{
    lemma_literals();
    let b = block_lines(r.entries, all_sections());
    lemma_section_blocks(r.entries, all_sections());
    lemma_text_of_lines_concat(seq![heading_line(r)], b);
    lemma_text_of_lines_concat(seq![heading_line(r)] + b, seq![seq![]]);
    lemma_text_of_lines_one(heading_line(r));
    lemma_text_of_lines_one(seq![]);
    assert(release_text(r) =~= text_of_lines(release_lines(r)));
}

proof fn lemma_releases_text(rs: Seq<ReleaseView>)
    ensures
        releases_text(rs) == text_of_lines(releases_lines(rs)),
    decreases rs.len(),
{
    if rs.len() > 0 {
        lemma_releases_text(rs.drop_last());
        lemma_release_text(rs.last());
        lemma_text_of_lines_concat(releases_lines(rs.drop_last()), release_lines(rs.last()));
    }
}

proof fn lemma_preamble_lines(p: Seq<char>)
    ensures
        text_of_lines(preamble_lines(p)) == norm_preamble(p),
        preamble_lines(p).len() > 0,
        preamble_text(p) == text_of_lines(preamble_lines(p).push(seq![])),
{
    let q = norm_preamble(p);
    let q1 = q.drop_last();
    assert(q1.push('\n') =~= q);
    lemma_split_char_sep(q1, '\n');
    lemma_split_char_nonempty(q1, '\n');
    lemma_split_char_rejoin(q, '\n');
    lemma_text_with_newline(preamble_lines(p));
    assert(split_char(q, '\n').last() =~= Seq::<char>::empty());
    assert(text_of_lines(preamble_lines(p)) =~= q);
    assert(preamble_lines(p).push(seq![]).drop_last() =~= preamble_lines(p));
    assert(preamble_text(p) =~= text_of_lines(preamble_lines(p).push(seq![])));
}

/// The rendered text is made of the rendered lines.
pub proof fn lemma_render_lines(cl: ChangelogView)
    ensures
        render_text(cl) == text_of_lines(rendered_lines(cl)),
{
    lemma_preamble_lines(cl.preamble);
    lemma_releases_text(cl.releases);
    assert(preamble_lines(cl.preamble) + seq![seq![]] =~= preamble_lines(cl.preamble).push(seq![]));
    lemma_text_of_lines_concat(
        preamble_lines(cl.preamble) + seq![seq![]],
        releases_lines(cl.releases),
    );
}

// ---------------------------------------------------------------------------
// Reading a heading back
// ---------------------------------------------------------------------------

/// The heading text of a versioned release, without `[YANKED]`.
pub open spec fn version_heading(v: Seq<char>, date: Option<Seq<char>>) -> Seq<char> {
    "["@ + v + "]"@ + match date {
        Some(d) => " - "@ + d,
        None => seq![],
    }
}

/// A heading that reads back as the release it was written from.
pub open spec fn heading_ok(r: ReleaseView) -> bool {
    match r.version {
        None => true,
        Some(v) => {
            &&& !v.contains('\n')
            &&& !v.contains(']')
            &&& !(v.len() > 0 && v[0] == '[')
            &&& !contains(v, " - "@)
            &&& match r.date {
                Some(d) => d.len() > 0 && trim(d) == d && !d.contains('\n') && !contains(d, " - "@),
                None => true,
            }
            &&& !contains(version_heading(v, r.date), "[YANKED]"@)
            &&& !contains(lowercase(version_heading(v, r.date)), "unreleased"@)
        },
    }
}

/// The release that a heading line stands for, before any entry.
pub open spec fn heading_view(r: ReleaseView) -> ReleaseView {
    match r.version {
        None => unreleased_view(),
        Some(v) => ReleaseView { version: Some(v), date: r.date, yanked: r.yanked, entries: seq![] },
    }
}

/// `str::to_lowercase` keeps the word `unreleased` in the heading of the
/// unreleased block.
pub proof fn lemma_lowercase_unreleased()
    ensures
        contains(lowercase("[Unreleased]"@), "unreleased"@),
{
    reveal_strlit("[Unreleased]");
    reveal_strlit("unreleased");
    let h = "[Unreleased]"@;
    assert(h =~= seq!['[', 'U', 'n', 'r', 'e', 'l', 'e', 'a', 's', 'e', 'd', ']']);
    assert(all_ascii(h)) by {
        assert forall|i: int| 0 <= i < h.len() implies (#[trigger] h[i] as u32) < 128 by {}
    }
    let l = h.map_values(|c: char| ascii_lower(c));
    assert(ascii_lower('U') == 'u');
    assert(l.subrange(1, 11) =~= "unreleased"@);
    assert(matches_at(l, "unreleased"@, 1));
}

pub proof fn lemma_trim_id(s: Seq<char>)
    requires
        s.len() > 0,
        !is_ws(s[0]),
        !is_ws(s.last()),
    ensures
        trim(s) == s,
{
    lemma_trim_start_skip(s, 0);
    assert(s.skip(0) =~= s);
    lemma_trim_end_take(s, s.len() as int);
    assert(s.take(s.len() as int) =~= s);
}

pub proof fn lemma_remove_all_none(s: Seq<char>, p: Seq<char>)
    requires
        p.len() > 0,
        !contains(s, p),
    ensures
        remove_all(s, p) == s,
    decreases s.len(),
{
    if s.len() > 0 {
        assert(!starts_with(s, p)) by {
            if starts_with(s, p) {
                assert(s.subrange(0, p.len() as int) =~= s.take(p.len() as int));
                assert(matches_at(s, p, 0));
            }
        }
        let t = s.drop_first();
        assert(!contains(t, p)) by {
            if contains(t, p) {
                let i = choose|i: int| matches_at(t, p, i);
                assert(s.subrange(i + 1, i + 1 + p.len()) =~= t.subrange(i, i + p.len()));
                assert(matches_at(s, p, i + 1));
            }
        }
        lemma_remove_all_none(t, p);
        assert(seq![s[0]] + t =~= s);
    }
}

/// Removal passes over a prefix in which no occurrence starts.
pub proof fn lemma_remove_all_prefix(s: Seq<char>, p: Seq<char>, k: int)
    requires
        p.len() > 0,
        0 <= k <= s.len(),
        forall|i: int| 0 <= i < k ==> !matches_at(s, p, i),
    ensures
        remove_all(s, p) == s.take(k) + remove_all(s.skip(k), p),
    decreases k,
{
    if k == 0 {
        assert(s.skip(0) =~= s);
        assert(s.take(0) + remove_all(s, p) =~= remove_all(s, p));
    } else {
        assert(!starts_with(s, p)) by {
            if starts_with(s, p) {
                assert(s.subrange(0, p.len() as int) =~= s.take(p.len() as int));
                assert(matches_at(s, p, 0));
            }
        }
        let t = s.drop_first();
        assert forall|i: int| 0 <= i < k - 1 implies !matches_at(t, p, i) by {
            if matches_at(t, p, i) {
                assert(s.subrange(i + 1, i + 1 + p.len()) =~= t.subrange(i, i + p.len()));
                assert(matches_at(s, p, i + 1));
            }
        }
        lemma_remove_all_prefix(t, p, k - 1);
        assert(t.skip(k - 1) =~= s.skip(k));
        assert(seq![s[0]] + t.take(k - 1) =~= s.take(k));
    }
}

/// The text of a versioned heading line is the version heading, with
/// ` [YANKED]` after it for a yanked release.
proof fn lemma_version_heading_line(r: ReleaseView)
    requires
        r.version is Some,
    ensures
        heading_line(r) == "## "@ + version_heading(r.version->0, r.date) + if r.yanked {
            " [YANKED]"@
        } else {
            seq![]
        },
{
    lemma_literals();
    let v = r.version->0;
    assert(heading_line(r) =~= "## "@ + version_heading(v, r.date) + if r.yanked {
        " [YANKED]"@
    } else {
        seq![]
    });
}

proof fn lemma_trim_start_len(s: Seq<char>)
    ensures
        trim_start(s).len() <= s.len(),
        s.len() > 0 && is_ws(s[0]) ==> trim_start(s).len() < s.len(),
    decreases s.len(),
{
    if s.len() > 0 && is_ws(s[0]) {
        lemma_trim_start_len(s.drop_first());
    }
}

proof fn lemma_trim_end_len(s: Seq<char>)
    ensures
        trim_end(s).len() <= s.len(),
        s.len() > 0 && is_ws(s.last()) ==> trim_end(s).len() < s.len(),
    decreases s.len(),
{
    if s.len() > 0 && is_ws(s.last()) {
        lemma_trim_end_len(s.drop_last());
    }
}

/// A trimmed non-empty text starts and ends with a character that is not
/// white space.
proof fn lemma_trimmed_ends(d: Seq<char>)
    requires
        d.len() > 0,
        trim(d) == d,
    ensures
        !is_ws(d[0]),
        !is_ws(d.last()),
{
    lemma_trim_start_len(d);
    lemma_trim_end_len(trim_start(d));
    if is_ws(d[0]) {
        assert(trim(d).len() < d.len());
    }
    assert(trim_start(d) == d) by {
        if trim_start(d) != d {
            if d.len() > 0 && is_ws(d[0]) {
            } else {
                assert(trim_start(d) == d);
            }
        }
    }
    if is_ws(d.last()) {
        assert(trim_end(d).len() < d.len());
    }
}

/// A ` - ` in `[v]` lies inside `v`.
proof fn lemma_no_dash_in_brackets(v: Seq<char>, k: int)
    requires
        matches_at(seq!['['] + v + seq![']'], " - "@, k),
    ensures
        contains(v, " - "@),
{
    lemma_literals();
    let w = seq!['['] + v + seq![']'];
    assert(w.subrange(k, k + 3)[0] == ' ');
    assert(w.subrange(k, k + 3)[2] == ' ');
    assert(w[k] == ' ');
    assert(w[k + 2] == ' ');
    assert(w[k + 1] == '-');
    assert(k != 0);
    assert(k + 2 != v.len() + 1);
    assert(k + 1 != v.len() + 1);
    assert(k != v.len() + 1);
    assert(v.subrange(k - 1, k + 2) =~= w.subrange(k, k + 3));
    assert(matches_at(v, " - "@, k - 1));
}

pub proof fn lemma_tsm_once(s: Seq<char>, p: Seq<char>)
    requires
        p.len() > 0,
        starts_with(s, p),
        !starts_with(s.skip(p.len() as int), p),
    ensures
        trim_start_matches(s, p) == s.skip(p.len() as int),
{
    assert(trim_start_matches(s, p) == trim_start_matches(s.skip(p.len() as int), p));
}

/// The version comes back out of `[v]` and what follows it.
proof fn lemma_version_part(v: Seq<char>, tail: Seq<char>)
    requires
        !v.contains(']'),
        !(v.len() > 0 && v[0] == '['),
    ensures
        before_first(trim_start_matches(seq!['['] + v + seq![']'] + tail, "["@), "]"@) == v,
{
    lemma_literals();
    let vh = seq!['['] + v + seq![']'] + tail;
    let rest = v + seq![']'] + tail;
    assert(vh.take(1) =~= seq!['[']);
    assert(vh.skip(1) =~= rest);
    assert(!starts_with(rest, "["@)) by {
        if starts_with(rest, "["@) {
            assert(rest.take(1)[0] == rest[0]);
            if v.len() == 0 {
                assert(rest[0] == ']');
            }
        }
    }
    lemma_tsm_once(vh, "["@);
    assert(matches_at(rest, "]"@, v.len() as int)) by {
        assert(rest.subrange(v.len() as int, v.len() + 1int) =~= seq![']']);
    }
    assert forall|j: int| 0 <= j < v.len() implies !matches_at(rest, "]"@, j) by {
        if matches_at(rest, "]"@, j) {
            assert(rest.subrange(j, j + 1)[0] == rest[j]);
            assert(rest[j] == v[j]);
            assert(v.contains(']'));
        }
    }
    lemma_find_from_found(rest, "]"@, 0, v.len() as int);
    assert(rest.take(v.len() as int) =~= v);
}

/// The date comes back out of a version heading.
proof fn lemma_date_part(v: Seq<char>, date: Option<Seq<char>>)
    requires
        !contains(v, " - "@),
        date matches Some(d) ==> d.len() > 0 && trim(d) == d && !contains(d, " - "@),
    ensures
        match second_field(version_heading(v, date), " - "@) {
            Some(d) => Some(trim(d)),
            None => None,
        } == date,
{
    lemma_literals();
    let vh = version_heading(v, date);
    let w = seq!['['] + v + seq![']'];
    match date {
        None => {
            assert(vh =~= w);
            assert forall|j: int| 0 <= j implies !matches_at(vh, " - "@, j) by {
                if matches_at(vh, " - "@, j) {
                    lemma_no_dash_in_brackets(v, j);
                }
            }
            lemma_find_from_none(vh, " - "@, 0);
        },
        Some(d) => {
            let k: int = v.len() as int + 2;
            assert(vh =~= w + " - "@ + d);
            assert(matches_at(vh, " - "@, k)) by {
                assert(vh.subrange(k, k + 3) =~= " - "@);
            }
            assert forall|j: int| 0 <= j < k implies !matches_at(vh, " - "@, j) by {
                if matches_at(vh, " - "@, j) {
                    if j + 3 <= w.len() {
                        assert(w.subrange(j, j + 3) =~= vh.subrange(j, j + 3));
                        lemma_no_dash_in_brackets(v, j);
                    } else {
                        assert(vh.subrange(j, j + 3)[k - 1 - j] == vh[k - 1]);
                        assert(vh[k - 1] == ']');
                    }
                }
            }
            lemma_find_from_found(vh, " - "@, 0, k);
            assert(vh.skip(k + 3) =~= d);
            assert forall|j: int| 0 <= j implies !matches_at(d, " - "@, j) by {
                if matches_at(d, " - "@, j) {
                    assert(contains(d, " - "@));
                }
            }
            lemma_find_from_none(d, " - "@, 0);
        },
    }
}

/// The last character of a version heading is not white space.
proof fn lemma_version_heading_ends(v: Seq<char>, date: Option<Seq<char>>)
    requires
        date matches Some(d) ==> d.len() > 0 && trim(d) == d,
    ensures
        version_heading(v, date).len() > 0,
        version_heading(v, date)[0] == '[',
        !is_ws(version_heading(v, date).last()),
{
    lemma_literals();
    let vh = version_heading(v, date);
    match date {
        Some(d) => {
            lemma_trimmed_ends(d);
            assert(vh =~= seq!['['] + v + seq![']'] + seq![' ', '-', ' '] + d);
            assert(vh.last() == d.last());
        },
        None => {
            assert(vh =~= seq!['['] + v + seq![']']);
        },
    }
}

/// Taking `[YANKED]` out of a yanked heading leaves the version heading
/// and a space.
proof fn lemma_remove_yanked_mark(vh: Seq<char>)
    requires
        !contains(vh, "[YANKED]"@),
    ensures
        remove_all(vh + " [YANKED]"@, "[YANKED]"@) == vh.push(' '),
        contains(vh + " [YANKED]"@, "[YANKED]"@),
{
    lemma_literals();
    let y = "[YANKED]"@;
    let body = vh + " [YANKED]"@;
    let k: int = vh.len() as int + 1;
    assert(body =~= vh.push(' ') + y);
    assert(matches_at(body, y, k)) by {
        assert(body.subrange(k, k + 8) =~= y);
    }
    assert forall|i: int| 0 <= i < k implies !matches_at(body, y, i) by {
        if matches_at(body, y, i) {
            if i + 8 <= vh.len() {
                assert(vh.subrange(i, i + 8) =~= body.subrange(i, i + 8));
                assert(matches_at(vh, y, i));
            } else {
                assert(body.subrange(i, i + 8)[vh.len() - i] == body[vh.len() as int]);
                assert(body[vh.len() as int] == ' ');
            }
        }
    }
    lemma_remove_all_prefix(body, y, k);
    assert(body.take(k) =~= vh.push(' '));
    assert(body.skip(k) =~= y);
    assert(starts_with(y, y)) by {
        assert(y.take(8) =~= y);
    }
    assert(y.skip(8) =~= Seq::<char>::empty());
    assert(remove_all(y, y) == remove_all(y.skip(8), y));
    assert(remove_all(Seq::<char>::empty(), y) =~= Seq::<char>::empty());
    assert(vh.push(' ') + Seq::<char>::empty() =~= vh.push(' '));
}

/// A versioned heading line reads back as the release it was written
/// from.
proof fn lemma_heading_versioned(r: ReleaseView)
    requires
        r.version is Some,
        heading_ok(r),
    ensures
        crate::changelog::heading_release(heading_line(r)) == heading_view(r),
{
    lemma_literals();
    let v = r.version->0;
    let vh = version_heading(v, r.date);
    let suffix = if r.yanked {
        " [YANKED]"@
    } else {
        seq![]
    };
    let body = vh + suffix;
    let h = heading_line(r);
    lemma_version_heading_line(r);
    lemma_version_heading_ends(v, r.date);
    assert(h =~= "## "@ + body);
    assert(h.take(3) =~= "## "@);
    assert(h.skip(3) =~= body);
    assert(body[0] == '[');
    assert(!starts_with(body, "## "@)) by {
        if starts_with(body, "## "@) {
            assert(body.take(3)[0] == body[0]);
        }
    }
    lemma_tsm_once(h, "## "@);
    assert(!is_ws(body.last())) by {
        if r.yanked {
            assert(body.last() == ']');
        } else {
            assert(body =~= vh);
        }
    }
    lemma_trim_id(body);
    assert(crate::changelog::heading_body(h) == body);
    let b = crate::changelog::heading_text_without_mark(h);
    if r.yanked {
        lemma_remove_yanked_mark(vh);
        let t = vh.push(' ');
        lemma_trim_start_skip(t, 0);
        assert(t.skip(0) =~= t);
        assert(forall|j: int| vh.len() <= j < t.len() ==> is_ws(#[trigger] t[j]));
        lemma_trim_end_take(t, vh.len() as int);
        assert(t.take(vh.len() as int) =~= vh);
        assert(b == vh);
    } else {
        assert(body =~= vh);
        lemma_remove_all_none(vh, "[YANKED]"@);
        lemma_trim_id(vh);
        assert(b == vh);
    }
    let tail = match r.date {
        Some(d) => " - "@ + d,
        None => seq![],
    };
    assert(vh =~= seq!['['] + v + seq![']'] + tail);
    lemma_version_part(v, tail);
    lemma_date_part(v, r.date);
    assert(crate::changelog::heading_release(h) =~= heading_view(r));
}

/// The heading of the unreleased block reads back as that block.
proof fn lemma_heading_unreleased(r: ReleaseView)
    requires
        r.version is None,
        heading_ok(r),
    ensures
        crate::changelog::heading_release(heading_line(r)) == heading_view(r),
{
    lemma_literals();
    let h = heading_line(r);
    let body = "[Unreleased]"@;
    let y = "[YANKED]"@;
    assert(h == "## [Unreleased]"@);
    assert(h.take(3) =~= "## "@);
    assert(h.skip(3) =~= body);
    assert(!starts_with(body, "## "@)) by {
        if starts_with(body, "## "@) {
            assert(body.take(3)[0] == body[0]);
        }
    }
    lemma_tsm_once(h, "## "@);
    lemma_trim_id(body);
    assert forall|i: int| !matches_at(body, y, i) by {
        if matches_at(body, y, i) {
            let w = body.subrange(i, i + 8);
            assert(w[0] == body[i]);
            assert(w[1] == body[i + 1]);
            assert(w[0] == '[' && w[1] == 'Y');
            if i == 0 {
                assert(body[1] == 'U');
            } else {
                assert(1 <= i <= 4);
                assert(body[i] != '[');
            }
        }
    }
    lemma_remove_all_none(body, y);
    lemma_lowercase_unreleased();
    assert(crate::changelog::heading_text_without_mark(h) == body);
    assert(crate::changelog::heading_release(h) =~= heading_view(r));
}

// ---------------------------------------------------------------------------
// Parsing the lines back
// ---------------------------------------------------------------------------

/// The parser's state after `ls`, starting from `st`.
pub open spec fn run_from(st: ParseState, ls: Seq<Seq<char>>) -> ParseState
    decreases ls.len(),
{
    if ls.len() == 0 {
        st
    } else {
        parse_step(run_from(st, ls.drop_last()), ls.last())
    }
}

pub proof fn lemma_run_lines_from(ls: Seq<Seq<char>>)
    ensures
        run_lines(ls) == run_from(start_state(), ls),
    decreases ls.len(),
{
    if ls.len() > 0 {
        lemma_run_lines_from(ls.drop_last());
    }
}

pub proof fn lemma_run_from_concat(st: ParseState, a: Seq<Seq<char>>, b: Seq<Seq<char>>)
    ensures
        run_from(st, a + b) == run_from(run_from(st, a), b),
    decreases b.len(),
{
    if b.len() == 0 {
        assert(a + b =~= a);
    } else {
        lemma_run_from_concat(st, a, b.drop_last());
        assert((a + b).drop_last() =~= a + b.drop_last());
        assert((a + b).last() == b.last());
    }
}

/// A line that the parser takes for neither a heading, a section nor an
/// item.
pub open spec fn not_marker(l: Seq<char>) -> bool {
    &&& !starts_with(l, "## "@)
    &&& !starts_with(l, "### "@)
    &&& !starts_with(l, "- "@)
}

/// The non-empty entries of the sections `secs`, in that order, each the
/// first entry of its section.
pub open spec fn norm_entries(e: Seq<(Section, Seq<Seq<char>>)>, secs: Seq<Section>) -> Seq<(Section, Seq<Seq<char>>)>
    decreases secs.len(),
{
    if secs.len() == 0 {
        seq![]
    } else {
        norm_entries(e, secs.drop_last()) + section_entry(e, secs.last())
    }
}

/// The first entry of section `s`, when it holds items.
pub open spec fn section_entry(e: Seq<(Section, Seq<Seq<char>>)>, s: Section) -> Seq<(Section, Seq<Seq<char>>)> {
    let i = find_section(sections_of(e), s);
    if i < e.len() && e[i].1.len() > 0 {
        seq![(s, e[i].1)]
    } else {
        seq![]
    }
}

/// A release as it comes back from its text.
pub open spec fn norm_release(r: ReleaseView) -> ReleaseView {
    ReleaseView { entries: norm_entries(r.entries, all_sections()), ..heading_view(r) }
}

/// A changelog as it comes back from its text: the preamble ends with a
/// line ending; the unreleased block has no date and is not yanked; each
/// release lists, in the standard order, the first entry of each section
/// that holds items.
pub open spec fn normalize(cl: ChangelogView) -> ChangelogView {
    ChangelogView {
        preamble: norm_preamble(cl.preamble),
        releases: cl.releases.map_values(|r: ReleaseView| norm_release(r)),
    }
}

proof fn lemma_not_marker_lines(st: ParseState, ls: Seq<Seq<char>>)
    requires
        forall|i: int| 0 <= i < ls.len() ==> not_marker(#[trigger] ls[i]),
    ensures
        run_from(st, ls) == (if st.in_preamble {
            ParseState { preamble: st.preamble + ls, ..st }
        } else {
            st
        }),
    decreases ls.len(),
{
    if ls.len() == 0 {
        assert(st.preamble + ls =~= st.preamble);
    } else {
        let l1 = ls.drop_last();
        assert forall|i: int| 0 <= i < l1.len() implies not_marker(#[trigger] l1[i]) by {
            assert(l1[i] == ls[i]);
        }
        lemma_not_marker_lines(st, l1);
        assert(not_marker(ls[ls.len() - 1]));
        assert(st.preamble + l1.push(ls.last()) =~= st.preamble + ls);
        assert(l1.push(ls.last()) =~= ls);
    }
}

proof fn lemma_empty_not_marker()
    ensures
        not_marker(seq![]),
{
    lemma_literals();
}

/// The items of one section, read as `- ` lines.
proof fn lemma_item_lines(st: ParseState, s: Section, c: ReleaseView, items: Seq<Seq<char>>)
    requires
        items.len() > 0,
        st.current == Some(c),
        st.section == Some(s),
        forall|j: int| 0 <= j < c.entries.len() ==> (#[trigger] c.entries[j]).0 != s,
    ensures
        run_from(st, item_lines(items)) == (ParseState {
            current: Some(ReleaseView { entries: c.entries.push((s, items)), ..c }),
            ..st
        }),
    decreases items.len(),
{
    lemma_literals();
    let it = items.last();
    let line = "- "@ + it;
    assert(item_lines(items).drop_last() =~= item_lines(items.drop_last()));
    assert(item_lines(items).last() == line);
    assert(line.take(2) =~= "- "@);
    assert(line[0] == '-');
    assert(!starts_with(line, "## "@)) by {
        if starts_with(line, "## "@) {
            assert(line.take(3)[0] == line[0]);
        }
    }
    assert(!starts_with(line, "### "@)) by {
        if starts_with(line, "### "@) {
            assert(line.take(4)[0] == line[0]);
        }
    }
    assert(line.skip(2) =~= it);
    let secs = sections_of(c.entries);
    if items.len() == 1 {
        assert(item_lines(items).drop_last() =~= Seq::<Seq<char>>::empty());
        assert forall|j: int| 0 <= j < secs.len() implies secs[j] != s by {
            assert(secs[j] == c.entries[j].0);
        }
        crate::changelog::lemma_find_section_at(secs, s, secs.len() as int);
        assert(items =~= seq![it]);
        assert(add_item(c, s, it) =~= ReleaseView { entries: c.entries.push((s, items)), ..c });
    } else {
        lemma_item_lines(st, s, c, items.drop_last());
        let c1 = ReleaseView { entries: c.entries.push((s, items.drop_last())), ..c };
        let secs1 = sections_of(c1.entries);
        assert forall|j: int| 0 <= j < c.entries.len() implies secs1[j] != s by {
            assert(secs1[j] == c.entries[j].0);
        }
        assert(secs1[c.entries.len() as int] == s);
        crate::changelog::lemma_find_section_at(secs1, s, c.entries.len() as int);
        assert(items.drop_last().push(it) =~= items);
        assert(add_item(c1, s, it) =~= ReleaseView { entries: c.entries.push((s, items)), ..c });
    }
}

/// The lines of one section block.
proof fn lemma_section_lines(st: ParseState, e: Seq<(Section, Seq<Seq<char>>)>, s: Section, c: ReleaseView)
    requires
        st.current == Some(c),
        !st.in_preamble,
        forall|j: int| 0 <= j < c.entries.len() ==> (#[trigger] c.entries[j]).0 != s,
    ensures
        run_from(st, section_lines(e, s)).current == Some(
            ReleaseView { entries: c.entries + section_entry(e, s), ..c },
        ),
        run_from(st, section_lines(e, s)).preamble == st.preamble,
        run_from(st, section_lines(e, s)).releases == st.releases,
        !run_from(st, section_lines(e, s)).in_preamble,
{
    lemma_literals();
    let i = find_section(sections_of(e), s);
    if i < e.len() && e[i].1.len() > 0 {
        let name = section_name(s);
        let h3 = "### "@ + name;
        let head: Seq<Seq<char>> = seq![seq![], h3, seq![]];
        lemma_run_from_concat(st, head, item_lines(e[i].1));
        lemma_empty_not_marker();
        crate::laws::law_section_name_roundtrip(s);
        reveal_strlit("Added");
        reveal_strlit("Changed");
        reveal_strlit("Deprecated");
        reveal_strlit("Removed");
        reveal_strlit("Fixed");
        reveal_strlit("Security");
        assert(name.len() > 0);
        assert(!is_ws(name[0]) && !is_ws(name.last()) && name[0] != '#');
        assert(h3.take(4) =~= "### "@);
        assert(h3.skip(4) =~= name);
        assert(!starts_with(h3, "## "@)) by {
            if starts_with(h3, "## "@) {
                assert(h3.take(3)[2] == h3[2]);
            }
        }
        assert(!starts_with(name, "### "@)) by {
            if starts_with(name, "### "@) {
                assert(name.take(4)[0] == name[0]);
            }
        }
        lemma_tsm_once(h3, "### "@);
        lemma_trim_id(name);
        let st1 = ParseState { section: Some(s), ..st };
        assert(head.drop_last().drop_last().drop_last() =~= Seq::<Seq<char>>::empty());
        assert(head.drop_last().drop_last() =~= seq![Seq::<char>::empty()]);
        assert(head.drop_last() =~= seq![Seq::<char>::empty(), h3]);
        let one: Seq<Seq<char>> = seq![Seq::<char>::empty()];
        assert(one.drop_last() =~= Seq::<Seq<char>>::empty());
        assert(one.last() =~= Seq::<char>::empty());
        assert(run_from(st, one.drop_last()) == st);
        assert(parse_step(st, Seq::<char>::empty()) == st);
        assert(run_from(st, one) == st);
        assert(run_from(st, head.drop_last().drop_last()) == st);
        assert(run_from(st, head.drop_last()) == st1);
        assert(run_from(st, head) == st1);
        lemma_item_lines(st1, s, c, e[i].1);
        assert(c.entries.push((s, e[i].1)) =~= c.entries + section_entry(e, s));
    } else {
        assert(c.entries + section_entry(e, s) =~= c.entries);
    }
}

/// Every entry of the normal form belongs to one of the sections it was
/// made for.
proof fn lemma_norm_entries_sections(e: Seq<(Section, Seq<Seq<char>>)>, secs: Seq<Section>, s: Section)
    requires
        !secs.contains(s),
    ensures
        forall|j: int| 0 <= j < norm_entries(e, secs).len() ==> (#[trigger] norm_entries(e, secs)[j]).0 != s,
    decreases secs.len(),
{
    if secs.len() > 0 {
        let s1 = secs.drop_last();
        assert(!s1.contains(s)) by {
            if s1.contains(s) {
                let k = choose|k: int| 0 <= k < s1.len() && s1[k] == s;
                assert(secs[k] == s);
            }
        }
        lemma_norm_entries_sections(e, s1, s);
        assert(secs.last() != s) by {
            assert(secs[secs.len() - 1] == secs.last());
        }
        let n1 = norm_entries(e, s1);
        assert forall|j: int| 0 <= j < norm_entries(e, secs).len() implies (#[trigger] norm_entries(
            e,
            secs,
        )[j]).0 != s by {
            if j < n1.len() {
                assert(norm_entries(e, secs)[j] == n1[j]);
            } else {
                assert(norm_entries(e, secs)[j] == section_entry(e, secs.last())[j - n1.len()]);
            }
        }
    }
}

/// The section blocks of a release, read back in the standard order.
proof fn lemma_block_lines(st: ParseState, e: Seq<(Section, Seq<Seq<char>>)>, k: int, c: ReleaseView)
    requires
        0 <= k <= 6,
        st.current == Some(c),
        c.entries == Seq::<(Section, Seq<Seq<char>>)>::empty(),
        !st.in_preamble,
    ensures
        run_from(st, block_lines(e, all_sections().take(k))).current == Some(
            ReleaseView { entries: norm_entries(e, all_sections().take(k)), ..c },
        ),
        run_from(st, block_lines(e, all_sections().take(k))).preamble == st.preamble,
        run_from(st, block_lines(e, all_sections().take(k))).releases == st.releases,
        !run_from(st, block_lines(e, all_sections().take(k))).in_preamble,
    decreases k,
{
    let secs = all_sections().take(k);
    if k == 0 {
        assert(block_lines(e, secs) =~= Seq::<Seq<char>>::empty());
        assert(norm_entries(e, secs) =~= Seq::<(Section, Seq<Seq<char>>)>::empty());
        assert(ReleaseView { entries: norm_entries(e, secs), ..c } =~= c);
    } else {
        let prev = all_sections().take(k - 1);
        assert(secs.drop_last() =~= prev);
        let s = all_sections()[k - 1];
        assert(secs.last() == s);
        lemma_block_lines(st, e, k - 1, c);
        lemma_run_from_concat(st, block_lines(e, prev), section_lines(e, s));
        let st1 = run_from(st, block_lines(e, prev));
        let c1 = ReleaseView { entries: norm_entries(e, prev), ..c };
        crate::laws::law_all_sections_once(s);
        assert(!prev.contains(s)) by {
            if prev.contains(s) {
                let m = choose|m: int| 0 <= m < prev.len() && prev[m] == s;
                assert(all_sections()[m] == s);
            }
        }
        lemma_norm_entries_sections(e, prev, s);
        lemma_section_lines(st1, e, s, c1);
        assert(ReleaseView { entries: c1.entries + section_entry(e, s), ..c1 } =~= ReleaseView {
            entries: norm_entries(e, secs),
            ..c
        });
    }
}

pub open spec fn with_current(rs: Seq<ReleaseView>, current: Option<ReleaseView>) -> Seq<ReleaseView> {
    match current {
        Some(r) => rs.push(r),
        None => rs,
    }
}

/// The lines of one release, read back.
proof fn lemma_release_lines(st: ParseState, r: ReleaseView)
    requires
        heading_ok(r),
    ensures
        run_from(st, release_lines(r)).current == Some(norm_release(r)),
        run_from(st, release_lines(r)).releases == with_current(st.releases, st.current),
        run_from(st, release_lines(r)).preamble == st.preamble,
        !run_from(st, release_lines(r)).in_preamble,
{
    lemma_literals();
    let h = heading_line(r);
    let b = block_lines(r.entries, all_sections());
    let hs: Seq<Seq<char>> = seq![h];
    let tail: Seq<Seq<char>> = seq![seq![]];
    assert(release_lines(r) == hs + b + tail);
    lemma_run_from_concat(st, hs + b, tail);
    lemma_run_from_concat(st, hs, b);
    assert(h.take(3) =~= "## "@) by {
        if r.version is Some {
            lemma_version_heading_line(r);
        }
    }
    if r.version is Some {
        lemma_heading_versioned(r);
    } else {
        lemma_heading_unreleased(r);
    }
    assert(hs.drop_last() =~= Seq::<Seq<char>>::empty());
    let st1 = run_from(st, hs);
    assert(run_from(st, hs.drop_last()) == st);
    assert(hs.last() == h);
    assert(st1 == parse_step(st, h));
    assert(st1.current == Some(heading_view(r)));
    assert(heading_view(r).entries =~= Seq::<(Section, Seq<Seq<char>>)>::empty());
    lemma_block_lines(st1, r.entries, 6, heading_view(r));
    assert(all_sections().take(6) =~= all_sections());
    let st2 = run_from(st1, b);
    lemma_empty_not_marker();
    assert(tail.drop_last() =~= Seq::<Seq<char>>::empty());
    assert(run_from(st2, tail.drop_last()) == st2);
    assert(tail.last() =~= Seq::<char>::empty());
    assert(run_from(st2, tail) == parse_step(st2, Seq::<char>::empty()));
    assert(run_from(st2, tail) == st2);
    assert(ReleaseView { entries: norm_entries(r.entries, all_sections()), ..heading_view(r) }
        == norm_release(r));
}

/// The lines of all releases, read back.
proof fn lemma_releases_lines(st: ParseState, rs: Seq<ReleaseView>)
    requires
        st.current is None,
        st.releases == Seq::<ReleaseView>::empty(),
        forall|i: int| 0 <= i < rs.len() ==> heading_ok(#[trigger] rs[i]),
    ensures
        with_current(run_from(st, releases_lines(rs)).releases, run_from(st, releases_lines(rs)).current)
            == rs.map_values(|r: ReleaseView| norm_release(r)),
        run_from(st, releases_lines(rs)).preamble == st.preamble,
    decreases rs.len(),
{
    if rs.len() == 0 {
        assert(releases_lines(rs) =~= Seq::<Seq<char>>::empty());
        assert(rs.map_values(|r: ReleaseView| norm_release(r)) =~= Seq::<ReleaseView>::empty());
    } else {
        let r1 = rs.drop_last();
        assert forall|i: int| 0 <= i < r1.len() implies heading_ok(#[trigger] r1[i]) by {
            assert(r1[i] == rs[i]);
        }
        lemma_releases_lines(st, r1);
        lemma_run_from_concat(st, releases_lines(r1), release_lines(rs.last()));
        assert(heading_ok(rs[rs.len() - 1]));
        let st1 = run_from(st, releases_lines(r1));
        lemma_release_lines(st1, rs.last());
        assert(r1.map_values(|r: ReleaseView| norm_release(r)).push(norm_release(rs.last()))
            =~= rs.map_values(|r: ReleaseView| norm_release(r)));
    }
}

// ---------------------------------------------------------------------------
// Plain lines
// ---------------------------------------------------------------------------

pub open spec fn all_plain(ls: Seq<Seq<char>>) -> bool {
    forall|i: int| 0 <= i < ls.len() ==> plain_line(#[trigger] ls[i])
}

proof fn lemma_all_plain_concat(a: Seq<Seq<char>>, b: Seq<Seq<char>>)
    requires
        all_plain(a),
        all_plain(b),
    ensures
        all_plain(a + b),
{
    assert forall|i: int| 0 <= i < (a + b).len() implies plain_line(#[trigger] (a + b)[i]) by {
        if i < a.len() {
            assert((a + b)[i] == a[i]);
        } else {
            assert((a + b)[i] == b[i - a.len()]);
        }
    }
}

proof fn lemma_no_newline_concat(a: Seq<char>, b: Seq<char>)
    requires
        !a.contains('\n'),
        !b.contains('\n'),
    ensures
        !(a + b).contains('\n'),
{
    if (a + b).contains('\n') {
        let k = choose|k: int| 0 <= k < (a + b).len() && (a + b)[k] == '\n';
        if k < a.len() {
            assert(a[k] == '\n');
        } else {
            assert(b[k - a.len()] == '\n');
        }
    }
}

proof fn lemma_literal_no_newline(s: Seq<char>)
    requires
        forall|i: int| 0 <= i < s.len() ==> s[i] != '\n',
    ensures
        !s.contains('\n'),
{
}

proof fn lemma_section_name_plain(s: Section)
    ensures
        !section_name(s).contains('\n'),
        section_name(s).len() > 0,
        !is_ws(section_name(s).last()),
{
    reveal_strlit("Added");
    reveal_strlit("Changed");
    reveal_strlit("Deprecated");
    reveal_strlit("Removed");
    reveal_strlit("Fixed");
    reveal_strlit("Security");
    let n = section_name(s);
    assert forall|i: int| 0 <= i < n.len() implies n[i] != '\n' by {
        match s {
            Section::Added => {},
            Section::Changed => {},
            Section::Deprecated => {},
            Section::Removed => {},
            Section::Fixed => {},
            Section::Security => {},
        }
    }
}

pub open spec fn items_ok(r: ReleaseView) -> bool {
    forall|j: int, k: int|
        0 <= j < r.entries.len() && 0 <= k < r.entries[j].1.len() ==> plain_line(
            #[trigger] r.entries[j].1[k],
        )
}

proof fn lemma_item_lines_plain(items: Seq<Seq<char>>)
    requires
        all_plain(items),
    ensures
        all_plain(item_lines(items)),
{
    lemma_literals();
    assert forall|i: int| 0 <= i < item_lines(items).len() implies plain_line(
        #[trigger] item_lines(items)[i],
    ) by {
        let it = items[i];
        assert(plain_line(it));
        assert(item_lines(items)[i] == "- "@ + it);
        lemma_literal_no_newline("- "@);
        lemma_no_newline_concat("- "@, it);
        if it.len() == 0 {
            assert("- "@ + it =~= "- "@);
        } else {
            assert(("- "@ + it).last() == it.last());
        }
    }
}

proof fn lemma_block_lines_plain(r: ReleaseView, secs: Seq<Section>)
    requires
        items_ok(r),
    ensures
        all_plain(block_lines(r.entries, secs)),
    decreases secs.len(),
{
    lemma_literals();
    if secs.len() > 0 {
        lemma_block_lines_plain(r, secs.drop_last());
        let s = secs.last();
        let e = r.entries;
        let i = find_section(sections_of(e), s);
        crate::changelog::lemma_find_section(sections_of(e), s);
        if i < e.len() && e[i].1.len() > 0 {
            let h3 = "### "@ + section_name(s);
            lemma_section_name_plain(s);
            lemma_literal_no_newline("### "@);
            lemma_no_newline_concat("### "@, section_name(s));
            assert(h3.last() == section_name(s).last());
            let head: Seq<Seq<char>> = seq![seq![], h3, seq![]];
            assert(all_plain(head)) by {
                assert forall|m: int| 0 <= m < head.len() implies plain_line(#[trigger] head[m]) by {
                    if m == 1 {
                        assert(head[m] == h3);
                    } else {
                        assert(head[m] =~= Seq::<char>::empty());
                    }
                }
            }
            assert(all_plain(e[i].1)) by {
                assert forall|k: int| 0 <= k < e[i].1.len() implies plain_line(#[trigger] e[i].1[k]) by {
                    assert(plain_line(r.entries[i].1[k]));
                }
            }
            lemma_item_lines_plain(e[i].1);
            lemma_all_plain_concat(head, item_lines(e[i].1));
        } else {
            assert(all_plain(section_lines(e, s)));
        }
        lemma_all_plain_concat(block_lines(e, secs.drop_last()), section_lines(e, s));
    }
}

proof fn lemma_heading_plain(r: ReleaseView)
    requires
        heading_ok(r),
    ensures
        plain_line(heading_line(r)),
{
    lemma_literals();
    let h = heading_line(r);
    match r.version {
        None => {
            assert(h =~= seq!['#', '#', ' ', '[', 'U', 'n', 'r', 'e', 'l', 'e', 'a', 's', 'e', 'd', ']']);
            lemma_literal_no_newline(h);
        },
        Some(v) => {
            lemma_version_heading_line(r);
            lemma_version_heading_ends(v, r.date);
            let vh = version_heading(v, r.date);
            lemma_literal_no_newline(seq!['[']);
            lemma_literal_no_newline(seq![']']);
            lemma_literal_no_newline("## "@);
            lemma_literal_no_newline(" - "@);
            lemma_literal_no_newline(" [YANKED]"@);
            lemma_no_newline_concat(seq!['['], v);
            lemma_no_newline_concat(seq!['['] + v, seq![']']);
            match r.date {
                Some(d) => {
                    lemma_no_newline_concat(" - "@, d);
                    lemma_no_newline_concat(seq!['['] + v + seq![']'], " - "@ + d);
                    assert(vh =~= seq!['['] + v + seq![']'] + (" - "@ + d));
                },
                None => {
                    assert(vh =~= seq!['['] + v + seq![']']);
                },
            }
            lemma_no_newline_concat("## "@, vh);
            if r.yanked {
                lemma_no_newline_concat("## "@ + vh, " [YANKED]"@);
                assert(h.last() == ']');
            } else {
                assert(h =~= "## "@ + vh);
                assert(h.last() == vh.last());
            }
        },
    }
}

proof fn lemma_releases_plain(rs: Seq<ReleaseView>)
    requires
        forall|i: int| 0 <= i < rs.len() ==> heading_ok(#[trigger] rs[i]) && items_ok(rs[i]),
    ensures
        all_plain(releases_lines(rs)),
    decreases rs.len(),
{
    if rs.len() > 0 {
        let r1 = rs.drop_last();
        assert forall|i: int| 0 <= i < r1.len() implies heading_ok(#[trigger] r1[i]) && items_ok(
            r1[i],
        ) by {
            assert(r1[i] == rs[i]);
        }
        lemma_releases_plain(r1);
        let r = rs.last();
        assert(heading_ok(rs[rs.len() - 1]) && items_ok(rs[rs.len() - 1]));
        lemma_heading_plain(r);
        lemma_block_lines_plain(r, all_sections());
        let hs: Seq<Seq<char>> = seq![heading_line(r)];
        let tail: Seq<Seq<char>> = seq![seq![]];
        assert(all_plain(hs));
        assert(all_plain(tail)) by {
            assert(tail[0] =~= Seq::<char>::empty());
        }
        lemma_all_plain_concat(hs, block_lines(r.entries, all_sections()));
        lemma_all_plain_concat(hs + block_lines(r.entries, all_sections()), tail);
        lemma_all_plain_concat(releases_lines(r1), release_lines(r));
    }
}

// ---------------------------------------------------------------------------
// The law
// ---------------------------------------------------------------------------

/// A preamble line that reads back unchanged and is not taken for a
/// heading, a section or an item.
pub open spec fn preamble_line_ok(l: Seq<char>) -> bool {
    &&& !(l.len() > 0 && l.last() == '\r')
    &&& not_marker(l)
}

/// What rendering and parsing need of a changelog to give it back in its
/// normal form: preamble lines that are not taken for headings, sections
/// or items and that do not end with a carriage return; headings from
/// which the version and the date can be read back; items on one line.
pub open spec fn readable(cl: ChangelogView) -> bool {
    &&& forall|i: int|
        0 <= i < preamble_lines(cl.preamble).len() ==> preamble_line_ok(
            #[trigger] preamble_lines(cl.preamble)[i],
        )
    &&& forall|i: int|
        0 <= i < cl.releases.len() ==> heading_ok(#[trigger] cl.releases[i]) && items_ok(
            cl.releases[i],
        )
}

/// Parsing the text that `render` writes gives the changelog back in its
/// normal form: a line ending closes the preamble, the unreleased block
/// loses any date or yanked mark, and each release keeps, in the standard
/// order of sections, the first entry of each section that holds items.
pub proof fn law_render_then_parse(cl: ChangelogView)
    requires
        readable(cl),
    ensures
        crate::changelog::parse_text(crate::changelog::render_text(cl)) == normalize(cl),
{
    lemma_literals();
    let p = cl.preamble;
    let pl = preamble_lines(p);
    let empty_line: Seq<Seq<char>> = seq![seq![]];
    let rl = releases_lines(cl.releases);
    let all = rendered_lines(cl);
    lemma_render_lines(cl);
    lemma_preamble_lines(p);
    // Every rendered line reads back unchanged.
    lemma_split_char_fields(norm_preamble(p), '\n');
    assert(all_plain(pl)) by {
        assert forall|i: int| 0 <= i < pl.len() implies plain_line(#[trigger] pl[i]) by {
            assert(pl[i] == split_char(norm_preamble(p), '\n')[i]);
            assert(preamble_line_ok(pl[i]));
        }
    }
    assert(all_plain(empty_line)) by {
        assert(empty_line[0] =~= Seq::<char>::empty());
    }
    lemma_releases_plain(cl.releases);
    lemma_all_plain_concat(pl, empty_line);
    lemma_all_plain_concat(pl + empty_line, rl);
    lemma_lines_of_text(all);
    // The parser's run over them.
    lemma_run_lines_from(all);
    lemma_run_from_concat(start_state(), pl + empty_line, rl);
    lemma_empty_not_marker();
    assert forall|i: int| 0 <= i < (pl + empty_line).len() implies not_marker(
        #[trigger] (pl + empty_line)[i],
    ) by {
        if i < pl.len() {
            assert((pl + empty_line)[i] == pl[i]);
            assert(preamble_line_ok(pl[i]));
        } else {
            assert((pl + empty_line)[i] =~= Seq::<char>::empty());
        }
    }
    lemma_not_marker_lines(start_state(), pl + empty_line);
    let st0 = run_from(start_state(), pl + empty_line);
    assert(st0.preamble =~= pl + empty_line);
    lemma_releases_lines(st0, cl.releases);
    let st = run_from(st0, rl);
    assert(run_lines(crate::text::lines(crate::changelog::render_text(cl))) == st);
    assert(pl + empty_line =~= pl.push(seq![]));
    lemma_join_text_of_lines(pl);
    assert(crate::changelog::parse_text(crate::changelog::render_text(cl)) =~= normalize(cl));
}

/// A changelog in normal form that can be read back is given back
/// exactly by parsing its rendered text.
pub proof fn law_render_then_parse_normal(cl: ChangelogView)
    requires
        readable(cl),
        normalize(cl) == cl,
    ensures
        crate::changelog::parse_text(crate::changelog::render_text(cl)) == cl,
{
    law_render_then_parse(cl);
}

// ---------------------------------------------------------------------------
// Rendering the normal form
// ---------------------------------------------------------------------------

proof fn lemma_find_section_concat(a: Seq<(Section, Seq<Seq<char>>)>, b: Seq<(Section, Seq<Seq<char>>)>, s: Section)
    ensures
        find_section(sections_of(a), s) < a.len() ==> find_section(sections_of(a + b), s)
            == find_section(sections_of(a), s),
        find_section(sections_of(a), s) == a.len() ==> find_section(sections_of(a + b), s)
            == a.len() + find_section(sections_of(b), s),
{
    let sa = sections_of(a);
    let sb = sections_of(b);
    let sab = sections_of(a + b);
    crate::changelog::lemma_find_section(sa, s);
    crate::changelog::lemma_find_section(sb, s);
    assert(sab =~= sa + sb);
    let i = find_section(sa, s);
    if i < a.len() {
        crate::changelog::lemma_find_section_at(sab, s, i);
    } else {
        let j = find_section(sb, s);
        assert forall|m: int| 0 <= m < a.len() + j implies sab[m] != s by {
            if m < a.len() {
                assert(sab[m] == sa[m]);
            } else {
                assert(sab[m] == sb[m - a.len()]);
            }
        }
        if j < b.len() {
            assert(sab[a.len() + j] == sb[j]);
        }
        crate::changelog::lemma_find_section_at(sab, s, a.len() + j);
    }
}

/// Where section `s` stands in the normal form of `e` built over the
/// distinct sections `secs`: the entry there is the one that `e` renders.
proof fn lemma_norm_find(e: Seq<(Section, Seq<Seq<char>>)>, secs: Seq<Section>, s: Section)
    requires
        forall|x: int, y: int| 0 <= x < y < secs.len() ==> secs[x] != secs[y],
    ensures
        ({
            let n = norm_entries(e, secs);
            let j = find_section(sections_of(n), s);
            let i = find_section(sections_of(e), s);
            if secs.contains(s) && i < e.len() && e[i].1.len() > 0 {
                j < n.len() && n[j] == (s, e[i].1)
            } else {
                j == n.len()
            }
        }),
    decreases secs.len(),
{
    let i = find_section(sections_of(e), s);
    crate::changelog::lemma_find_section(sections_of(e), s);
    if secs.len() == 0 {
        assert(norm_entries(e, secs) =~= Seq::<(Section, Seq<Seq<char>>)>::empty());
        assert(!secs.contains(s));
    } else {
        let s1 = secs.drop_last();
        let last = secs.last();
        lemma_norm_find(e, s1, s);
        let a = norm_entries(e, s1);
        let b = section_entry(e, last);
        lemma_find_section_concat(a, b, s);
        let sb = sections_of(b);
        if last == s {
            assert(!s1.contains(s)) by {
                if s1.contains(s) {
                    let m = choose|m: int| 0 <= m < s1.len() && s1[m] == s;
                    assert(secs[m] == secs[secs.len() - 1]);
                }
            }
            assert(secs[secs.len() - 1] == s);
            assert(secs.contains(s));
            if i < e.len() && e[i].1.len() > 0 {
                assert(b == seq![(s, e[i].1)]);
                assert(sb[0] == s);
                crate::changelog::lemma_find_section_at(sb, s, 0);
                assert((a + b)[a.len() as int] == b[0]);
            } else {
                assert(b =~= Seq::<(Section, Seq<Seq<char>>)>::empty());
                assert(sb =~= Seq::<Section>::empty());
            }
        } else {
            assert(secs.contains(s) == s1.contains(s)) by {
                if secs.contains(s) {
                    let m = choose|m: int| 0 <= m < secs.len() && secs[m] == s;
                    assert(m < secs.len() - 1);
                    assert(s1[m] == s);
                }
                if s1.contains(s) {
                    let m = choose|m: int| 0 <= m < s1.len() && s1[m] == s;
                    assert(secs[m] == s);
                }
            }
            let j = find_section(sections_of(a), s);
            crate::changelog::lemma_find_section(sections_of(a), s);
            if j < a.len() {
                assert((a + b)[j] == a[j]);
            } else {
                assert forall|m: int| 0 <= m < sb.len() implies sb[m] != s by {
                    assert(sb[m] == b[m].0);
                }
                crate::changelog::lemma_find_section_at(sb, s, sb.len() as int);
            }
        }
    }
}

/// The sections render alike in an entry list and in its normal form.
proof fn lemma_norm_blocks(e: Seq<(Section, Seq<Seq<char>>)>, secs: Seq<Section>)
    ensures
        section_blocks(norm_entries(e, all_sections()), secs) == section_blocks(e, secs),
    decreases secs.len(),
{
    if secs.len() > 0 {
        lemma_norm_blocks(e, secs.drop_last());
        let s = secs.last();
        crate::laws::law_all_sections_once(s);
        let all = all_sections();
        assert(all.contains(s)) by {
            let m = choose|m: int| 0 <= m < 6 && all[m] == s;
        }
        lemma_norm_find(e, all, s);
        let n = norm_entries(e, all);
        crate::changelog::lemma_find_section(sections_of(n), s);
        crate::changelog::lemma_find_section(sections_of(e), s);
        assert(section_block(n, s) == section_block(e, s));
    }
}

proof fn lemma_norm_release_text(r: ReleaseView)
    ensures
        release_text(norm_release(r)) == release_text(r),
{
    lemma_norm_blocks(r.entries, all_sections());
    assert(heading_line(norm_release(r)) == heading_line(r));
}

proof fn lemma_norm_releases_text(rs: Seq<ReleaseView>)
    ensures
        releases_text(rs.map_values(|r: ReleaseView| norm_release(r))) == releases_text(rs),
    decreases rs.len(),
{
    if rs.len() > 0 {
        lemma_norm_releases_text(rs.drop_last());
        lemma_norm_release_text(rs.last());
        assert(rs.map_values(|r: ReleaseView| norm_release(r)).drop_last() =~= rs.drop_last().map_values(
            |r: ReleaseView| norm_release(r),
        ));
    }
}

/// A changelog and its normal form have the same text.
pub proof fn law_render_normal_form(cl: ChangelogView)
    ensures
        crate::changelog::render_text(normalize(cl)) == crate::changelog::render_text(cl),
{
    lemma_norm_releases_text(cl.releases);
}

/// Writing out again a changelog that was read from the text this library
/// wrote reproduces that text exactly.
pub proof fn law_rewrite_is_stable(cl: ChangelogView)
    requires
        readable(cl),
    ensures
        crate::changelog::render_text(crate::changelog::parse_text(crate::changelog::render_text(cl)))
            == crate::changelog::render_text(cl),
{
    law_render_then_parse(cl);
    law_render_normal_form(cl);
}

} // verus!
