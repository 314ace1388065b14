//! The git pre-commit hook that runs the assistant.

use vstd::prelude::*;
use crate::text::push_str;

verus! {

/// `s` with every backslash turned into a forward slash.
pub open spec fn forward_slashes(s: Seq<char>) -> Seq<char> {
    s.map_values(|c: char| if c == '\\' { '/' } else { c })
}

/// The hook script: a shell script that runs the program `bin` on the
/// changelog `file`.
pub open spec fn hook_script_text(bin: Seq<char>, file: Seq<char>) -> Seq<char> {
    "#!/usr/bin/env sh\n\""@ + forward_slashes(bin) + "\" --file \""@ + file + "\"\n"@
}

/// The text of the pre-commit hook for the program at `bin_path` and the
/// changelog `changelog_file`.
pub fn hook_script(bin_path: &str, changelog_file: &str) -> (s: String)
    ensures
        s@ == hook_script_text(bin_path@, changelog_file@),
{
    let mut out: Vec<char> = Vec::new();
    push_str(&mut out, "#!/usr/bin/env sh\n\"");
    let ghost head = out@;
    for c in it: bin_path.chars()
        invariant
            out@ == head + forward_slashes(it.seq().take(it.index() as int)),
    {
        let ghost before = it.seq().take(it.index() as int);
        out.push(if c == '\\' {
            '/'
        } else {
            c
        });
        assert(forward_slashes(it.seq().take(it.index() + 1)) =~= forward_slashes(before).push(
            if c == '\\' {
                '/'
            } else {
                c
            },
        ));
    }
    push_str(&mut out, "\" --file \"");
    push_str(&mut out, changelog_file);
    push_str(&mut out, "\"\n");
    assert(out@ =~= hook_script_text(bin_path@, changelog_file@));
    crate::text::to_string(out.as_slice())
}

} // verus!
