# keepachangelog

An interactive assistant for `CHANGELOG.md` files in the Keep a Changelog
format, meant to run as a git pre-commit hook. The library is verified with
Verus; the command-line program around it is ordinary Rust.

Layout:

- `src/text.rs` — the `str` operations the format is built on (`lines`,
  `trim`, `split`, `replace`, `parse::<u32>`, ...), modelled over `Seq<char>`
  and implemented against that model.
- `src/changelog.rs` — sections, releases and changelogs with their views;
  the parser (`Changelog::parse`) and the renderer (`Changelog::render`).
- `src/flow.rs` — the decisions of the interactive session: menu choices,
  answer checks, the suggested version, adding an entry, cutting a release.
- `src/display.rs` — the terminal listings, as the text that is printed.
- `src/hook.rs` — the text of the git pre-commit hook.
- `src/laws.rs`, `src/roundtrip.rs` — properties of the library as a whole,
  among them that parsing the rendered text gives the changelog back in
  normal form, and that rewriting a file the tool wrote changes nothing.
  The round trip asks of each versioned heading that its lower-case form
  does not contain `unreleased`. For an ASCII heading that lower-case form
  is stated (each `A`..=`Z` becomes `a`..=`z`); for a heading with other
  characters it is what `str::to_lowercase` returns, which is named but not
  written out, so there the premise rests on that function.
- `app/` — the program: argument parsing, prompts, file access and the
  terminal handling of the hook.
- `tests/` — tests on concrete values.
