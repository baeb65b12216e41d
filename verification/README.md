# strata

The release-update logic of the Strata file manager and the table/media helpers
of its preview pane, as a Verus-verified library.

- `src/text.rs` — character-level string work: escaping Pango markup, Unicode
  trimming, prefixes, decimal rendering.
- `src/version.rs` — reading `major.minor.patch` versions the way `str::split`
  and `str::parse::<u64>` do, and the newer-than order with its laws.
- `src/markdown.rs` — Markdown release notes to inert Pango markup; parsing is
  done by pulldown-cmark behind one trusted wrapper, the rendering is verified.
- `src/release.rs` — release metadata, archive and page addresses, request
  failures, and the decisions of the update check and the release-notes lookup.
- `src/preview.rs` — CSV tables, SQLite column affinities, table cells and
  badges, media clock texts and the initial preview width.
- `app/lib.rs` — the GitHub API requests (ureq, serde) and the worker threads.
