# trellis

The verified core of Trellis, a canvas notes application: the rules it
applies to text, names, backups, version history, journal import and the
agent API's addresses, each stated as a Verus contract and proved.

## Layout

- `src/` — the library, verified with Verus.
  - `text.rs` — Unicode whitespace, trimming, decimal digits, line splitting.
  - `order.rs` — code-point order on names and a sort that realises it.
  - `civil.rs` — calendar dates of day counts, with their ordering and validity.
  - `palette.rs` — typed ids, fuzzy ranking and row labels.
  - `switcher.rs` — the quick switcher's rows: id hits first, then ranked titles.
  - `names.rs` — window titles, download and export names, themes, panels,
    project colours.
  - `backup.rs` — backup settings, planning a run, stamps, retention.
  - `history.rs` — version snapshots and the document file's encoding.
  - `journal.rs` — importing a plain-text journal as dated entries and
    their cards.
  - `access.rs` — the API key and the addresses the API is offered on.
  - `links.rs` — links to cards and groups, the page a browser shows for
    one, the document check on an open request, the desktop handler entry
    for `trellis://` links and when startup installs it.
  - `capture.rs` — screen-capture outcomes and PNG encoding.
  - `session.rs` — startup overrides and which document a start opens,
    token scopes, template masters.
  - `grants.rs` — plugin and agent token grants: minting, lookup, revoking.
  - `undo.rs` — which canvas edits take an undo step, and the bounded
    undo and redo history.
  - `laws.rs` — properties that span functions or hold of every input.
- `tests/` — tests of the library on concrete values.
- `app/` — a command-line front end that does the reading, writing,
  probing and running of external tools around the library.
