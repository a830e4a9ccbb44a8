# textream

The logic of a teleprompter desktop application, verified with Verus.

A script is a list of pages. The current page is split into words (every
CJK character is a word of its own), each word gets its character offset in
the space-joined text, and a reading position moves through that text: by
speech recognition, by a timer, by jumping, or by a remote "director" who
edits the script from a browser. Scripts are saved as JSON lists of pages,
and presenter notes can be taken from PowerPoint files.

## Layout

- `src/` — the verified library.
  - `text.rs`: word splitting, trimming, annotations, character offsets of
    words, reading progress, normalising text for speech matching.
  - `reading.rs`: the reading state, its invariant, and every operation on
    it (set pages, start, stop, next page, jump, timer progress, director
    text), plus the views shown to the browser remote and the director.
  - `speech.rs`: matching recognised speech against the script, speech
    backends and their state.
  - `director.rs`: director commands and authentication, the token, the
    pages served to the director and the browser remote.
  - `pptx.rs`: presenter notes from a `.pptx` archive (entry selection,
    stable ordering by slide number, the notes XML).
  - `documents.rs`: document kinds and the `.textream` JSON format.
  - `updates.rs`: version comparison and the update status.
  - `numbers.rs`, `models.rs`, `shell.rs`: number parsing, the shared data
    types, and the menu and overlay tables.
- `tests/` — tests run against the compiled library.
- `app/` — the desktop shell: window, menus, commands, files, settings on
  disk, network servers and threads, and everything in floating point.

Contracts are stated over `Seq`, `int` and the views of the library's
types; calls into `rand`, `roxmltree`, `zip`, `serde_json` and parts of std
go through small trusted wrappers whose doc comments say what is assumed.
