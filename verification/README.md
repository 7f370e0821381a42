# auto-memories

A terminal browser and editor for a coding assistant's auto-memory files
(`<config-dir>/projects/*/memory/*.md`), with its logic verified by Verus.

## Layout

| Path | Job |
| --- | --- |
| `src/text.rs` | Character-level text model (`Seq<char>`) and the executable text utilities |
| `src/memory.rs` | Frontmatter splitting and parsing, project labels, assembling a scan into a library |
| `src/mutate.rs` | Retyping, the `MEMORY.md` index text, slugs, new-memory template, backup names |
| `src/display.rs` | Index-line parsing, UTC dates, scope statistics |
| `src/app.rs` | Browser state, selection and filtering |
| `src/keys.rs` | What each key does in each mode, and the disk work it asks for |
| `src/screen.rs` | What each pane shows, as plain values: type tones, the index ledger, rows, titles, detail, status line, statistics strip |
| `src/steps.rs` | The ordered disk steps of each mutation, each file or index backed up before it changes |
| `src/laws.rs` | Properties across operations (round trips, read-backs, invariants) |
| `app/` | The terminal program: scanning the disk, file writes, turning tones and lines into widgets, `$EDITOR` |
| `tests/` | Examples and edge cases for the library |

The program takes the assistant's configuration directory as its first
argument (or from `AUTO_MEMORIES_DIR`).
