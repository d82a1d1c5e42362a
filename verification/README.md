# Simple PDF Viewer

A focused PDF reader for the desktop. It provides single-page and continuous reading, direct page
navigation, zoom controls, text highlights with attached notes, internal-link previews, and
Back/Forward navigation after following references.

The logic of the reader is a library that is verified with Verus. The window and the page renderer
are ordinary Rust around it.

## Layout

- `src/` is the verified library. It does no input or output: every function takes plain values and
  says what is to be done.
  - `float` does floating-point arithmetic on bit patterns, stated over exact rational numbers.
  - `text` and `path` handle text and file paths.
  - `annotations` keeps highlights and notes, and decides how they are saved.
  - `fingerprint` identifies documents by the hash of their bytes.
  - `pdf`, `links` and `render` decide what the page renderer does.
  - `geometry` places pages on the screen, and `budget` shows that their pictures are never too
    large.
  - `viewer` is the state of the window: how it answers the user and the page renderer.
- `app/` holds the window (eframe/egui), the rendering thread (Poppler and Cairo), and the sidecar
  file on the disk.
- `tests/` runs the library on concrete values.

Numbers of the screen and of documents cross into the library by their bits (`Real32`, `Real64`),
and times as nanoseconds on one clock.

## Controls

| Action | Control |
| --- | --- |
| Open PDF | `Ctrl+O` |
| Previous / next page | `Left Arrow` / `Right Arrow` |
| Scroll up / down | `Up Arrow` / `Down Arrow` |
| Previous / next page | `Page Up` / `Page Down` |
| First / last page | `Home` / `End` |
| Return after following a reference | `Alt+Left` or **Back** |
| Go forward again | `Alt+Right` or **Forward** |
| Zoom | `Ctrl+mouse wheel`, `Ctrl++`, or `Ctrl+-` |
| Reset zoom | `Ctrl+0` |
| Reading layout | **Single** / **Continuous** in the toolbar |

Highlights and notes are saved automatically beside the document as `<document>.pdf.spv.json`; the
document itself is never changed.

## Requirements

Poppler GLib and Cairo development files, and `pkg-config`.
