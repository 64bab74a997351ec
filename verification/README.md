# markdown_blocks

Verified building blocks for a Markdown toolchain with Obsidian and CodeHike
extensions and incremental, block-level HTML rendering.

- `src/configuration.rs`: construct presets (`CommonMark`, GFM, MDX, Obsidian,
  CodeHike), parse and compile options, and their debug text.
- `src/construct/`: the Obsidian constructs (wikilinks, embeds, comments,
  highlights, block ids, callouts) as state machines over bytes.
- `src/tokenizer.rs`, `src/state.rs`: the tokenizer those machines drive, and
  the runner, whose result is a run of the machines.
- `src/code_hike_blocks.rs`: the CodeHike transform of decorated headings,
  paragraphs, images and code.
- `src/incremental/`: source edits, block identities and fingerprints, parser
  checkpoints, definitions, block alignment, HTML assembly and block patches;
  the reparse window (`reparse.rs`), the persistent renderer (`renderer.rs`)
  and the syntax-tree session (`ast_session.rs`), with the proof that block
  placement survives every edit (`placement.rs`). These decide what to parse,
  what to compile and what to keep; parsing and compiling are handed in.
- `src/util/`: identifier normalization and text helpers.
- `app/`: serde-ready copies of the wire types of incremental rendering, and
  the open and apply loops that drive the renderer and the session with a
  parser and an HTML compiler given by the caller.
