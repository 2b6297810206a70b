# comrak

The block parser for CommonMark and GitHub Flavored Markdown, with footnotes, tables, task lists,
description lists and front matter, written and verified in Verus.

`parse_document` cuts a text into lines and turns them into a tree of blocks. Inlines come from an
implementation of `InlineParser`, which the caller supplies. It gets the text of every block that
holds inlines, with the options, the references that the document defines and the callback for
labels that are not defined. An implementation can state which inlines it may find in which texts
(`finds`), and a callback which answers it may give (`answers`). The contracts tie the tree to
these relations, and hold whatever they are.

## Layout

- `src/`: the library.
  - `document`, `feeding`, `pieces`, `lines`: whole documents, and how text is cut into lines.
  - `matching`, `starts`, `opening`, `adding`: what a line is to the open blocks, which blocks it
    opens, and where its text goes.
  - `cursor`, `prefixes`, `markers`, `scanners`: what is in a line.
  - `blocks`, `closing`, `descriptions`, `table`, `table_blocks`, `tree`, `nodes`: the blocks.
  - `references`, `labels`, `entity`, `strings`, `front`, `text`: texts and what is in them.
  - `inlines`, `joining`, `postprocess`, `footnotes`, `walking`: what happens once all blocks are
    closed.
  - `keeping`, `nesting`, `listing`: laws on what reading a document keeps, and where blocks go.
  - `independence`, `mark`: laws on what the tree of a document does not depend on.
- `tests/`: tests that run the library.
- `app/`: closures as callbacks, options for fuzzing, and plugins for formatters.

Proof functions whose names start with `law_` state what holds of the library as a whole.
