# Paladin Commenter

Splits a Rust source file into chunks along its syntax tree, sends the chunks to a local
Ollama model, and writes a report on the answers or a commented copy of the source. Whole
functions, impl blocks, structs and other items stay together; a block that is too large is
taken apart into the blocks in it, and kept whole if there are none, instead of being cut at
some character.

The library under `src/` is verified with Verus. The program under `app/` does what touches
the outside: arguments, files, HTTP, logging, JSON.

## Modules

| Module | What it holds |
| --- | --- |
| `text` | trimming, lines, slices by byte offset, decimal and hexadecimal notation |
| `order` | stable ordering by a key |
| `chunk_kind` | the kinds of chunks and their names |
| `syntax` | syntax trees as lists of nodes, and the tree-sitter parser |
| `chunker`, `chunk_laws` | splitting a source, and what holds of every split |
| `rewrite`, `rewrite_laws` | checking generated code, splicing it in, and what that keeps |
| `prompt`, `prompt_laws` | the wording of the prompts, and what holds of every prompt |
| `report` | the wording of reports and listings |
| `runlog` | the log of a run |
| `cache` | names, contents and age of cached responses |
| `ollama` | requests to the server and the reading of its replies |
| `cli` | the options and the decisions that follow from them |
| `generation` | cache, requests and retries for one chunk, as a state machine |
| `session`, `session_laws` | what a run records, and what holds from chunks to copy |

## What is proved

- The chunks of a source are in order, do not overlap and leave out nothing but whitespace.
- Every block that fits the limit or has no inner block lies whole in one chunk; one without
  inner blocks that exceeds the limit is a chunk of its own kind. A chunk above the limit is
  such a block, code between blocks, which holds no block, or a source without blocks.
- The line numbers of a chunk are those of the lines on which it starts and ends.
- No two neighbouring chunks could still be merged.
- Only validated answers replace code, and the order in which they are spliced in does not
  depend on the order in which they came. A chunk without a replacement stands unchanged in the
  copy, and replacements can always be spliced in.
- A cached response is given back until its time to live has passed.
- Each profile gives its own prompt, and a commenting prompt adds no fence to the code.
- The model is asked once, and again for each failure while retries are left.

## What is trusted

`String::push`, the SHA-256 digest of `sha2` and the parser of `tree-sitter` with the grammar
of `tree-sitter-rust`. Of the parser it is claimed that what it yields is an outcome that it
can come to for the text it was given, and the only one if the text is ASCII; what it makes of
other texts depends on the locale. The list of nodes
that the parser yields is checked to form a tree over the source, with the right line numbers,
before it is used.
