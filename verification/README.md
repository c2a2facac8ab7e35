# circuit_lab

The logic of a circuit-simulation lab program, verified with Verus.

A lab is written in a small markup (`#Section`, `#Header`, `#Text`, `#Question`,
`#AnswerCorrect`, `#AnswerWrong`, `#Image`, `//` comments). The library parses it into
sections, checks which images exist, and builds the panels the student pages through.
Around that sit the file formats the program writes (packed panel files, BMP files), the
bitmap operations, density-based clustering used by the image analysis, the text-box
editing logic, the question-answering steps, the circuit topology, the orientation of circuit edges
and the keyboard tables of the three operating-system layers.

Layout:

- `src/lab_parser.rs` — the lab markup: specification of the format and the parser.
- `src/lab_case.rs` — why letter case outside the text taken as content does not matter to the parse.
- `src/panels.rs` — panels built from parsed sections and loaded images.
- `src/quiz.rs` — answering a question frame by frame: picks, chances, feedback.
- `src/topology.rs` — the topology of a circuit: kept nodes, the walk that pairs each
  reached element with an entry and an exit node.
- `src/incidence.rs` — orienting the edges of a circuit's node-element incidence matrix.
- `src/dbscan.rs` — DBSCAN over positions on one axis, with its full contract.
- `src/bitmap.rs` — bitmaps, decoded-image conversion, painting, BMP bytes.
- `src/panel_file.rs` — the packed panel-file container.
- `src/text_box.rs` — text-box editing.
- `src/input.rs` — mouse and keyboard state, key-code tables.
- `src/tiny_string.rs`, `src/compression.rs`, `src/debug_tools.rs`, `src/devices.rs`,
  `src/image_analysis.rs`, `src/ui.rs` — smaller pieces.
- `tests/` — tests run against the compiled library.
- `app/` — a command-line front end: file input and output, the C libraries for
  compression and image decoding, and the floating-point numerics.
