# monitoro

Discovery and inventory of the local network: which machines answer, who made
them, what they are called, and which of their ports are open.

- `src/` is the library, written in Verus. Every decision stands there with its
  contract: reading targets, telling what an answer means, merging
  observations, driving a scan, sorting and filtering, composing the table, the
  report and the screen.
- `app/` is the program around it: arguments, sockets, name resolution, the
  terminal and the files.
- `tests/` runs the library.

The engine touches neither the network nor the clock. `Scan::next_step` says
what to do next; the program does it and reports what came of it. The functions
named `law_..` state what holds of several functions together.

The manufacturers come from the registry that the IEEE publishes. The program
carries it: the text in `app/registry.rs` is compiled into the binary, and
nothing is read or fetched when it runs. The text there is a short excerpt in
the published form; to know all manufacturers, put the published one in its
place and build again.
