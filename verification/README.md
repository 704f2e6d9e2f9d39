# raidhub_companion

The core of the Raidhub companion, verified with Verus: it reads and writes
World of Warcraft SavedVariables files (a restricted Lua subset), extracts the
GDKP ledgers that the Gargul addon keeps, builds the BiS list file that the
CharTracker addon reads and collects the items marked obtained in it, and
decides what the companion's commands do with the website's replies.

Layout:

- `src/text.rs`, `src/value.rs`: characters, decimal numerals, substring
  search; the values of a SavedVariables file and their ordered tables.
- `src/lua_parser.rs`, `src/lua_writer.rs`: the reader and the writer, each
  stated by spec functions over the text.
- `src/laws.rs`, `src/reader_laws.rs`: what a written value reads back as;
  that every table read has its keys in ascending order.
- `src/sorting.rs`: a stable sort by rank.
- `src/gargul.rs`, `src/bis.rs`: GDKP sessions; the BiS file and its updates.
- `src/app_state.rs`, `src/api.rs`, `src/commands.rs`, `src/wow.rs`,
  `src/watcher.rs`: the companion's state and log, the website's replies and
  errors, and the decisions of its commands.
- `app/`: HTTP calls, files, the WoW folder and the folder watcher, around the
  verified core.
- `tests/`: the behaviour on concrete inputs.
