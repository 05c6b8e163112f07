# dblite

A small in-memory relational database, written in Verus. Its shell reads
short commands (`create users id name age`, `insert users 1 Ana 30`,
`select users`) as well as SQL (`CREATE TABLE`, `INSERT INTO`, `SELECT`).

- `src/lexer.rs`, `src/parser.rs`: text to tokens to statements, each
  specified by spec functions over character and token sequences. A line
  in the shape of a short command is read as the statement it stands for
  (a short `create` declares its columns as `TEXT`; a table keeps only
  column names). `src/lexer_laws.rs` proves that texts joined by a space
  lex to their tokens joined; `src/parser_laws.rs` that a statement written
  out as tokens parses back to itself, that tokens after a statement ending
  in `;` are refused, and that a cursor walks its tokens in order.
- `src/command.rs`, `src/session.rs`: the shell's short commands and one
  line of the shell, parsed and run.
- `src/table.rs`, `src/database.rs`: tables (every row has one value per
  column, a type invariant) and the catalog, which keeps each table under
  the name it was created under and finds it by that name (no name twice,
  a type invariant).
- `src/executor.rs`: `CREATE TABLE`, `INSERT` and `SELECT` against a
  database, specified by `execute_spec`, with laws on refused statements,
  on tables staying under their own names and on what `SELECT *` returns.
- `src/storage.rs`, `src/storage_laws.rs`, `src/truncation.rs`: the binary
  format, its encoder and decoder. Decoding what was encoded gives back the
  same tables when each is kept under its own name and every count and
  length fits its 32-bit field; any proper prefix of such
  an image is refused as ending too early.
- `app/`: the interactive shell and writing files to disk.
