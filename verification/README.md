# easysql

`esql` opens saved database connections (postgres, mysql, sqlite, SQL
Server) in each engine's own client, keeping every connection, password
and tunnel in the files those clients already read.

This crate is written in Verus. The logic is verified against contracts:

- `src/` is the library. It holds the INI reader and writer, the
  connection stores per engine, `.pgpass` and `.my.cnf` editing, the
  remembered ssh forwards, the settings file, connect history, saved
  queries, the argv that a connect runs, the classification of a failed
  connect, and the toolbox's key handling, forms and panes. Each public
  function states its result over spec functions. The laws that relate
  several calls (what a write reads back as, what an edit leaves alone,
  what one key undoes of another) are public proof functions named
  `lemma_*`.
- `app/` is the thin program around it: argument parsing, reading and
  writing files, running the client. It carries `esql ls` and the connect
  itself. The interactive toolbox (what `esql` with no arguments opens) and
  the `self` subcommand are not part of this build: running `esql` bare says
  so and exits 1. The toolbox's keys, forms and panes are in `src/`,
  verified, but no terminal front end drives them here.
- `tests/` runs the library on concrete values.

The only outside crate that `src/` calls is `dirs`, for the home, config
and state directories. Those calls sit behind small trusted wrappers, and
the contract of each wrapper says what it claims of the call.
