# jsondepnet

A cacheable dependency graph for Jsonnet files: which files a file imports
(directly or not), and which files import it.

- `src/` is the library, written in Verus and verified: root-relative paths
  and their lexical rules, the cache and its on-disk record, the forward and
  reverse graph with its closure and tree queries, the rendering of results,
  and the decisions of the `cache`, `list` and `tree` subcommands.
- `app/` is the command line around it: argument parsing, the directory
  walk, reading and parsing Jsonnet sources, JSON (de)serialisation and the
  file system.
- `tests/` exercises the library on concrete values.
