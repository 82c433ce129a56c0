# ffs_cli

File search and code navigation, verified with Verus: what `grep`, `glob` and
the tool server of `ffs` decide and compute.

- `src/` is the library. Everything in it is verified; what it takes from
  `memchr`, `regex`, `globset`, `aho-corasick`, `zstd` and the standard library
  is declared next to where it is used, with what is claimed of it.
- `app/` is ordinary Rust around the library: arguments, the file system,
  threads, standard input and output, serialization. The search, symbol and
  budget engines are reached through the traits in `app/toolkit.rs`.
- `tests/` runs the library.

## Where to look

| Module | What it holds |
| --- | --- |
| `commands::grep` | a search from arguments to answer |
| `matcher`, `bytes`, `stream` | literals and regular expressions in bytes |
| `newlines`, `rows`, `search` | from matches to lines with context |
| `hits`, `pages`, `walks`, `render` | collecting, sorting, paging, showing |
| `globs`, `paths`, `path_table` | which files a search looks at |
| `bigram`, `prefilter` | which files a search need not read |
| `outline`, `grouped` | matches by enclosing definition |
| `cache` | the `.ffs` directory |
| `commands::glob` | files by pattern |
| `commands::mcp`, `tools`, `calls`, `json` | the tool server's protocol |
| `line_search`, `multi_search`, `callees`, `tree`, `sections`, `file_map`, `tally`, `answers`, `replies` | what its tools compute and answer |

## What holds of the whole

Proof functions named `law_..` state what relates several functions. Among them:

- `law_index_changes_nothing`: a search finds the same with the bigram index as
  without it, however old the index is.
- `law_unknown_files_survive`: a file that could not be read for the index is
  always among those that may hold a pattern.
- `law_untruncated_answer_is_whole`: an answer is marked as truncated if and only
  if there are more hits; one that is not counts every hit in every file.
- `law_pages_follow`: pages that follow each other give the whole list.
- `law_inverted_rows_are_the_others`: a search and its inverse share the lines
  of a file between them.
- `law_groups_hold_every_match` and `law_groups_span_their_matches`: grouping by
  definition loses no match, and puts each into a definition that spans it.
- `law_refresh_misses_no_change`: a file that has changed since it was indexed is
  parsed again or dropped.
- `law_impact_is_ranked`: the files that a change affects come in the order of
  how much they are affected.

Loading what was written to the cache gives it back; that is part of the
contracts of `CacheDir::write_symbol_index` and `CacheDir::write_bigram_index`.
