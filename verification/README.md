# pytest_fixtures_lsp

A language server that offers pytest fixtures for completion and hover in
test files. The logic is a verified library; the server itself is a thin
program around it.

- `src/text.rs`: the character model of the `str` operations used (`trim`,
  `lines`, `find`, path joining), with proved implementations.
- `src/fixtures.rs`: the parser of `pytest --fixtures -q` output and the
  return-type extraction from docstrings, with the laws of the parse.
- `src/parse_laws.rs`: laws that relate parses of different texts: lines
  that carry nothing are skipped, and a listing cut at a fixture line parses
  as its two parts.
- `src/runner.rs`: the pytest runners (uv, poetry, pipenv, venv, system) and
  the order in which they are chosen.
- `src/cache.rs`: cache directory and file names, the choice of cache files
  to load, and the merge of cached lists.
- `src/server.rs`: document paths, test-file detection, the word under the
  cursor, hover and completion texts, and the steps of the package search.
- `app/`: the language server: LSP plumbing, file system, the pytest
  process and the JSON cache files.
- `tests/`: tests of the library.
