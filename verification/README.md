# ccvl

The checked core of ccvl, a local-first CV and application workspace. The
rules of the workspace are verified functions with contracts:

- `src/` — the library, verified with Verus: workspace paths, downstream
  boundaries, application line contracts, the JSON Schema subset, document
  specifications, metric sets, skill manifests and the evaluation of model
  decisions, PDF parsing (through `lopdf`), release checks and semantic
  signatures, repository hygiene
  and the publication boundary, and what the commands decide.
- `tests/` — tests of the library on concrete values.
- `app/` — the command line around the library: argument handling, the file
  system, Git, the embedded Typst engine and the model provider.

The file system, the engine and the provider answer questions; the library
decides what the answers mean. Where an answer is a floating-point judgement
(the fill of a measured line, the size of a page), the command line makes it
and hands the library the result.
