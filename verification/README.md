# miyu-pm

A package manager for third-party miyu extensions: MCP servers, skills and
scripts, found in a JSON registry index and installed under `~/.miyu`.

The decisions are a Verus-verified library (`src/`):

- `paths` — the directory layout, Unix path joining and component-wise
  prefix tests, and the checks that guard every deletion;
- `placeholder` — `{root}`, `{env:VAR}` and `{user:VAR}` resolution in MCP
  commands, arguments and environment values, with its warnings;
- `config` — registering and unregistering servers in the `mcp.servers`
  list of miyu's `config.jsonc`, leaving hand-written entries alone;
- `registry`, `state`, `source` — package lookup and search, the installed
  records, the stored registry sources;
- `version` — the order of versions that `outdated` reports by;
- `actions` — install plans, removal targets, upgrade methods, audit
  reports, doctor findings and self-update release selection;
- `json`, `text`, `types`, `error` — the values they work on.

`app/` is the command-line program around it: argument parsing, the files,
`git`, `curl` and `sh`. `tests/` runs the library on concrete values.
