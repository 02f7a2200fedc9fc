# rest_client

A verified library for `.http` request files, with the language server and
editor extension around it.

- `src/` is the library, written in Verus: the `.http` parser, variable
  resolution (file, environment, system and response variables), cURL import
  and export, code snippets (Python, JavaScript, Go), basic-auth encoding,
  environments, request history, the environment-variable allowlist, the
  workspace check for file paths, warnings for requests to local or private
  hosts, and the editor-facing decisions of the server and the extension.
  Verus proves every function's contract, except those of the small
  trusted functions that call `std`, `serde_json` or the file system,
  whose contracts are believed as their documentation states them.
- `tests/` exercises the library on concrete inputs.
- `app/` is the program around it: the language server loop (tower-lsp,
  tokio), sending requests (reqwest), reading settings and history (serde),
  and the Zed extension glue.

Values that the outside world decides (the clock, random seeds, the file
system) come in through small trusted functions whose contracts say only
what holds of every outcome; the library's own logic is verified for every
such outcome. What `serde_json` and `str::to_uppercase` compute from a text
is given a name, a function of that text alone, and the library's contracts
say exactly where those results go.
