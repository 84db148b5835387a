# clh_client

Client for a shell command-history server: records every command, and lets
you fuzzy-search the history and paste a command back into the prompt.

The library (`src/`) holds the logic, verified with Verus:

- `text` — layout of the preview line: wrapping a command into lines that fit
  the preview window, counted in UTF-8 bytes, never cutting a character.
- `history` — history records, de-duplication by command (streamed page by
  page), the preview text, and the records a deletion removes.
- `client` — the requests sent to the server: the record form, the page
  queries, credentials, the `X-Total-Count` header and pagination.
- `add` — ignore patterns for `clh add`.
- `search` — what follows each finder session (print, stop, delete and reopen).
- `setup` — shells, shell detection and the integration scripts.
- `config` — the configuration and its defaults.

`app/` is the command-line program around it: argument parsing, the config
file, HTTP, the terminal finder and printing.
