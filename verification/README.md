# codex_toolkit

A desktop companion for OpenAI Codex: it points Codex at a relay endpoint,
edits the MCP servers, skills and plugins of Codex's `config.toml`, moves
the session history between providers, shows token usage, runs a local
router that speaks the Responses API to Codex and Chat Completions to the
upstream, and unlocks the plugin page of the Codex app.

## Layout

- `src/` is the verified library (Verus). Each module states its behaviour
  in `requires`/`ensures` over mathematical models and proves it:
  - `text`, `json`, `toml_doc`: text, JSON trees and TOML documents
    (`toml_edit` behind trusted wrappers whose contracts are stated over the
    documents' slots).
  - `relay_config`: relay settings, their validation, and the relay's entry
    in `config.toml`.
  - `context_config`: listing, adding, switching and deleting context
    entries.
  - `history_sync`, `history_files`: provider counts, summaries, the
    desktop state merge, session metadata and backup records.
  - `usage`: token events, hourly and daily buckets, provider totals.
  - `local_router`, `router_stream`, `router_http`: request and response
    conversion, the streamed event conversion, and HTTP framing.
  - `plugin_unlock`: DevTools target choice, command lines, CDP messages,
    and the unlock's steps.
  The `law_*` proof functions state properties that span several functions
  (for instance, that streaming and batch parsing of inline reasoning agree,
  or that clearing the relay after applying it restores the official
  route).
- `app/` is the unverified shell: files, processes, sockets, SQLite,
  WebSockets and the serialisable copies of the library's types.
- `tests/` runs the library on concrete values.
