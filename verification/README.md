# nail-agent

An ACP agent for Zed and other ACP clients, with a bundled filesystem tool
server (`octofs`) and an MCP tool proxy. The decisions the agent makes are a
verified library; the process around them (stdio transport, model endpoint,
MCP connections, files and the session store) is ordinary Rust.

## Layout

- `src/` is the library, verified with Verus. Each module states what its
  functions do in `requires`/`ensures` over spec functions and views, and
  keeps the laws that relate several functions as public proof functions.
  - `proto`, `sessions`, `llm`, `fsm`: the ACP handlers' decisions, the
    session registry, model selection (`NAIL_MODELS`), the model/tool loop
    of a turn and the state machine that drives a turn.
  - `batch_edit`, `str_replace`, `text_editing`, `file_view`, `line_hash`,
    `listing`, `glob`, `search`, `truncation`, `fs_tools`, `hints`, `paths`:
    the filesystem tools of `octofs`, from parsing their arguments to the new
    file content and the report.
  - `mcp`, `tools`, `filter`, `proxy_config`, `order`, `store`, `history`,
    `timer`, `text`: MCP naming and routing, tool filters, the proxy's
    configuration, session record keys, and string helpers.
- `tests/` runs the library on concrete values.
- `app/` is the executable: `main`, the ACP server, the model client, MCP
  connections, the proxy, the `octofs` server, file I/O and the session
  store.

## Configuration

| Variable | Default | Meaning |
|---|---|---|
| `NAIL_API_KEY` | — | Model API key (else the key file) |
| `NAIL_BASE_URL` | built-in endpoint | OpenAI-compatible base URL |
| `NAIL_MODEL` | first of `NAIL_MODELS` | Default model |
| `NAIL_MODELS` | 3 built-in modes | `id\|name\|description\|context_window,...` |
| `NAIL_KEY_FILE` | `~/.config/nail-agent/api_key` | Key file |
| `NAIL_DATA_DIR` | `~/.config/nail-agent` | Session store |
| `NAIL_MAX_TOOL_TURNS` | `8` | Model→tool→model rounds per turn |
| `NAIL_MAX_TRANSCRIPT` | `100` | Messages kept per transcript |
| `NAIL_OCTOFS` | enabled | `0`/`off`/`false`/`no` skips the embedded octofs server |
| `OCTOFS_BIN` | `PATH` lookup | Explicit octofs binary path |
