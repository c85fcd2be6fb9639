# agentik

The logic of an agent runtime and its terminal client, written in Verus with
each public function's behaviour stated in its contract and proved.

`src/` is the verified library:

- `text`, `width` — character-level text helpers; display widths through
  `unicode-width`.
- `table`, `chat`, `input` — the chat view: markdown tables drawn with box
  characters (column shrinking, word wrapping, alignment), chat entries
  rendered into styled lines, and the single-line input with its cursor.
- `json`, `bibliography` — reading JSON values and formatting literature
  search results and article details as Markdown.
- `registry`, `toolset`, `prompt`, `runtime`, `storage` — agent kinds, tool
  sets, the system prompt builder, runtime configuration and errors.
- `control`, `events`, `skills` — control-plane replies, agent events as
  server-sent frames and follower lines, and the skill tree.
- `config`, `tools`, `api` — settings from the environment, tool inputs and
  the table-preview query, and plain request/response records.

`app/` holds what Verus does not check: terminal drawing with `ratatui` and
`tui-markdown`, the settings database (`rusqlite`), reading the environment
and the discovery file, and serde copies of the library's records.

`tests/` exercises the library on concrete values.
