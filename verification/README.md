# Mission Control

The project-level view over many chats: recent conversations and what each accomplished,
the activity of each day, the files that several conversations keep returning to, and the
to-dos left outstanding in conversations nobody reopened.

A client derives the digest of a conversation and has it indexed. Everything but the
narrative of a conversation is an indexed fact, so a node with no model has a working
dashboard.

## Layout

- `src/` is the library, verified with Verus: the store and its tables, the windows and
  what is listed of them, the roll-ups by day and by file, the prompt and the narrative,
  the reading of the model's reply, the bearer check, and what each route answers. Every
  operation has a contract over mathematical views, and the laws that span operations are
  proof functions beside them.
- `app/` is the process around it: HTTP, SQLite, the environment and the clock.
- `tests/` runs the library.

Three outside calls are taken on trust: that SQLite opens an in-memory connection, that the
local date it gives for an instant is a `YYYY-MM-DD` that it gives for that instant on some
machine (not which), and what the reason phrase of an HTTP status is (named, not described).

## HTTP surface

Every route is behind the shared-secret bearer except `/health`.

| method | path | what |
| --- | --- | --- |
| `GET` | `/health` | reachability and a count |
| `GET` | `/overview?days=&since_ms=&folder_path=&limit=` | the whole dashboard |
| `GET` | `/index-state` | how fresh what is stored of each conversation is |
| `GET` | `/conversations?days=&since_ms=&folder_path=&limit=` | digest rows |
| `PUT` | `/conversations/:id` | index one conversation, replacing what was stored |
| `GET` | `/conversations/:id` | the digest with turns, files and work items |
| `DELETE` | `/conversations/:id` | forget a conversation |
| `POST` | `/conversations/:id/summarize` | have the node's model narrate a conversation |

`days` wins over `since_ms` where both are sent. A `days` that is not positive means no
window.
