# agent-audit

A replay viewer for the audit events that an agent writes to Apache Iggy: requests to
and responses from the language model, tool calls and their results, token usage. The
viewer lists sessions, shows the timeline of the selected one, and the details of the
selected event.

The library in `src/` is verified with Verus. Terminal, network and process live in
`app/` and call it.

| Module | What it holds |
| --- | --- |
| `event`, `event_laws`, `members`, `member_laws`, `json`, `timestamp` | reading events from the bytes of messages |
| `order`, `order_laws` | the timeline: repeated records dropped, runs and events in order |
| `group`, `group_laws` | tool calls: response, call and result tied together |
| `rows`, `row_laws` | the rows of the timeline pane |
| `sessions` | the order of the session list |
| `app`, `app_laws` | the state of the viewer; what messages and keys do to it |
| `area`, `ui` | the division of the screen and the texts of the panes |
| `tui` | turns of the viewer: messages, a key, the selection to tell the network side |
| `cli`, `transport`, `loopback` | the command line, and which servers may be spoken to in the clear |
| `backoff`, `session`, `session_laws`, `iggy` | the decisions of the network side |
| `testsupport` | reading the logs of a server started for a test |

Modules named `*_laws` hold theorems about the functions they are named after.
Functions marked `#[verifier::external_body]` call other crates; their comments say
what is taken on trust.
