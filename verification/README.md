# loop_extract

Reads Microsoft Loop (`.loop`) and Fluid (`.fluid`) containers locally and
reconstructs the document inside them as Markdown, plain text or JSON.

The library under `src/` is written in Verus: every function carries a contract
and is proved against it. The pipeline, stage by stage:

| Module | What it does |
| --- | --- |
| `gzip` | finds `1F 8B 08` signatures and inflates each member under per-member and total limits |
| `discovery` | reads the container framing (`envelope`) and finds JSON payloads inside binary data (`fragment_scanner`) |
| `fluid` | parses merge-tree chunks, deduplicates and assembles trees, assigns roles; classifies properties |
| `operations` | parses the operation log and replays inserts and removes in UTF-16 positions |
| `document` | turns segments into blocks and inline runs, picks the title, chooses snapshot or replay |
| `render` | Markdown and plain text, and the redaction applied before a JSON export |
| `inspect` | the diagnostic report and its text form |
| `analysis` | runs the stages above on one file |

Supporting modules: `text`, `search`, `order`, `strmap`, `json`, `digest`,
`warning`, `container`, `input`, `outcome`.

Calls into `serde_json`, `sha2` and `flate2` stand behind small trusted
wrappers whose contracts name what they return; everything around them is
verified. Among the properties proved: every gzip signature is accounted for;
every payload found is a JSON object parsed from exactly its byte range;
assembly does not depend on the order chunks were found in; an insert lands at
its UTF-16 position and a remove deletes exactly its range; Markdown and text
never depend on block properties; redaction leaves no personal-data key.

`app/` holds the command-line program: argument parsing, file I/O, JSON
serialisation and payload dumps. `tests/` exercises the library on synthetic
containers.
