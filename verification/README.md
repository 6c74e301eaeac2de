# Pixel Agents

A terminal program that shows coding-agent sessions as pixel-art characters in a
small office: they walk to their desks when they work, wander and sit in the lounge
when idle, and an activity panel lists what each agent is doing ("Reading main.rs",
"Running: cargo build").

The sessions write JSONL transcripts under a data directory (`projects/` and
`teams/`); give it as the first argument or in `PIXEL_AGENTS_HOME`.

## Layout

- `src/` is the verified library (Verus):
  - `layout` builds the three-room office and its seats;
  - `pathfinding` finds shortest walks (breadth-first search) and wander spots;
  - `routes` joins walks into routes that lead both ways; `office` shows that every
    desk seat and lounge chair can be walked to from every other;
  - `json` reads JSON text (through `serde_json`), and `transcript` turns transcript
    lines into agent state and events;
  - `types` holds the agent state and its status line;
  - `watcher` decides, from a snapshot of the data directory, which agents exist
    (teams first, then the newest transcript of every project), reads growing
    transcripts line by line, and decodes project names;
  - `scene` moves the characters (events, seats, walking, wandering, the lounge);
    its times are whole milliseconds;
  - `renderer` orders the activity list and forms its rows; `ui` reacts to keys;
  - `text` holds string helpers.
- `app/` is the program around it: the terminal, the disk reads, the drawing.
- `tests/` runs the library on concrete cases.
