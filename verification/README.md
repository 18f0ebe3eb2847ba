# beatmatcher

The control-surface and bookkeeping logic of a DJ practice app, written in Verus
and proved against its contracts.

`src/` is the verified library:

- `wire`, `decode`: MIDI bytes to addresses, high-resolution halves joined per
  binding, and the move a message makes on a device's profile.
- `mapping`, `vocabulary`: mapping files as read (version, deck template, bindings),
  the closed list of actions, and the profile that refuses colliding addresses.
- `learn`: watching what a control sends while a slot is armed, reading what kind
  of control it is, and the draft mapping the captures land in, written in
  vocabulary order under a hyphenated file name.
- `midi`: the console monitor's bounded buffer, which ports to open, and the
  registry of connected devices with their mapping, deck, halves and lights.
- `engine_push`: the batch of engine writes the UI is told about, each address
  once and never the UI's own.
- `surface`, `audio`, `recording`, `files`, `cover`: the mode gate for surfaces,
  deck ids and render stamps, a track's tags, the WAV header and save dial,
  recording file names and cue sheets, and cover art as a data URL.
- `text`, `order`: text comparison and the stable ordering the lists above use.

`app/` is the unverified shell: JSON through serde, the MIDI thread on midir,
reading tags and pictures through symphonia, file writes, and the float arithmetic
of tempo and cue times.
