# eve_remap

Planning attribute remaps for an EVE Online skill queue.

- `src/` is the library, written in Verus: attribute and implant parsing,
  the enumeration of attribute allocations, queue-file and duration parsing
  and formatting, the prerequisite-respecting reordering of a training queue,
  the EVE SSO (PKCE) request building and callback parsing, the saved-account
  store, when the next remap is available (flags, else ESI's cooldown date),
  the choice of skill and implant records from the static data export,
  and the text of reports and queue files. Every function carries a
  contract that Verus proves; the laws that relate several functions (a
  formatted duration parses back to itself, a reordered queue keeps every
  prerequisite before its dependants, an upserted account is what a lookup
  finds) are public proof functions next to the code they speak of.
- `app/` is the command-line program around it: argument handling, files,
  HTTP and the local callback listener, reading the SDE's JSON files, and the
  floating-point training-time simulation and optimizer.
- `tests/` runs the library on concrete inputs.
