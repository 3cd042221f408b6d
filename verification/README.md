# roblox-slang

The verified core of Roblox Slang, a type-safe internationalization tool for
Roblox experiences, written in Verus.

`src/` is the library. Every function there carries a contract, and Verus
proves all of them but the few `external_body` wrappers around std and the
`csv` crate, whose contracts state what those document:

- `csv_table` — Roblox Cloud CSV tables: which rows translations become and
  which translations rows stand for (the CSV syntax itself is the `csv`
  crate's).
- `gettext` — reading gettext `.po` catalogues.
- `lua_scan`, `unused_keys` — stripping Luau comments, collecting string
  literals, and finding translation keys that no source uses.
- `locales`, `validation` — Roblox locales, and the checks on locale codes,
  keys, paths and configuration.
- `coverage` — how well each locale covers the base locale.
- `overrides` — applying override translations.
- `merge`, `sync` — comparing local and cloud translations, the three merge
  strategies, and the plan of a synchronisation.
- `cloud` — API keys, request URLs, table ids and HTTP errors of Roblox Cloud.
- `json_tree` — translation files as JSON trees: dotted keys to nested
  objects and back.

The public proof functions whose names start with `law_` state what holds
across calls: merging converges, skipped conflicts are exactly the differing
pairs, uploading and downloading gives the translation table back,
overrides win without losing main translations, downloaded
translations merge into a locale file without losing its keys, coverage
adds up, upload batches cover the entries, comment stripping keeps line
numbers, and table rows read back to the translations they were built
from.

`app/` is the command line program around the library: file and network
I/O, the JSON shapes of the API, and argument parsing.
