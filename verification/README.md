# muse

A terminal music explorer: browse a directory tree of audio (archives
included), play it, queue it, shuffle it, search it.

The decisions the explorer makes are a library verified with Verus (`src/`);
the terminal program around it (`app/`) reads the disk, renders with ratatui
and plays tracks through an `ffplay` process.

## Library (`src/`)

| module | what it decides |
|---|---|
| `text`, `path` | character-sequence helpers; file names, extensions, joins, components |
| `media` | which paths are playable media or playlists; tag-panel rows and titles |
| `archive` | archive kinds, virtual paths `<archive>/<inner>`, entry-name normal form, the bounded in-memory store of listings and decompressed entries |
| `order`, `model`, `model_archive` | the lazy file tree: listing order, pruning of music-less directories, recursive stats, archive subtrees, the visible list |
| `keys` | the key table: which action a key asks for in each modal state |
| `nav` | what `⏎`, `h` and `l` do; the visible media list; the row of a path |
| `player` | loop mode, the play queue, next/previous/auto-advance, the shuffle bag, the back history |
| `playlist` | `.m3u` export and import |
| `search` | fuzzy-finder ranking |
| `config`, `effects` | scope presets, persisted settings, theme knobs |
| `cache` | path-keyed caches validated by mtime / size |
| `geometry` | hit-testing, seek positions, clamped cursor moves |
| `mem_source` | a seekable reader over in-memory bytes |
| `util` | time and size formatting, the fuzzy score, the noise hash |

Each public function states its result in its `ensures`; the `law_*` proof
functions state properties across calls (a persisted scope preset is
read back, a loop mode's name parses back to it, an exported queue is imported unchanged, a refilled shuffle bag is
the pool without the playing track, cached values are read back while their
stamps match, rankings and listings are sorted, ...).
