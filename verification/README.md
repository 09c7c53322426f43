# vitadeck

A game launcher for the PS Vita: it lists the installed Vita, PSP and PS1
games, fetches their artwork and music, browses a store catalogue and queues
downloads. Its logic is written in Verus and verified.

## Layout

- `src/` is the verified library. Every function there carries a contract
  that Verus proves.
  - `navigation`: the launcher's modes, tabs and menus, as a step from a
    command to a new cursor and a list of actions. `art_queue` does the same
    for per-frame bookkeeping (`tick_step`) and for choosing which artwork to
    fetch.
  - `library`, `collections`, `recent`, `stats`, `config`: the library's
    tabs, filters and sort orders, the user's collections, history, launch
    statistics and settings. Their stored text formats come with
    save/load laws.
  - `scanner`: the rules for reading installed apps, PSP emulator folders,
    disc images, PARAM.SFO and EBOOT.PBP files.
  - `store`, `licensing`, `artwork`: the store catalogue, content ids and
    licenses, download plans, and artwork lookup.
  - `net`: URL parsing, HTTP response heads, redirects and chunked bodies.
  - `mp3`, `audio`: MP3 frame scanning, the music stream's decisions, the
    output port's state, WAV decoding and the PCM ring buffer.
  - `runtime`: an LRU cache with a cost budget, a string arena, a buffer
    pool and the memory-pressure governor.
  - `text`, `ime`, `textures`, `cache_manager`: text helpers, UTF-16 for
    the system keyboard, image size limits and cache accounting.
- `app/` is the program around the library: file, network and console I/O.
  It hands the library plain values and carries out the actions the library
  returns.
- `tests/` runs the library on concrete values.

Outside code that the library relies on is declared in `src/` with
`external_body` wrappers, `assume_specification` items and a few named
results. Each one's doc comment says what is assumed of it. These are the
only parts whose contracts are trusted rather than proved.
