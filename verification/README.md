# Hydraria

A multi-threaded HTTP streaming proxy. A task names the copies of a file, or the
volumes that a file was cut into; clients read the file from the proxy, which
fetches it from the origins in many ranges at once, in order of what a player
waits for, and keeps what it fetched in a sparse cache.

`src/` is the library: everything that is decided, computed or parsed. It is
written in Verus, and every function states in its contract what it returns.
`app/` is the program round it: the command line, the HTTP server and client,
files, sockets and timers.

| Module | What it holds |
| --- | --- |
| `schedule` | which worker fetches what next: claims, stealing, racing, backing off |
| `download` | the coordinator of a task's cache: workers, readers, failure budget |
| `cache` | what of a file is there, cache keys, staging |
| `ranges`, `intervals` | lists of byte ranges |
| `engine`, `fetch` | request plans over volumes, mirrors, retries |
| `probe`, `names` | what origins say of a file, and what it is called |
| `hostmap`, `address`, `dns` | host mappings, addresses, questions to name servers |
| `models` | tasks, edits, settings, what outlives a restart |
| `requests`, `serve`, `headers`, `disposition` | what requests ask for and how they are answered |
| `plugins` | transforms on the way to a client, and the ChaCha20 plugin |
| `cli`, `assets`, `fs_pick` | the command line, the dashboard's files, file dialogs |

Laws that relate several functions are public proof functions whose names begin
with `law_`.

The dashboard is served from `web/dist` beside the program.
