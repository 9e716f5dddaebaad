# file-parse-cache

An in-memory cache for programs that poll files and parse them again and again.
Parsed values are kept by path, each with a stamp of the file, and a file is parsed
only when nothing is cached for the stamp that it has. The stamp is the modification time, or a BLAKE3
digest of the content. The number of entries is bounded, by `moka`: the least
recently used entry leaves first. A cache can be saved to disk and loaded again.

The library in `src/` is written in Verus, and its functions are proved to meet
their contracts.

| module        | what it holds                                                        |
|---------------|----------------------------------------------------------------------|
| `cache`       | `FileParseCache`: get, purge, clear, count                           |
| `persist`     | saving and loading, the dirty flag, the `Format` trait               |
| `errors`      | `SaveError`, `LoadError` and their wording                           |
| `fingerprint` | the `Fingerprint` trait, stamps of modification times and of contents |
| `stamp`       | `MtimeStamp` and its conversions                                     |
| `paths`       | what is known of `PathBuf`                                           |
| `store`       | the bounded map, over `moka::sync::Cache`                            |
| `laws`        | what holds across calls, as proof functions                          |

The library does no input or output. `app/` does: it reads and writes files, shares
a cache between threads, and brings the `serde` codecs for `bincode` and `postcard`.

What is not proved but taken from outside stands in the functions marked
`#[verifier::external_body]`; the comment above each says what is claimed of which
function. `moka` is set to evict the least recently used entry, and its pending work
is done after every call, so which entry leaves is known: it is part of what the
contracts state.
