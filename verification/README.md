# tileset-downloader

Mirrors a complete [3D Tiles](https://github.com/CesiumGS/3d-tiles) tileset (the
`tileset.json`, every external tileset, every implicit tiling subtree, and every tile
payload) from a URL into a local directory:

```
tileset-downloader https://example.com/3dtiles/tileset.json ./mytiles
```

Every decision is made by a library that is written in [Verus](https://github.com/verus-lang/verus)
and proved against its contracts. The program around it fetches, reads and writes.

## Layout

| Where                | What                                                                  |
| -------------------- | --------------------------------------------------------------------- |
| `src/path_util.rs`   | URLs to safe local paths                                              |
| `src/tileset.rs`     | the tile tree and the URIs it names                                   |
| `src/morton.rs`      | Morton order                                                          |
| `src/subtree.rs`     | subtree documents, buffers, availability bits                         |
| `src/implicit.rs`    | implicit tilesets and what their subtrees make available              |
| `src/collector.rs`   | the plan: each URL once, no two on one local path                     |
| `src/plan.rs`        | the plan in its final order                                           |
| `src/discovery.rs`   | the crawl, step by step                                               |
| `src/mirror.rs`      | the crawl as a whole: it ends, and misses nothing                     |
| `src/download.rs`    | the download of one file, step by step, and the summary of a run      |
| `src/net.rs`         | headers, the retry policy, backoff                                    |
| `src/cli.rs`         | what the command line arguments decide                                |
| `src/error.rs`       | typed errors and their messages                                       |
| `src/web_url.rs`     | URLs as plain parts, around the `url` crate                           |
| `src/json.rs`, `src/local_path.rs`, `src/order.rs`, `src/text.rs` | plain data that the rest works on        |
| `app/`               | the command line program: arguments, HTTP, files, progress, logs      |
| `tests/`             | tests of the library                                                  |

## What is proved

- A mirrored file never lands outside the output directory, and no two URLs share a
  local path.
- The crawl of any site ends. Where it ends without an error, everything that is
  reachable from the entry document is in the plan, down to the last descendant of every
  implicit subtree, each file once.
- Morton indices are exact bit interleavings and decode to what they came from.
- A target is only ever as it was before or the complete new file, also where a run is
  cut short or fails; the part file lies beside it.
- Only failures that may heal are retried, at most as often as asked for, with delays
  that double up to a cap.
