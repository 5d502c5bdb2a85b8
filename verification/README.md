# mini-lsm

Parts of a log-structured merge tree with versioned keys, verified with Verus: reading blocks, merging
sorted iterators, and compaction.

| module | what it holds |
|---|---|
| `key` | user keys with timestamps, and their order: user keys ascending, newer versions first |
| `block`, `block::iterator` | the layout of a block and an iterator that walks it and seeks in it |
| `merge`, `fault` | what merging sequences of entries means, and where reading them breaks off |
| `iterators` | `StorageIterator`, and iterators that merge two, merge many, or read tables in turn |
| `table`, `memory` | what is asked of tables and of their builders, and tables held in memory |
| `retention`, `retention_laws` | which entries a compaction keeps and how it packs them, and what follows from that |
| `lsm_storage`, `storage_laws` | the state of the storage, and what compactions do to it |
| `stop_laws` | when compactions fail, and with which error |
| `read_laws` | what readers see through several levels, before and after a compaction |
| `compact` | compaction tasks, strategies, and running them |

The library proves its contracts without trusting anything outside Verus and vstd. Tables and their
builders are traits, which the tables held in memory implement. The three compaction strategies are
traits as well; nothing is assumed of what they answer. The library does no I/O: `app/` removes files,
tells the manifest, and runs the background threads.

`tests/` runs the library on tables in memory.
