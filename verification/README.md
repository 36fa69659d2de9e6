# tilefeed

Vector tiles from PostGIS, kept up to date: a library in Verus whose behaviour is
stated in contracts and proved, and a program around it.

## The library (`src/`)

| Module | What it is about |
|--------|------------------|
| `pmtiles` | Single-file archives: tile numbers on the Hilbert curve, variable-length integers, directories, the header, packing with deduplication and runs, export and reading back |
| `mvt` | Vector tiles: geometry commands, layers with their tables, the wire format, and what a client reads in them |
| `metrics` | Counters, gauges and histograms in the Prometheus text format |
| `config`, `commands` | Settings and commands, and what follows from them |
| `tiles`, `updater`, `refresh` | Which tiles a batch of changes makes stale, and the course of an update |
| `events`, `webhook` | Events, their aggregation over a cooldown, and their delivery |
| `server` | Answers to tile and TileJSON requests |
| `generator`, `postgis`, `mbtiles`, `storage` | Arguments, queries, rows and steps for the programs and stores that the work is handed to |
| `inspect`, `diff`, `validate` | Reports |
| `text`, `order`, `digest`, `json` | Building blocks, and what is taken from other crates |

Public proof functions state the laws that relate several functions, for example
that an archive reads as the tiles that were packed into it
(`pmtiles::export::lemma_archive_reads_back`), that a tile holds the layers it was
encoded from (`mvt::reading::lemma_tile_reads_back`), and that no tile is written
twice in an update (`refresh::lemma_no_tile_is_written_twice`).

What is taken on trust is marked `external_body` or `assume_specification`, each with
a comment on what is claimed: SHA-256 and HMAC, hexadecimal, gzip, JSON values, one
integer encoding of protocol buffers, and a few functions of the standard library.

## The program (`app/`)

Command line, database, HTTP, files and floating-point geometry. It asks the library
what to do next, does it, and hands back what came of it.
