# haygeobr

Official Brazilian spatial data for the Hayashi language, from the geobr
project (IPEA): the plugin downloads the geobr parquet files and hands them to
Hayashi as data frames whose `geometry` column holds WKT text.

## Layout

- `src/` — the verified library (Verus):
  - `wkb.rs`: the WKB reader and WKT writer, specified by a model of WKB
    geometries; the text of each coordinate comes from the caller.
  - `encoding.rs`: the WKB writing of a geometry and the proof that the reader
    gives back every geometry written in either byte order, as the same text.
  - `prefixes.rs`: the proof that a geometry is read from its own bytes alone:
    every cut of it is refused, and bytes after it change nothing.
  - `json.rs`: JSON values, the parsing of JSON text (by `serde_json`) and
    the lookup of object members.
  - `metadata.rs`: the geography table, release file names, the release
    listing, the choice of a file for a request, the list of years, and the
    download steps.
  - `options.rs`: the `year` and `simplified` options.
  - `columns.rs`: the per-row work of reading a table (geometry conversion,
    filter masks).
  - `text.rs`: small character helpers.
- `app/` — the plugin itself: Hayashi entry points, network, files, Arrow and
  Parquet, and the formatting of coordinates as decimal text.
- `tests/` — tests of the library.
