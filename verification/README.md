# geoq

geoq is a command-line utility belt for geospatial text formats: it reads
lat/lon pairs, geohashes, H3 cells, WKT and GeoJSON, one entity per line, and
converts, filters, measures and indexes them.

The crate is split in two:

- `src/` is the verified library, written in Verus. It holds the logic that
  does not need floating point: input-format detection, the GeoJSON
  geometry grammar (numbers kept as the bit patterns `nom` reads), geohash
  children, neighbors and top-down coverings, the H3 argument handling, cell hierarchy
  commands, the top-down covering decision and the breadth-first search along
  lines, and the binary layout of FlatGeobuf files (packed Hilbert R-tree
  index, the Hilbert curve itself, feature property buffers and schema
  inference). Calls into `regex`, `geohash`, `h3ron` and `nom` go through small
  trusted wrappers whose contracts are stated in their doc comments.
- `app/` is the command-line program around it: argument parsing, reading
  standard input, geometry computations on floating-point coordinates,
  shapefile and FlatGeobuf file handling, and the HTTP calls.

`tests/` exercises the library through its public interface.
