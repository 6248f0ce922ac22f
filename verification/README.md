# cnosdb

Hash trees over the data of a time series family, verified with Verus. Comparing the trees of two
replicas of a family tells in which columns and time ranges their data differs.

* `block` searches and hashes blocks of values.
* `time` cuts time into ranges of equal length.
* `schema` gives column ids their names.
* `scan` reads the blocks of a family into hashes by field and time range.
* `tree` puts those hashes together, by table, column and time range; `node` holds the nodes and
  writes them as text.
* `family` goes all the way, from what the storage says of a family to its tree.
* `scan_laws`, `tree_laws` and `family_laws` state and prove what holds of all of this.
* `hasher` names what is relied on of BLAKE3; what is relied on of `chrono` stands in `time`.
* `service` and `protogen` hold what the vector service and the generation of protocol sources
  decide.

`app/` does the I/O around the library.
