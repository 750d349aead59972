# bsset

A verified byte-string set for fixed-length keys with prefix-based membership. A set over
`[u8; N]` keys stores the distinct `P`-byte prefixes of its keys, sorted and laid out back to back,
with an offset table over their first 3 bytes; a lookup is one table read and a binary search.

* `src/` is the library. Its functions carry contracts that Verus proves, resting on what is said of
  two calls out of it: the standard library's `sort_unstable`, and the bytes of a `memmap2` map.
  * `order`, `layout`, `format`: byte-string order, strides, the data file format.
  * `offsets`, `sorting`, `keys`: the offset table, sorting with deduplication, cutting keys.
  * `set`, `storage`: the finished set, in memory or over a mapped data file.
  * `set_builder`, `builder`: assembling sets, the latter with imports of data files.
  * `external`: the external radix sort as a machine that says what to read and write next.
  * `radix`, `runs`, `laws`: what is proved of the library beyond single functions.
* `app/` is the file-backed front end: it opens, maps and writes the files.
* `tests/` runs the library.
