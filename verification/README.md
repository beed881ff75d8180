# oxih5

A reader and writer for HDF5 files in Verus: executable Rust whose behaviour is
stated in contracts and proved.

- `src/` is the library. It works on bytes: `File::open_from_bytes` reads a file that
  is held in memory, `FileWriter::build_to_vec` gives the bytes of a new one.
  - Reading goes from `superblock`, `header`, `message` and `datatype` through `btree`,
    `heap`, `snod`, `group`, `link_msg`, `fractal_heap` and `links` to `file`; chunked
    datasets through `btree_v1_chunk`, `btree_v2`, `fa_index`, `ea_index`, `filters`,
    `chunked` and `chunk_reader`; virtual ones through `vds`; what elements stand for is in
    `values`, `dataset` and `attr_view`.
  - Writing is in `write`: `tree` holds what is to be written, `layout` and `plan` say
    where everything goes, `measure` how much room it takes, and `emit` makes the bytes.
    `group_tree` is the index of a group's links, `chunked` that of a dataset's chunks, and
    `tiles` cuts a dataset up into them.
  - `chunk_laws` proves that a part of a chunked dataset is read as part of the whole, and
    that a cache changes no result; `roundtrip` that what is written is read back.
- `app/` opens files, follows links between them, writes to disk, and converts to
  floating-point numbers.
- `tests/` runs the library on concrete files.

Floating-point numbers are carried by their bits. Of the filters, DEFLATE (through
`oxiarc-deflate`), shuffle and Fletcher-32 are undone; a caller may supply a function that
undoes others. DEFLATE is also written.
