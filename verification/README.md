# oxcdf

A verified, pure-Rust reader for netCDF-4 and netCDF classic files.

The reader parses the HDF5 container and the classic formats itself. The public
functions of the library carry contracts that Verus proves: what they return, and
each error with the inputs on which it comes. A few ask for something first, such
as a number of elements that fits in 64 bits. A damaged file returns an error and
never a panic.

Storage may fail. A function that reads then returns the storage's failure, and
only then: a request that is refused, or answered without a read, is answered the
same over any storage.

All input goes through `ByteSource`. Its methods take `&self` and address bytes
by absolute offset, so there is no file position to share, and many threads read
one file at the same time.

## Read

```rust
let file = NetcdfFile::from_source(source, index)?;

let temp = file.variable("TEMP").unwrap();
let all = temp.get_values::<F32>(&Extents::All)?;
let part = temp.get_values::<i64>(&Extents::Extent(vec![(0..8).into(), (10..30).into()]))?;
let units = temp.attribute("units").unwrap().value.as_text();
```

`index` finds the groups and datasets of an HDF5 container. A classic file does
not need it.

Floats are held by their bit patterns, in `F32` and `F64`. A conversion between
two numeric types is arithmetic on whole numbers, and is proved like the rest.

## Layout

| Where | What |
|---|---|
| `src/netcdf.rs`, `src/variable.rs`, `src/attributes.rs`, `src/phony.rs` | the netCDF view: dimensions, variables, attributes |
| `src/extent.rs`, `src/read.rs`, `src/array.rs` | selections, and arrays of what they read |
| `src/element.rs`, `src/float.rs`, `src/numbers.rs` | numbers and their conversion |
| `src/classic.rs` | the classic formats |
| `src/dataset.rs`, `src/chunks.rs`, `src/overlay.rs` | reads of HDF5 datasets |
| `src/superblock.rs`, `src/objheader.rs`, `src/message/` | the structures of an HDF5 file |
| `src/btree1.rs`, `src/btree2.rs`, `src/chunk_index.rs`, `src/heap.rs` | what those structures point at |
| `src/filters.rs`, `src/checksum.rs` | chunk filters and checksums |
| `src/source.rs`, `src/pages.rs` | where bytes come from |
| `app/` | files on disk, object storage, asynchronous sources and native floats |

The library itself uses `flate2`, `lz4_flex`, `ndarray` and `zstd`. `object_store`
is for `app/` alone.

## What is trusted

Some calls into outside crates are believed rather than proved. Each stands
behind a wrapper whose doc comment says what is claimed of it:

* zlib decoding by `flate2`, zstd decoding by `zstd` and LZ4 block decoding by
  `lz4_flex`, in `src/filters.rs`;
* making, measuring and indexing an array of `ndarray`, in `src/array.rs`;
* the lossy decoding of UTF-8 by the standard library, in `src/bytes.rs`.
