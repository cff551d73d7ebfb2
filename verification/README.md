# th06nc_data

Reading and writing the `PKGL` archives of *Touhou Koumakyou: New Classic*, with the
format's logic verified by Verus.

- `src/encrytion.rs`: the key stream (`key_gen`), the repeating XOR pad (`XorPad`,
  `apply_key`) and the key-stream reader and writer; laws on splitting, undoing and
  resuming the stream.
- `src/models.rs`: index entries and the archive header, their byte layout, the
  read-back laws, and the packer's rules (index size, storage choice, `ver0102.dat`).
- `src/endian.rs`: little-endian integers, read and written through `byteorder`.
- `src/utils.rs`: the archive key of a file name, and alignment to sixteen bytes.
- `app/`: the `pack` / `unpack` command line, with the file I/O, directory walk,
  zstd streams and random keys.
