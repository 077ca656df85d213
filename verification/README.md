# tar_minimal

A minimalist TAR (POSIX USTAR) library, verified with Verus.

- `src/header.rs`: the 512-byte POSIX USTAR header, its byte layout, octal
  encoding of numeric fields, the checksum, the headers of regular-file and
  directory entries, and the padding that completes a data block.
- `src/octal.rs`: reading a numeric header field (text up to NUL or space,
  UTF-8, trimmed of Unicode white space, base 8), and the law that a value
  written into a field reads back.
- `src/paths.rs`: Unix path components, joining a name under a directory,
  lexical resolution of "." and "..", and the test that a target stays
  under the destination.
- `src/decoder.rs`: what a header block asks the extractor to do, refusing
  bad checksums, malformed numbers and targets outside the destination.
- `src/builder.rs`: entry names, directory member names, termination blocks.
- `app/lib.rs`: the file and stream I/O (`append_path`, `append_path_as`,
  `append_dir_all`, `finish_archive`, `unpack`) as extension traits.
