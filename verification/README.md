# rfitsio

Building blocks for reading and writing FITS files, written in Verus: each
function states what it returns in its contract, and Verus proves the code
against it.

- `src/` is the verified library: header cards (formatting, parsing, keyword
  classes), headers and their 2880-byte records, checksums, `TDIM`, ASCII
  table `TFORM`s, NBIT packing, PSRFITS cube indexing, date strings,
  unsigned/signed integer offsets, byte stores (`Driver`, the in-memory
  store), the tiled-image codecs Rice, PLIO, gzip (with byte shuffling) and
  HCOMPRESS, and the integer side of a tiled-compressed image's `ZIMAGE`
  header (its layout, the keywords written for it, and the parameters read
  back from it), and opening an in-memory file image: gunzipping it and
  walking its HDUs (`file::open_bytes`, `file::parse_hdus`). Laws proved about them are public `lemma_*` proof
  functions, such as `compress::rice::lemma_rice_roundtrip` (Rice decoding
  gives back the coded pixels), `compress::plio::lemma_plio_roundtrip`
  (a PLIO line list reads back as its pixels) and
  `header::lemma_parse_record_image` (a header's records parse back to its
  cards).
- `app/` holds what the library does not: the disk-file store, the
  per-thread home of the error-message queue, and the floating-point parts (BSCALE /
  BZERO, quantization with dithering, the HCOMPRESS scale keyword).
- `tests/` runs the library on concrete values.

Not here: the stateful file object that creates and edits a FITS file in
place (`FitsFile`, binary-table creation and column I/O), which the library's
pieces are meant to be assembled into.
