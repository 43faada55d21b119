# mscrw

A metadata scraper: it walks directories, reports file attributes, reads the format, size
and a few EXIF fields of images (JPEG, PNG, GIF, BMP, WebP), counts the lines, words and
characters of text files, and strips metadata in place (JPEG application segments and
comments, PNG ancillary chunks, GIF comment and application extensions, a text file's
byte-order mark and CR line endings).

Layout:

- `src/` is the library, verified with Verus.
  - `image.rs`: the image parsers and the dispatch on a file's first bytes.
  - `strip.rs`, `gif.rs`: the strippers, with the laws that stripping twice changes nothing and
    that stripping keeps what the scanner reports about a PNG or GIF.
  - `text.rs`: the text statistics.
  - `names.rs`: extension lists and the choice of stripper.
  - `scanner.rs`: the pure parts of a file report (permission strings, owner ids, Windows
    attributes and file times, worker count, collecting results in order).
  - `bytes.rs`, `unicode.rs`: byte readers, and the UTF-8 decoding that the library trusts
    `std` for.
- `app/` is the command-line program: argument handling, directory walking, file I/O, worker
  threads and JSON output.
- `tests/` runs the library on concrete files.
