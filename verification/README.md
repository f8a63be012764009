# yaromchecker

The verified core of yaRomChecker, a tool that checks locally owned ROM
collections against user-supplied DAT files, and `yarc`, its command-line
front end.

- `src/` is the library, verified with Verus: DAT parsing (Logiqx XML through
  `quick-xml`, ClrMamePro text by a verified tokenizer and parser), matching
  scan entries against DAT rows, streaming CRC32/MD5/SHA1 hashing through
  `crc32fast`, `md-5` and `sha1`, scan bookkeeping, message tables with
  placeholder filling, report lines, and the presentation rules of the DAT
  explorer (source tree, set rows and sorting, member rows, timestamps).
  `src/laws.rs` and the `law_` proof functions in the other modules state the
  properties that span several calls.
- `app/` is `yarc`: argument parsing, configuration and locale files, the
  SQLite scan cache, walking directories and reading ZIP and 7z archives.
- `tests/` runs the library on concrete values.
