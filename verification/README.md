# touchhle

Host-side parts of an iPhone OS emulator's frameworks, written in Verus:
each public function carries a `requires`/`ensures` contract that Verus
proves against the code.

## Layout

- `src/mem.rs` — guest memory as a byte sequence with live blocks; reads,
  writes, allocation and C strings.
- `src/objc.rs` — the object store: classes, host objects, reference counts
  and the autorelease pool.
- `src/environment.rs` — memory, objects and the frameworks' state together.
- `src/unicode.rs` — UTF-8 and UTF-16 encoding and decoding.
- `src/external.rs` — the contracts assumed of std and of `encoding_rs` and
  `yore`; everything else is proved.
- `src/frameworks/` — libxml2 (parser, document tree, text reader),
  libsqlite3 bookkeeping, OpenGL ES queries answered by the host,
  SystemConfiguration reachability, Security stubs, GameKit, and Foundation
  (`NSString` storage, searching, comparing and editing; character sets;
  locales; time zones; threads; process info; user defaults).
- `src/laws.rs` — properties that span several functions, proved once for
  all inputs.
- `tests/` — tests on concrete values.
- `app/` — what Verus does not check: files, the SQLite connection itself,
  the clock, and the functions whose values are floating point.
