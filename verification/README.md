# symgen

Verified tooling for moddable native games: export lists and module definition files, link stubs,
symbol manifests, mod metadata, and package-time hook gateways for arm64 Apple executables.

- `src/` is the library. Its functions say in `requires` and `ensures` what they return, and Verus
  proves it.
  - `util/` reads and rewrites the formats: Mach-O images (`macho`), embedding into PE, ELF and
    Mach-O (`embed`), the manifest (`manifest`), mod metadata (`modmeta`), member pointers
    (`msvc`), and instruction encodings (`arm64`).
  - `cmd/` holds the commands: `def`, `exports`, `manifest`, `modmeta`, `prepatch` and `stub`.
  - What relates several functions stands in proof functions whose names begin with `law_`.
- `app/` is the program around it: arguments, files, JSON, and what reads program databases and
  DWARF.
- `tests/` runs the library on concrete files.

Calls into other crates stand behind small `external_body` functions. Where a result takes pages to
state it has a name (`uninterp spec fn`), and the library's contracts speak of that name.
