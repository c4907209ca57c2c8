# kelpy_pm

The core of the KelpyShark package manager, verified with Verus.

- `src/` is the library. Every function in it is verified against its contract:
  - `text`: whitespace, trimming, line splitting and decimal rendering on characters;
  - `deps`: the dependency table (names to versions, each name once, in insertion order);
  - `manifest`: the model of `kelpy.toml`, its parser (`parse`) and renderer (`serialize`);
  - `roundtrip`: the proof that parsing a rendered manifest gives it back;
  - `registry`: registry paths and the decision to publish a version;
  - `publisher`: the checks and messages of publishing a package directory;
  - `resolver`: the breadth-first walk over the registry's manifests (a state machine
    driven by the caller, who does the lookups) and the install order by Kahn's
    algorithm, with its cycle detection;
  - `versions`: ordering version names for listings.
- `app/` holds the file-system side: reading manifests, listing, copying and
  publishing directories, and running the resolver against the registry on disk.
- `tests/` exercises the library on concrete values.
