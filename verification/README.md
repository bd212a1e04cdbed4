# broodcasc

A reader for CASC archives, targeting the StarCraft: Remastered featureset,
verified with Verus.

- Reads files from a local install by path, on demand, and from Blizzard's
  CDN through the same formats.
- All storage access goes through small traits (`ReadAt`, `StorageProvider`,
  `CdnTransport`), so that the library never touches the filesystem or the
  network itself.
- Every read is verified end to end: BLTE chunk digests, then the content key
  of the whole file. A partial install catalogs files that it never
  downloaded; those reads fail with `CascError::NotInstalled`, distinct from
  `NotFound`.

Not covered: writing or repairing archives, encrypted chunks, and products
other than StarCraft: Remastered.

## Layout

- `src/` is the library. Verus verifies every function against its contract;
  what is believed of the crates that it calls (MD5, zlib, globs) and of a few
  functions of std stands in wrappers whose comments say so. Proof functions
  named `law_*` state what holds across functions: what a read gives back of
  what was written, that what is read is verified, that paths stay inside the
  directory they are joined to.
- `tests/` runs the library, with whole storages kept in memory.
- `app/` is the command-line program: arguments, files, HTTP and the on-disk
  cache.

## Modules

| Module | Holds |
|---|---|
| `error`, `text`, `bytes`, `compose` | errors, text and number forms |
| `keys`, `digest`, `jenkins` | keys and digests |
| `keymap`, `textmap` | maps from keys and from texts |
| `blte`, `object` | the container format and the verified-object boundary |
| `idx`, `cdnindex`, `encoding`, `root`, `config`, `tact` | parsers |
| `io`, `archives`, `storage` | local storages |
| `cdn`, `http`, `cache` | CDN storages and what their transports decide |
| `matcher`, `sanitize`, `select`, `report` | what the commands decide and show |
| `seeds` | the synthetic seed corpus of the fuzz targets |
