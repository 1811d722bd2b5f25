# FrameGen Manager

Deploys the DLSSG-for-SM86 frame generation mod into game directories,
keeps backups so that every deployment can be undone, and fetches the
upstream files and the DLSS runtimes.

## Layout

- `src/` — the verified library (Verus). Every rule lives here, stated as a
  contract over plain values: which proxy entry a game needs, what a
  deployment writes and backs up and what its restore puts back, how the
  upstream files, VDF manifests, PE headers, ZIP archives and INI files are
  read, which download sources are tried in which order, how GPUs and
  drivers are classified, and when a deployment is refused.
  - `deploy.rs`, `roundtrip.rs`, `files.rs` — deployment plans, restore
    plans, and the proof that a restore gives back what was there.
  - `flow.rs` — what is refused or asked before a deployment starts.
  - `scan.rs`, `paths.rs`, `pe.rs` — game library, render EXE, proxy advice.
  - `update.rs` — upstream versions, download records, sources, INI, ZIP.
  - `anticheat.rs`, `gpu.rs`, `verify.rs`, `importer.rs`, `log.rs`,
    `util.rs`, `text.rs`.
- `app/` — the command-line program around the library: files, registry,
  network, processes and the Windows signature API.
- `tests/` — tests of the library on concrete values.
