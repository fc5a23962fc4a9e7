# scrutt

A local supply-chain firewall for Node.js projects, as a Verus-verified
library (`src/`) and a thin command-line program around it (`app/`).

- `scrutt shield <dir>` reports the manifest's dependency counts and hardens
  the project: it creates `scrutt.toml` and makes `.npmrc` set
  `ignore-scripts=true`.
- `scrutt audit <dir>` scans the JavaScript files under `node_modules` for
  `eval(`, and for `exec(`/`spawn(` in files that reference `child_process`,
  and fails when it finds any.
- `scrutt install <dir>` runs `npm install --ignore-scripts`.

Library modules: `text` (lines, trimming, search over characters), `path`
(paths as components, their order, `strip_prefix` and `join` on path text), `audit`, `config_files`,
`commands`, `pkg_json`, `error`. The program reads and writes files, walks
directories and starts `npm`; every decision it acts on comes from the
library.
