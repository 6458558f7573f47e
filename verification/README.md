# chancery

The verified core of Chancery, a Debian-style signed package repository
manager for Aegis/herald. Chancery produces a static, signed repository tree:
one ECDSA-P256/SHA-256 signature over each suite's `Release`, which pins the
SHA-256 of each `Packages` file, which pins the SHA-256 of each package.

- `src/` is the library, proved with Verus: reading a package's manifest
  (`pkg`), the field rules that keep pool paths inside the pool (`field`,
  `repo::pool_path`), the package index and what `add`, `remove` and `promote`
  do to it (`repo`), the `Packages` and `Release` metadata (`publish`), the
  listing order (`version`, `list`), signing keys as text (`sign`), the trust
  anchor export (`anchor`), the repository layout (`layout`) and the dev
  server's decisions (`serve`).
- `app/` is the `chancery` command: argument parsing, files, the clock, the
  HTTP server, and the on-disk (TOML/JSON) forms of the configuration and index.
- `tests/` runs the library on concrete values.
