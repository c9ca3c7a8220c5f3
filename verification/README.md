# pscan

A TCP/UDP port scanner whose core is verified with Verus.

- `src/` is the verified library: target expressions (addresses, host names, CIDR blocks,
  ranges), port expressions, IP address text, service fingerprints, the scan records and
  the decisions a scan makes between network operations, the text rendering of results
  and its summary, the command-line checks and exit codes, and release-version
  comparison. Every function there carries a contract that Verus proves; the few calls
  into other crates (`ipnet` for CIDR blocks, `String::from_utf8_lossy` for banners) sit
  behind small trusted wrappers whose contracts are documented where they are declared.
- `app/` is the `pscan` command around it: argument parsing with `clap`, the Tokio
  network engine (lookups, connects, datagrams, pings), writing to files or standard
  output, JSON encoding with `serde_json`, and the release check with `self_update`.
- `tests/` runs the library on concrete inputs.
