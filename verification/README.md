# aplomado_core

The logic of the Aplomado network scanner as a Verus library: the
functions in `src/` carry `requires`/`ensures` contracts that Verus proves,
and the properties that span several functions stand as public proof
functions named `law_*`. Nine small functions are trusted rather than
proved: each makes one call into std or an outside crate (`String::push`,
`str::to_lowercase`, `String::from_utf8_lossy`, `String::from_utf8`,
`slice::sort`, `char::is_alphanumeric`, two x509-parser readers and
`chrono::Utc::now`), and its contract states only what that call's
documentation or source shows.

## Layout

- `src/text.rs`, `src/types.rs`, `src/address_text.rs`: characters, decimal
  and hexadecimal forms, addresses and their canonical text (two addresses of
  one family are written alike only when equal).
- `src/targets.rs`: target strings, CIDR blocks and address ranges.
- `src/scanner.rs`, `src/server.rs`: adaptive timeouts, scan policy, port and
  address admission for scan requests.
- `src/host.rs`: the record of a scanned host, assembled from what the probes
  found.
- `src/version.rs`, `src/fingerprint.rs`, `src/probes.rs`, `src/sanitize.rs`:
  banner and protocol fingerprinting (DNS, BSON, PostgreSQL, SMB, SIP, TLS),
  version extraction, OS guesses, cleaning of untrusted text.
- `src/cve.rs`, `src/sources.rs`, `src/feeds.rs`: CVE matching, merging of
  vulnerability sources, feed records.
- `src/history.rs`, `src/topology.rs`, `src/traceroute.rs`, `src/export.rs`:
  scan diffs, the hybrid topology graph, traceroute bookkeeping, HTML / text /
  CSV reports.
- `app/`: the command-line program around the library: sockets, files, the
  SQLite store, HTTP feeds and JSON.
- `tests/`: executable tests of the library.
