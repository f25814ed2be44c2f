# garret

A Nix binary cache: the Pusher takes NARs from authenticated clients and stores
them as compressed blobs on S3, the Puller answers substituters with signed
narinfo and redirects, and the client pushes closures or watches a store.

The library in `src/` is the cache's logic, with contracts that Verus proves:

- the catalogue (`db`, `table`) and what removes rows from it: `eviction` and
  `gc` by quota, `prune` by age, `fsck` by audit, `admin` by command. Eviction and
  a prune leave every survivor what it refers to, and spare the closure of a live
  pin.
- what a push goes through: `auth` for the token, `common` for the preamble,
  `pusher` for admission and metadata, `inflight` for who works on which path,
  `verify` for the NAR against its claim, `multipart` and `storage` for the parts.
- what a pull sees: `narinfo`, `nix_base32`, `puller`, `browse`.
- the client: `client::push`, `client::watcher`, `client::auth`,
  `client::discovery`, `client::doctor`, `client::config`, `client::document`,
  `client::nixconf`.
- the tools: `operator` for the administrator, `bench` for load tests.

Calls into sha2, ed25519-dalek, base64, zstd, jsonwebtoken, reqwest, toml and
fastrand stand behind small functions marked `external_body`; the comment above
each says what is taken on trust.

`app/` is the programs: argument parsing, HTTP, S3, SQLite and files around the
library. `tests/` runs the library on concrete values.
