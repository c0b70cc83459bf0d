# connection_store

The connection records of a desktop database client, verified with Verus.

- `src/` is the library, every function proved against its contract:
  - `entry` — the record, its view, defaults and a new record;
  - `store` — the cache of records (one per key) and the laws of reading,
    writing, deleting and stamping;
  - `filing` — how a saved record is readied and filed into its group,
    environment and position;
  - `export` — the records chosen for export, stripped, in a stable sort
    by group, environment, position and name;
  - `import` — ids for imported records, the duplicate check, normalisation
    and the preview;
  - `icon` — icon MIME types, extensions and data URLs, with their round
    trip laws;
  - `certs` — certificate fingerprints, the trusted certificates with
    their DER bytes, and reading and writing the trust file's text;
  - `response` — the JSON reports of export and import;
  - `text` — trimming, searching and decimal text on character sequences;
  - `wrappers` — the calls into `uuid`, `sha2`, `hex`, `serde_json` and
    `openssl`, each behind a stated contract.
- `app/` is the desktop side: files, JSON forms of records, icon files, the
  OpenSSL trust store and the Java home probe.
- `tests/` runs the library on concrete values.
