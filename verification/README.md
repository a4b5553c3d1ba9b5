# sley_repo

Repository-level logic of the sley store, verified with Verus: the
SLEYSCB1 canonical byte format and the pack, exchange, semantic-delta and
merge-conflict records built on it; root comparison; the three-way merge
judgment; and garbage-collection planning.

## Layout

- `src/` — the verified library. Every decoder is a total function on bytes
  whose result is stated over a model of the wire format, every encoder is
  proved to produce the bytes its decoder accepts, and the planning and
  judging functions are stated over spec functions of plain values.
  - `scb`, `bytes`, `digest`, `ordered` — canonical varints, lists and
    records; byte order; BLAKE3 digests; ascending identity sets.
  - `pack*` — conformance packs: tree, payload, envelope, object closure.
  - `exchange*` — repository exchanges: sections, digest tree, ancestry
    order and closure rules, branch checks, preflight budget.
  - `compare*`, `comparison*`, `delta*` — root comparison, the law that
    comparing the other way mirrors it, and the semantic delta record.
  - `merge*` — ancestry, side checks, per-identity judgment, field
    composition, the collateral rule, the merged entity set, the entities
    a merge plan creates and their identities, the law that a merge with
    the sides exchanged mirrors it, and the merge-conflict record.
  - `entity_read` — the entity-read view of a verified revision.
  - `gc*`, `index_cache` — retention snapshots, reference closures, plans,
    witness and cache-record classification.
- `tests/` — scenario tests against the compiled library.
- `app/` — file-system edges of garbage collection around the library.
