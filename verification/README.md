# burin_core

A deterministic, equal-area coverage commitment over the rHEALPix discrete global grid: a
canonical set of cells, its 32-byte SHA-256 root, openings that prove a cell inside or outside a
root, set algebra over roots with replayable transcripts, a catalog index, the profile that binds
every parameter, and the zone topology (positions, scanline sub-zones, edge neighbours, rasters,
halos, DGGS-JSON zone data) that never changes a root.

The library is written in Verus: every function in `src/` carries a contract, and the laws the
library stands on are proof functions checked with it. Among them:

- the root depends on the covered leaf set, the depth and the hierarchy alone
  (`tree::lemma_root_determined_by_leaves`), and absent a collision the root determines the leaves
  (`tree::lemma_leaves_determined_by_root`); a tree rebuilt from its compact cell list has
  the same root (`tree::lemma_cells_round_trip`);
- the cells of a cover tile its leaves and never nest (`tree::lemma_cells_tile`,
  `tree::lemma_cells_disjoint`);
- a verified opening or set-operation transcript states something true of the tree it was made
  from (`opening::lemma_opening_sound`, `setops::lemma_transcript_sound`), and the root a set
  operation produces is the one its rules determine (`setops::lemma_combined_root_is_root_of_op`);
- positions, scanline indices and raster indices are inverse to cids
  (`zone::lemma_cell_at_position`, `zone::lemma_subzone_round_trip`, `zone::lemma_raster_inverse`);
  rasters and zone data round-trip (`zone::lemma_raster_round_trip`,
  `zone_data::lemma_zone_round_trip`);
- edge adjacency is symmetric and a cell's four neighbours are four other cells, for every polar
  placement (`zone::lemma_neighbours_symmetric`); a halo entry is missing exactly beyond a base
  cell's corners (`zone::lemma_halo_entries`);
- the nodes a polygon cover collects never lie one over another (`cover::CoverWalk::finish`),
  and the cells listed for a cover build the same tree as its nodes
  (`cover::lemma_cells_agree_with_cover`);
- a suid has one spelling, and a cid reads back from its suid (`hierarchy::lemma_suid_round_trip`,
  `hierarchy::lemma_cid_round_trip`); a cell's children lie one level under it and have it as
  parent (`hierarchy::lemma_parent_child`); hex reads back what it writes
  (`hash::lemma_hex_round_trip`, `hash::lemma_unhex_round_trip`);
- a decided set-operation identity gives the hash of the combined node
  (`setops::lemma_rule_sound`); two trees diverge nowhere exactly when their roots agree, their
  divergences never nest, and outside them the trees cover the same leaves
  (`setops::lemma_divergence_empty`, `setops::lemma_divergence_apart`,
  `setops::lemma_divergence_complete`);
- index answers come best coverage of the query first (`index::rank`, `index::Index::query`);
- the version-1 wire documents for opening records and set-operation transcripts read back what
  was written, and a document is refused exactly when it breaks the format
  (`wire::lemma_record_round_trip`, `wire::lemma_proof_round_trip`).

SHA-256 is the `sha2` crate behind one trusted wrapper (`hash::sha256`), whose result is named
by `hash::spec_sha256`; statements about leaf sets that go through hash comparisons hold unless
SHA-256 has a collision (`hash::sha256_collision`).

## Layout

- `src/` — the verified library. `hierarchy` (cids, paths, suids), `hash` (tagged hashing,
  ladders), `tree` (canonical trees and roots), `opening`, `setops`, `index`, `profile`,
  `zone` (topology), `zone_data` (DGGS-JSON zone data as plain values), `wire` (the version-1
  documents of opening records and set-operation transcripts), `shape` (cell regions and
  shapes), `cover` (the descent a polygon coverer drives, and the cells of its cover), `arith`
  (power and division facts).
- `app/` — ordinary Rust around the library: the floating-point projection and cell geometry,
  the polygon coverer, conversion between JSON values and the library's wire documents, error types with `thiserror`, and profile records with
  `serde`.
- `tests/` — behaviour on concrete values, including the wire records under every single edit
  of their JSON.
