# pixel_carrierconfig_toolbox

Decompile the Google Pixel carrierconfig (cfgdb) directory — `cfg.db`,
`confseqs/`, `manifests/` — into editable per-carrier TOML files, recompile them
into a drop-in cfgdb directory, and package that as a Magisk module.

The library (`src/`) is verified with Verus: the confseq protobuf codec, the
CLZ4 container, manifest reading and ref-hash rewriting, the NV-name table, and
the decisions of `decompile`, `compile`, `check`, `inspect`, `self-test` and the
Magisk packager each carry a contract, and the laws the tool relies on are
proved as proof functions:

- `confseq::law_encode_decode_roundtrip` — decoding what `encode` writes gives
  the confseq back;
- `nvtable::law_table_ids_are_name_crc32` — every row of the bundled NV table
  (three items) has the CRC-32 of its name as its id;
- `project::law_item_key_roundtrip` — NV keys read back as their ids;
- `manifest::law_rewrite_preserves_length`, `law_swap_touches_only_old_hash_windows`,
  `law_absent_hash_is_noop` — one scan of a manifest for one old hash patches
  only that hash's windows (stated per scan, not for a whole remap);
- `manifest_rewrite::law_swap_rewrites_only_old_refs`,
  `law_one_entry_rewrite_reads_back` — where the old hash's `12 14` windows are
  exactly its ref hash fields, the rewritten manifest decodes to the same
  manifest with those refs swapped to the new hash;
- `project::roundtrip::law_unedited_project_compiles_to_its_source` — an unedited
  project compiles back to its source, byte for byte, with no reference moved;
- `project::roundtrip::law_edit_roundtrips`, `law_editable_iff_keys_distinct`,
  `law_originals_keep_what_compile_cannot_rebuild`;
- `project::edits::law_compile_touches_only_edited_confmans`;
- `manifest::law_hex_hash_roundtrip` — the lowercase hex text of 20 bytes
  parses back to those bytes.

Outside crates (`sha2`, `lz4_flex`, `crc32fast`, `indexmap`, `zip`) are called
through small trusted wrappers. `crc32fast::hash` is stated as the CRC-32
(IEEE) checksum; the results of `sha2` and of LZ4 decompression are named,
with the short facts their sources show. An LZ4 block is not named (its bytes
depend on the machine): what holds of every block is stated instead, and a
compile plan is stated for whatever containers its compressions returned. The
zip writer's contracts state which entries it holds (name, permission bits,
storage method, bytes), when a call on it succeeds, and that a finished
archive holds exactly those entries; not the archive's bytes, which carry the
current time.

`app/` is the command-line program around the library: argument parsing,
SQLite access to `cfg.db`, TOML files and the rest of the file I/O.
`tests/` exercises the library on concrete values.
