# patch_elf_symtab

Overwrites the bytes that back defined object symbols (`STT_OBJECT`) of an
ELF executable (`ET_EXEC`), by symbol name. The typical use is firmware
or embedded images that carry blobs (certificates, keys, strings) as globals
in `.symtab`.

The library is written in Verus. Its logic is verified against its
contracts; the calls into the `elf` and `hex` crates go through small
`#[verifier::external_body]` wrappers in `src/reader.rs` and `src/hex.rs`,
whose contracts state what those crates' sources show and are trusted,
not proved.

- `src/site.rs` – writing a payload into the file range of one symbol, and the checks that come first.
- `src/image.rs` – the values read from an ELF image, and how a symbol's address maps to a file range.
- `src/reader.rs` – reading those values with the `elf` crate, as functions of the input bytes.
- `src/patcher.rs` – `ElfSymtabPatcher`: a working copy, its sites, and the failures recorded.
- `src/laws.rs` – what every patch request keeps: the image length, the bytes outside the symbol, earlier failures, and that a successful patch reads back; when a name is refused as `NotFound`; that only executables have sites.
- `src/text.rs` – decimal text and quoted names for the failure messages.
- `src/run.rs` – applying a whole map of payloads, and judging the failures.
- `src/direct.rs` – patching straight from the symbol table, stopping at the first problem.
- `src/hex.rs`, `src/entries.rs`, `src/order.rs` – hex payloads, the name → payload map, and the order of names.
- `app/` – the command-line tool: `patch-elf-symtab -e entries.json < input.elf > output.elf`.

The entries file is a JSON object whose keys are symbol names and whose
values are hex strings (either case, optional `0x` / `0X` prefix).
