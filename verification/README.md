# bg3-translate-core

The core of a Baldur's Gate 3 mod translator, written in Verus: what it
decides is stated in `requires` / `ensures` contracts and proved.

- `src/` — the verified library:
  - `formats/` — `.loca`, `<contentList>` XML and `.lsx` reading and writing;
  - `glossary/` — terms, import cleaning, the official seed, and the matcher
    (Aho-Corasick prefilter, word-boundary patterns compiled once);
  - `translation/` — planning jobs, series variants and the consistency
    memory, prompts, the SSE decoder and stream assembly, fidelity checks,
    and the retry policy as a state machine;
  - `pak.rs` — safe archive paths, member selection, zip limits;
  - `config.rs`, `types.rs`, `error.rs`, `text.rs`.
- `app/` — the program around it: file and network I/O, the async engine,
  serde copies of the library's types.
- `tests/` — tests of the library.

Calls into `regex`, `aho-corasick`, `quick-xml`, `serde_json`/`async-openai`
and std functions without a vstd specification go through small trusted
wrappers, each documented where it stands.
