# zhhz

A Simplified/Traditional Chinese converter built on the OpenCC dictionaries
and configs, with its logic proved correct by Verus.

## Layout

- `src/` — the verified library:
  - `lines.rs`, `text.rs` — the OpenCC dictionary text format, UTF-8 and
    string helpers;
  - `dict.rs` — the character trie with longest-prefix lookup and priority
    groups; `dict_marisa.rs` — the same dictionary over a marisa-trie
    (`rsmarisa`), with a proof that both answer alike;
  - `config.rs` — parsing (with `serde_json`) and resolving an OpenCC JSON
    config into dictionary groups,
    custom words first;
  - `engine.rs` — configs, regions, FMM segmentation and the conversion
    chain;
  - `ngram.rs` — ARPA n-gram models and candidate disambiguation;
  - `detect.rs` — script-variant detection and the `detect` report;
  - `derive.rs` — the dictionaries derived from others (reversed variant
    tables, the tofu-risk extension, phrases projected through t2s);
  - `cli.rs`, `inputs.rs`, `custom.rs` — command-line parsing, input lists
    and the string form of custom words.
- `app/` — the program: file and terminal I/O, reading the data files, the
  parsing of n-gram log-probabilities, and the WebAssembly bindings (built
  for `wasm32` only).
- `tests/` — tests of the library.

## Data

The program reads the OpenCC data at run time from `$ZHHZ_DATA_DIR`
(default `./data`): `dictionary/<name>.txt` for each source dictionary and
`config/<name>.json` for the sixteen configs. The five derived dictionaries
(`TSCharactersExt`, `STPhrases_GeneratedFromRegionalPhrases`,
`TWVariantsRev`, `HKVariantsRev`, `JPShinjitaiCharactersRev`) are computed
from the source ones.
