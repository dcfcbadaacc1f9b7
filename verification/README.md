# mixid_core

MixID identifies which songs play in a DJ mix, and when. This crate is its
verified core, written in Verus: every function under `src/` carries a
`requires`/`ensures` contract that Verus proves.

| Module | What it proves |
|---|---|
| `names` | `Artist - Title` stem parsing (with the `NN - Artist - Title` track-number rule), title cleaning, upload-name sanitizing, audio extensions |
| `fingerprint` | per-band peak picking (the strongest local maximum in each of five frequency bands) over integer magnitude keys, anchor/target hash pairing |
| `matcher` | track index with stride sampling, mix occurrence counts, offset voting, matched pairs, run splitting, adaptive run trimming, the segments a track reports |
| `analysis` | document frequencies of hashes, the final tracklist (overlapping segments of a track: the more confident is kept) |
| `export` | CUE, CSV and extended M3U text |
| `text`, `order` | trimming, decimal rendering, stable ordering |

`app/` is the program around it: audio decoding and the FFT (floating
point), the IDF-weighted scoring, the SQLite store, the command line and the
web server. The Tauri phone front end is not included; the command line
and the web server cover its operations.
