# fm-index

Compressed full-text indexes over texts of integer characters: the FM-index,
the run-length FM-index and an FM-index over several zero-separated pieces,
each with an optional sampled suffix array for locate queries.

The library under `src/` is written in Verus. Its contracts state, over a
mathematical model of texts, suffix arrays and the Burrows-Wheeler transform,
what construction, backward search, counting, locating and character
extraction return; `src/laws.rs` holds the properties that relate several
operations. The succinct bit vectors and wavelet matrices come from the
`vers-vecs` crate, reached through the small trusted wrappers of
`src/succinct.rs`. Suffix arrays are built with SA-IS; its result is checked
in linear time before it is used (should SA-IS give up, the suffixes are
sorted instead), so the suffix array is proved, while SA-IS's own
correctness is not.

`app/` holds what the verified library cannot carry itself: an error type with
`Display` and `std::error::Error`.
