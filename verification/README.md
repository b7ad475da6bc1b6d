# learning_simd

Base64 decoders and space counters written in several styles (byte by byte,
a cache line at a time, lane-wise masks, bit tricks on 64-bit words), each
proved with Verus to compute the same result as its plain counterpart.

- `src/base64.rs`: the base64 model (`decode_blocks`, `strip_padding`,
  `valid_prefix_len`), the chunk decoders, and the three decoders
  `unb64_nonsimd`, `unb64_nonsimd_cachelines`, `unb64_simd_elegant`.
- `src/count_spaces.rs`: the number of spaces before the first newline
  (`line_spaces`), `count_spaces_std`, the word-at-a-time counters, the
  lane-wise counters, and `pad_bytes`.
- `src/words.rs`: bytes and bits of 64-bit words, and the lemmas about them.
- `src/lanes.rs`: lane-wise operations on short vectors.
