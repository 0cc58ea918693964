# CGGMP24 key share refresh

Share refresh from [CGGMP24] Figure 7 without Paillier/Pedersen regeneration, for non-threshold
(`n`-out-of-`n`) and threshold (`t`-out-of-`n`) keys, written in Verus: what each step returns is
stated in contracts and proved.

- `src/` is the library. A party of a protocol is a chain of states (`non_threshold`, `threshold`):
  each takes the messages of a round and gives the next state, with the messages to send, or an
  error that blames the parties at fault. `rounds` holds the steps that the two protocols share,
  `key_share` says what a valid key share is, and `unambiguous` holds the digests.
  `dlog_with_el_gamal_commitment` is a zero-knowledge proof, and `security_level` the parameters of
  CGGMP21. All of it is generic over a curve (`curve`, `refresh_curve`).
- Points are described by their discrete logarithms: an equation between points is stated as an
  equation between logarithms modulo the group order.
- `secp256k1` and `secp256r1` compute with `generic_ec` and `generic_ec_zkp`; digests come from `udigest`,
  `sha2` and `rand_hash`, random values from `rand_core`. What is believed of them is stated where
  they are called. `million` is a small group whose arithmetic is proved without them; only its
  random scalars come from `rand_core`.
- `app/` runs the protocols over `round_based`.

[CGGMP24]: https://ia.cr/2021/060
