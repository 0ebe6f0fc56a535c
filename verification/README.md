# zkas_shielded

The shielded pool of ZKas: the rules that consensus applies to shielded
transactions, and the wallet that lives off them, as a Verus library.

- `src/` is the verified library. `state`, `nullifier`, `turnstile`, `tree`,
  `commitment`, `coinbase`, `bundle` and `verify` are consensus; `wallet`,
  `walletdb`, `witness`, `account`, `payment_check` and `message` are the wallet
  and its signing device; `daemon` holds the decisions of the wallet daemon, and
  `payer` those of the command-line payer.
- `tests/` runs the library on concrete values.
- `app/` is the daemon and the payer themselves: sockets, files and the loops that
  drive the library.

Curve arithmetic, hashing, proving and note encryption come from the orchard,
incrementalmerkletree, blake2b_simd, argon2, chacha20poly1305 and sha2 crates.
Each call stands in a small `external_body` function whose doc comment says what is
taken on trust.
