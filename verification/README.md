# polynomial

Number-theoretic transforms and modular arithmetic for polynomial
multiplication, written in Verus and proved against mathematical
specifications.

- `plantard`, `montgomery`: residues modulo an odd `M` in Plantard and
  Montgomery representation (`Mint`), with multiplication, addition,
  subtraction, powers and inverses.
- `modulus`: Plantard arithmetic on bare `u32` words (`Modulus`).
- `prime`: the `NTTFriendlyPrime` constants and tables of NTT-friendly primes;
  `prime_certificates` proves every table entry prime, with `proth` giving the
  criterion.
- `butterfly`: in-place forward and inverse transforms and circular convolution
  (`Butterfly`).
- `modular`, `reduction`, `fermat`, `sums`, `roots`, `bits`, `ntt`,
  `convolution`, `word`: the mathematics the proofs rest on — congruences,
  Plantard and Montgomery reduction, Fermat's little theorem, finite sums,
  roots of unity and bit reversal, the transforms as evaluations, and the
  convolution and inversion theorems.

`app/main.rs` multiplies two polynomials read from standard input.
