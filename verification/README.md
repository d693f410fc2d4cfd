# pipf

Pedersen vector commitments with logarithmic-sized inner product proofs (the
Bulletproofs inner product argument) over the Ristretto group of
`curve25519-dalek`, with Merlin transcripts for the Fiat-Shamir transformation.
The library is written in Verus: its functions carry contracts and its laws are
proved.

## Layout

- `src/algebra.rs`: arithmetic modulo the group order ℓ, inner products of integer
  sequences, folding of vectors and the weights that describe repeated folding, and
  the round lemma of the argument.
- `src/group.rs`: the scalars and points of `curve25519-dalek`. A scalar is modelled
  by the integer it holds, a point by its discrete logarithm; the group operations
  are trusted to act on these as the documentation of a prime-order group states.
- `src/transcript.rs`: Merlin transcripts, modelled by their state (appending a
  message and drawing challenge bytes are functions of the state and their
  arguments), and the `TranscriptProtocol` extension.
- `src/commit.rs`: generators, Pedersen vector commitments, inner products.
- `src/protocol.rs`: the mathematical description of the argument (prover rounds,
  the verifier's transcript and checks) and its laws: an honest proof is accepted
  (unless a challenge is zero), and folding the cross terms is additive.
- `src/argument.rs`: the prover and the verifier.
- `app/main.rs`: a demonstration program, and the serializable form of a proof.

## The argument

For generators `G_i`, `H_i`, `G` and a base `U` derived from `"inner-product-U"`, a
commitment `P = Σ(a_i G_i + b_i H_i) + r G` and the claim `c = ⟨a, b⟩`, both parties
first absorb the domain separator, `P` (under `"P"`) and `c` (under `"c"`) into the
transcript and draw a challenge `w`; the inner product is carried by `w U`, so that a
proof is tied to the commitment and to the claimed value. Each round commits to

- `L = ⟨a_lo, G_hi⟩ + ⟨b_hi, H_lo⟩ + ⟨a_lo, b_hi⟩ wU + r_L G`,
- `R = ⟨a_hi, G_lo⟩ + ⟨b_lo, H_hi⟩ + ⟨a_hi, b_lo⟩ wU + r_R G`,

draws the challenge `x` from the transcript and folds
`a' = x a_lo + x⁻¹ a_hi`, `b' = x⁻¹ b_lo + x b_hi`, `G' = x⁻¹ G_lo + x G_hi`,
`H' = x H_lo + x⁻¹ H_hi`, `r' = r + x² r_L + x⁻² r_R`.
A proof without rounds (vectors of length one) is the opening itself, and the verifier
accepts it when `a b = c` and `P = r G + a G_0 + b H_0`. Otherwise the verifier accepts
when

`P + c wU + Σ (x_j² L_j + x_j⁻² R_j) = r G + a G_final + b H_final + (a b) wU`,

where `G_final` and `H_final` are the generators weighted by the products of the
challenges that the bits of their index select.
