# verkle_verifier

Verification of Verkle-tree opening proofs, written in Verus.

* `field` — the scalar field of the Bandersnatch curve. A `Scalar` is four
  64-bit limbs; its value is that number reduced modulo the group order.
  Field operations are computed by ark-ff and specified exactly.
* `curve` — points of the prime-order subgroup of Bandersnatch, held as their
  uncompressed affine encoding. Group operations are computed by ark-ec and
  specified by the affine twisted Edwards addition law (`point_sum`), repeated
  addition (`point_scale`) and the compressed format (`point_compress`);
  decompression is named (`point_decompress`).
* `hash` — SHA-256 (from `sha2`), named by `sha256`.
* `transcript` — the Fiat-Shamir transcript.
* `precompute` — the reference string derived from a seed by try-and-increment.
* `banderwagon` — multi-scalar multiplication and inner products.
* `pedersen` — vector commitments.
* `ipa` — the inner product argument verifier.
* `multiproof` — batching many opening claims into one IPA.

Every public function states its result exactly over these models; the
transcript challenges, the folded basis, the folded powers of the evaluation
point and the final equation of the IPA are all spec functions.

`app/` holds a copy of the error type with a printable `Display`.

The group is the prime-order subgroup of Bandersnatch as arkworks implements
it, not the Banderwagon quotient group of Ethereum's Verkle specification:
point equality, the compressed serialization and the decoding of the
reference string's digests are arkworks', so the bytes absorbed by the
transcript, the challenges and the reference-string points differ from those
of a Banderwagon-based verifier.
