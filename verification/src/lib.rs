//! Pedersen vector commitments with logarithmic-sized inner product proofs over the
//! Ristretto group, with their contracts and laws proved by Verus.
pub mod algebra;
pub mod argument;
pub mod commit;
pub mod group;
pub mod protocol;
pub mod transcript;

pub use argument::{
    InnerProductProof, generate_inner_product_proof, generate_inner_product_proof_with_blinding,
    verify_inner_product_proof,
};
pub use commit::{Generators, create_generators, inner_product, pedersen_vector_commitment};
pub use transcript::TranscriptProtocol;
