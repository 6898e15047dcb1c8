pub mod air;
pub mod composition;
pub mod domain;
pub mod error;
pub mod fft;
pub mod fft_laws;
pub mod fri;
pub mod fri_laws;
pub mod field_babybear;
pub mod field_laws;
pub mod merkle_tree_fp;
pub mod poly;
pub mod poly_laws;
pub mod poly_ring;
pub mod poseidon2;
pub mod poseidon2_babybear;
pub mod poseidon2_laws;
