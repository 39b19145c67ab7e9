pub mod alg;
pub mod analysis;
pub mod grip;
pub mod moveseq;
pub mod order;
pub mod region;
