//! Verified core of a shogi NNUE training toolkit.

pub mod attacks;
pub mod batch;
pub mod board;
pub mod board_phase;
pub mod bona;
pub mod build_identity;
pub mod compute_cap;
pub mod data_pass;
pub mod diagnostics;
pub mod digest;
pub mod e4;
pub mod epoch;
pub mod error;
pub mod feature_set;
pub mod fingerprint;
pub mod halfka_psqt;
pub mod kernel_build;
pub mod labels;
pub mod launch;
pub mod le;
pub mod ordered;
pub mod prefetch;
pub mod progress_kpabs;
pub mod psqt_material;
pub mod psv;
pub mod psv_file;
pub mod rescore_run;
pub mod sampling;
pub mod shuffle;
pub mod sidecar;
pub mod text;
pub mod window;
pub mod yo;
