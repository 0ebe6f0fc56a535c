//! The wallet's two halves: recovering the notes that a chain sends it, and building the
//! bundles that spend them.

pub mod builder;
pub mod laws;
pub mod payment;
pub mod pending;
pub mod plan;
pub mod prepared;
pub mod scan;

pub use builder::{ActionProvingKey, BuildError};
pub use payment::{
    build_output_only_bundle, build_payment_bundle, build_singleleaf_coinbase_spend,
    build_spend_bundle, build_wallet_payment, proving_key, to_wire, ShieldedKeys,
};
pub use prepared::{finalize_payment, prepare_payment, sign_spend_auth, PreparedPayment};

pub use scan::{
    address_bytes_from_seed, ivk_from_seed, recover_sent, scan_bundle, scan_bundle_prepared,
    scan_compact, scan_compact_prepared, trim_memo, CompactActionRecord, ReceivedNote,
};
