//! The wallet daemon's rules: what its files hold, how it follows the chain, and what it
//! spends.

pub mod adopt;
pub mod blocks;
pub mod credentials;
pub mod fees;
pub mod history;
pub mod laws;
pub mod load;
pub mod parked;
pub mod previewed;
pub mod records;
pub mod repair;
pub mod request;
pub mod scanfile;
pub mod seal;
pub mod spend;
pub mod status;
pub mod submit;
pub mod sync;
pub mod vault;
pub mod warm;
