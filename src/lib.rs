//! Auxiliary state commitment over account state, and paginated, ordered
//! access to plain storage with a fixed binary export format.

pub mod bytes;
pub mod export;
pub mod keys;
pub mod pager;
pub mod rpc;
pub mod tree;

pub use bytes::Uint256;
pub use export::{export_hashed, export_plain, HashedAccount, HashedSlot, StateHeader};
pub use keys::{account_updates_to_ubt, AccountInfo, AccountUpdate};
pub use pager::{DumpStorageEntry, DumpStorageRequest, DumpStorageResponse, PageCollector};
pub use rpc::{
    parse_block_number, GetRootRequest, GetStateDeltaRequest, GetStateDeltaResponse, ParamValue, RpcErr,
    StorageDelta,
};
pub use tree::{BlockNumber, UbtState, UbtUpdate};
