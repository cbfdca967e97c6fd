//! Sharded, pre-compressed storage of password-hash ranges, and the
//! negotiation that serves them.
//!
//! A range key is five hexadecimal digits. Its shard lives at
//! `<c1>/<c2>/<c3>/<c4>/<c5>.<ext>` under the store root, with `ext` one of
//! `json`, `json.gz` and `json.br`; all three hold the same records.

pub mod compress;
pub mod negotiate;
pub mod path_codec;
pub mod range_file;
pub mod shard_json;
pub mod transcode;

pub use negotiate::{
    choose_representation, classify_token, get_accepted_encodings, plan_lookup,
    AcceptedEncodings, AppState, EncodingToken, Error, Lookup, LookupError,
};
pub use path_codec::{format_prefix_to_dirs, hex, Hash5, KeyError, Representation};
pub use range_file::{parse_range_file, Password, RangeFileError};
pub use shard_json::serialize_shard;
pub use transcode::{
    build_shard, check_completeness, skeleton_directories, transcode, BuildError, BuiltShard,
    ByteTotals, OutputFlags, ShardArtifacts, DIRECTORY_COUNT, KEYSPACE,
};
