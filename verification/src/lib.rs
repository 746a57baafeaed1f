//! Two-peer directory synchronization core.
//!
//! Each peer keeps a snapshot of its own tree, a belief about the other
//! peer's tree, and a content-addressed blob store; the peers exchange
//! differential updates until both sides hold byte-identical trees.

pub mod disk;
pub mod init;
pub mod node;
pub mod path;
pub mod retry;
pub mod state;
pub mod store;
pub mod watch;

pub use disk::DiskAction;
pub use init::AnyNodeMessage;
pub use init::NodeInit;
pub use init::NodeInitMessage;
pub use node::Node;
pub use node::NodeMessage;
pub use node::RefreshObservation;
pub use retry::RetryState;
pub use state::PathObservation;
pub use watch::DebounceWindow;
pub use watch::IgnoreFilter;
pub use watch::RefreshRequest;
pub use watch::WatchEventKind;

pub use path::FilePath;
pub use state::FileChange;
pub use state::FsState;
pub use state::FsStateDiff;
pub use store::ContentId;
pub use store::ContentStore;
pub use store::FileMetadata;
pub use store::SyncError;
