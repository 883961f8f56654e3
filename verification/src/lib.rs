//! Watches a key-value store for changes and prepares structured change
//! notifications for delivery to a remote consumer.
//!
//! The store itself, the filesystem notification source, the operating-system
//! signal facility and the HTTP transport are external collaborators; this
//! crate holds the verified core: ordered snapshots, the diff engine, the
//! change-detector state machine, and the wire encoding of change events.

pub mod delivery;
pub mod detector;
pub mod diff;
pub mod filter;
pub mod identity;
pub mod laws;
pub mod order;
pub mod state;
pub mod wire;

pub use diff::change_counts;
pub use diff::compare_state;
pub use diff::apply_changes;
pub use diff::Change;
pub use detector::classify_fs_event;
pub use detector::full_reload_request;
pub use detector::ChangeEvent;
pub use detector::Detector;
pub use detector::ReloadRequest;
pub use detector::StoreError;
pub use detector::RELOAD_TIMEOUT_SECS;
pub use filter::build_state;
pub use filter::FilterError;
pub use filter::KeyFilter;
pub use identity::InstanceId;
pub use wire::encode_event;
pub use delivery::lemma_delivery_failure_isolated;
pub use detector::lemma_failed_reads_preserve_owned;
pub use detector::lemma_unchanged_reload_no_event;
pub use filter::lemma_filter_all_out;
pub use laws::lemma_diff_self;
pub use laws::lemma_diff_deterministic;
pub use laws::lemma_diff_round_trip;
pub use laws::lemma_diff_to_empty;
pub use laws::lemma_diff_ordered;
pub use order::lex_lt;
pub use order::str_lt;
pub use state::Entry;
pub use state::State;
