//! Stream operators whose buffering, back-pressure and lifetime behaviour is
//! explicit.
//!
//! Each operator is a state machine without input or output of its own. Its
//! caller polls the sources and deadlines that a step asks for, reports what
//! they gave, and wakes whom a turn hands out.

pub mod broadcast;
pub mod budget;
pub mod combine_latest;
pub mod combine_latest_all;
pub mod combined;
pub mod debounce;
pub mod distinct_until_changed;
pub mod driver;
pub mod gate_group;
pub mod gate_laws;
pub mod gate_order;
pub mod gate_runs;
pub mod hot;
pub mod key_order;
pub mod latest;
pub mod merge_laws;
pub mod merge_ordered;
pub mod merge_runs;
pub mod order_gate;
pub mod poll;
pub mod share;
pub mod share_replay;
pub mod subsequence;
pub mod throttle;
pub mod with_latest_from;

pub use broadcast::can_hold;
pub use budget::WORK_BUDGET;
pub use combine_latest::{
    CombineLatest2Stream, CombineLatest3Stream, CombineLatest4Stream, CombineLatest5Stream,
    CombineLatest6Stream, CombineLatest7Stream, CombineLatest8Stream,
};
pub use combine_latest_all::{combine_latest_all, CombineLatestIterStream};
pub use debounce::{debounce, DebounceStream};
pub use distinct_until_changed::{
    distinct_until_changed, distinct_until_changed_by, DistinctStep, DistinctUntilChangedByStream,
    DistinctUntilChangedStream,
};
pub use driver::{DriverStep, DriverTurn, Timer};
pub use hot::HotChannel;
pub use latest::{latest, LatestStream};
pub use merge_ordered::{
    merge_ordered, try_merge_ordered, MergeOrderedStream, MergeStep, Ordered, ScanWake,
    TryMergeOrderedStream, TryMergeStep,
};
pub use order_gate::{
    GateStep, KeyedItem, MemberTurn, OrderGate, OrderGatedStream, TryGateStep, TryMemberTurn,
    TryOrderGatedStream,
};
pub use poll::{StreamPoll, TryStreamPoll};
pub use share::{share, share_latest, share_overflow, ShareDriver, ShareHub, ShareStream};
pub use share_replay::{
    share_replay, share_replay_latest, share_replay_overflow, ReplayHub, ReplayPoll,
    ShareReplayStream,
};
pub use throttle::{throttle, ThrottleStream};
pub use with_latest_from::{with_latest_from, WithLatestFromStream, WithLatestStep};
