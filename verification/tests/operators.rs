use std::task::Context;

use futures::task::noop_waker;
use streamx::{
    can_hold, combine_latest_all, debounce, distinct_until_changed, distinct_until_changed_by,
    latest, share, share_latest, share_overflow, share_replay, share_replay_latest,
    share_replay_overflow, throttle, with_latest_from, CombineLatest2Stream, CombineLatest3Stream,
    CombineLatest4Stream, CombineLatest5Stream, CombineLatest6Stream, CombineLatest7Stream,
    CombineLatest8Stream, DebounceStream, DistinctStep, DriverStep, HotChannel, ReplayPoll,
    ShareDriver, StreamPoll, ThrottleStream, Timer, WithLatestStep, WORK_BUDGET,
};

/// Takes everything that is ready for a consumer without a waker of interest.
fn drain<T>(mut poll: impl FnMut() -> StreamPoll<T>) -> Vec<T> {
    let mut items = vec![];
    while let StreamPoll::Item(item) = poll() {
        items.push(item);
    }
    items
}

#[test]
fn channel_keeps_the_newest_outputs() {
    let mut channel: HotChannel<u32, u32> = HotChannel::new(3);
    for item in 1..=5 {
        assert_eq!(channel.send(item), None);
    }
    assert_eq!(drain(|| channel.poll_next(0)), vec![3, 4, 5]);
}

#[test]
fn channel_wakes_the_latest_pending_poll_once() {
    let mut channel: HotChannel<u32, u32> = HotChannel::new(1);
    assert!(matches!(channel.poll_next(7), StreamPoll::Pending));
    assert!(matches!(channel.poll_next(8), StreamPoll::Pending));
    assert_eq!(channel.send(1), Some(8));
    assert_eq!(channel.send(2), None);
    assert!(matches!(channel.poll_next(9), StreamPoll::Item(2)));
    assert_eq!(channel.close(), None);
    assert!(matches!(channel.poll_next(9), StreamPoll::End));
}

#[test]
fn closed_channel_drains_and_takes_nothing_more() {
    let mut channel: HotChannel<u32, u32> = HotChannel::new(2);
    channel.send(1);
    assert!(!channel.driver_started());
    assert_eq!(channel.mark_driver_started(), None);
    assert!(channel.driver_started());
    channel.close();
    assert_eq!(channel.send(2), None);
    assert!(matches!(channel.poll_next(0), StreamPoll::Item(1)));
    assert!(matches!(channel.poll_next(0), StreamPoll::End));
    assert!(matches!(channel.poll_next(0), StreamPoll::End));
}

#[test]
fn latest_gives_the_newest_item_and_then_the_end() {
    let mut stream = latest::<u32, u32>();
    assert!(matches!(stream.poll_next(3), StreamPoll::Pending));
    let turn = stream.source_polled(StreamPoll::Item(1));
    assert!(turn.step == DriverStep::PollSource);
    assert!(turn.timer == Timer::Keep);
    assert_eq!(turn.wake, Some(3));
    assert_eq!(stream.source_polled(StreamPoll::Item(2)).wake, None);
    assert!(stream.source_polled(StreamPoll::Pending).step == DriverStep::Park);
    assert!(stream.source_polled(StreamPoll::End).step == DriverStep::Finish);
    assert!(matches!(stream.poll_next(0), StreamPoll::Item(2)));
    assert!(matches!(stream.poll_next(0), StreamPoll::End));
}

#[test]
fn newest_items_are_taken_in_order() {
    let mut stream = latest::<u32, u32>();
    let mut taken = vec![];
    for item in 1..=6 {
        stream.source_polled(StreamPoll::Item(item));
        if item % 3 == 1 {
            taken.extend(drain(|| stream.poll_next(0)));
        }
    }
    stream.source_polled(StreamPoll::End);
    stream.close();
    taken.extend(drain(|| stream.poll_next(0)));
    assert_eq!(taken, vec![1, 4, 6]);
    assert!(matches!(stream.poll_next(0), StreamPoll::End));
}

#[test]
fn driver_yields_once_per_budget() {
    let mut stream = latest::<usize, u32>();
    let mut yields = vec![];
    for item in 1..=2 * WORK_BUDGET {
        if stream.source_polled(StreamPoll::Item(item)).step == DriverStep::Yield {
            yields.push(item);
        }
    }
    assert_eq!(yields, vec![WORK_BUDGET, 2 * WORK_BUDGET]);
    assert_eq!(WORK_BUDGET, 64);
}

#[test]
fn first_report_marks_the_start_once() {
    let mut stream = latest::<u32, u32>();
    assert!(matches!(stream.poll_next(3), StreamPoll::Pending));
    assert!(!stream.driver_started());
    assert_eq!(stream.source_polled(StreamPoll::Pending).wake, Some(3));
    assert!(stream.driver_started());
    assert!(matches!(stream.poll_next(4), StreamPoll::Pending));
    assert_eq!(stream.source_polled(StreamPoll::Pending).wake, None);
    assert_eq!(stream.source_polled(StreamPoll::Item(1)).wake, Some(4));
}

#[test]
fn aborted_driver_completes_the_stream() {
    let mut stream = latest::<u32, u32>();
    assert!(matches!(stream.poll_next(5), StreamPoll::Pending));
    assert_eq!(stream.close(), Some(5));
    assert!(matches!(stream.poll_next(5), StreamPoll::End));
}

/// What a driver sees.
enum Seen {
    Item(u32),
    Ready,
}

#[test]
fn quiet_periods_decide_what_survives() {
    let mut stream: DebounceStream<u32, u32> = debounce(3);
    let seen = [
        Seen::Item(1),
        Seen::Item(2),
        Seen::Ready,
        Seen::Item(3),
        Seen::Ready,
        Seen::Item(4),
        Seen::Item(5),
        Seen::Ready,
        Seen::Item(6),
        Seen::Ready,
        Seen::Item(7),
    ];
    for event in seen {
        match event {
            Seen::Item(item) => {
                let turn = stream.source_polled(StreamPoll::Item(item));
                assert!(turn.step == DriverStep::PollSource);
                assert!(turn.timer == Timer::Start);
            }
            Seen::Ready => {
                assert!(stream.source_polled(StreamPoll::Pending).step == DriverStep::PollDeadline);
                let turn = stream.deadline_polled(true);
                assert!(turn.step == DriverStep::PollSource);
                assert!(turn.timer == Timer::Stop);
            }
        }
    }
    // 2, 3, 5 and 6 survived; 2 was dropped at capacity; 7 still waits.
    assert_eq!(drain(|| stream.poll_next(0)), vec![3, 5, 6]);
    assert!(stream.source_polled(StreamPoll::End).step == DriverStep::Finish);
    assert_eq!(drain(|| stream.poll_next(0)), vec![7]);
    assert!(matches!(stream.poll_next(0), StreamPoll::End));
}

#[test]
fn consumer_takes_survivors_whenever_it_polls() {
    let mut stream: DebounceStream<u32, u32> = debounce(1);
    let mut taken = vec![];
    let mut deadlines = 0;
    for item in 1..=6 {
        if stream.source_polled(StreamPoll::Item(item)).timer == Timer::Start {
            deadlines += 1;
        }
        if item % 2 == 0 {
            stream.source_polled(StreamPoll::Pending);
            stream.deadline_polled(true);
        }
        // The consumer misses the first quiet period.
        if item > 3 {
            taken.extend(drain(|| stream.poll_next(0)));
        }
    }
    stream.source_polled(StreamPoll::Item(7));
    stream.source_polled(StreamPoll::End);
    stream.close();
    taken.extend(drain(|| stream.poll_next(0)));
    // 2, 4, 6 and 7 survived; 4 took the place of 2.
    assert_eq!(taken, vec![4, 6, 7]);
    assert_eq!(deadlines, 6);
    assert!(matches!(stream.poll_next(0), StreamPoll::End));
}

#[test]
fn pending_item_is_lost_with_the_driver() {
    let mut stream: DebounceStream<u32, u32> = debounce(1);
    stream.source_polled(StreamPoll::Item(1));
    stream.close();
    assert!(matches!(stream.poll_next(0), StreamPoll::End));
}

#[test]
fn consumer_takes_leading_items_whenever_it_polls() {
    let mut stream: ThrottleStream<u32, u32> = throttle(3);
    let mut taken = vec![];
    let mut deadlines = 0;
    for item in 1..=9 {
        let turn = stream.source_polled(StreamPoll::Item(item));
        if turn.timer == Timer::Start {
            deadlines += 1;
        }
        if turn.step == DriverStep::PollDeadline {
            stream.deadline_polled(item % 4 == 0);
        }
        if item == 6 {
            taken.extend(drain(|| stream.poll_next(0)));
        }
    }
    stream.source_polled(StreamPoll::End);
    taken.extend(drain(|| stream.poll_next(0)));
    // Windows end with 4 and 8, so 5 and 9 lead the next ones.
    assert_eq!(taken, vec![1, 5, 9]);
    assert_eq!(deadlines, 3);
    assert!(matches!(stream.poll_next(0), StreamPoll::End));
}

#[test]
fn silent_debounce_parks() {
    let mut stream: DebounceStream<u32, u32> = debounce(1);
    assert!(stream.source_polled(StreamPoll::Pending).step == DriverStep::Park);
    stream.source_polled(StreamPoll::Item(1));
    assert!(stream.source_polled(StreamPoll::Pending).step == DriverStep::PollDeadline);
    let turn = stream.deadline_polled(false);
    assert!(turn.step == DriverStep::Park);
    assert!(turn.timer == Timer::Keep);
    assert!(matches!(stream.poll_next(9), StreamPoll::Pending));
    let turn = stream.source_polled(StreamPoll::End);
    assert_eq!(turn.wake, Some(9));
    assert!(turn.timer == Timer::Stop);
    assert!(matches!(stream.poll_next(9), StreamPoll::Item(1)));
}

#[test]
fn leading_items_pass_a_throttle() {
    let mut stream: ThrottleStream<u32, u32> = throttle(2);
    // The first item opens a window, the second one is discarded in it.
    let turn = stream.source_polled(StreamPoll::Item(1));
    assert!(turn.timer == Timer::Start);
    assert!(turn.step == DriverStep::PollSource);
    assert!(stream.source_polled(StreamPoll::Item(2)).step == DriverStep::PollDeadline);
    let turn = stream.deadline_polled(false);
    assert!(turn.timer == Timer::Keep);
    assert!(turn.step == DriverStep::PollSource);
    // An item that is ready together with the deadline belongs to the old window.
    assert!(stream.source_polled(StreamPoll::Item(3)).step == DriverStep::PollDeadline);
    let turn = stream.deadline_polled(true);
    assert!(turn.timer == Timer::Stop);
    assert!(turn.step == DriverStep::PollSource);
    // The next item leads a new window.
    stream.source_polled(StreamPoll::Item(4));
    assert!(stream.source_polled(StreamPoll::Pending).step == DriverStep::PollDeadline);
    assert!(stream.deadline_polled(false).step == DriverStep::Park);
    assert!(stream.source_polled(StreamPoll::Pending).step == DriverStep::PollDeadline);
    stream.deadline_polled(true);
    assert!(stream.source_polled(StreamPoll::Pending).step == DriverStep::Park);
    stream.source_polled(StreamPoll::Item(5));
    stream.source_polled(StreamPoll::Item(6));
    stream.deadline_polled(false);
    assert!(stream.source_polled(StreamPoll::End).step == DriverStep::Finish);
    // 1, 4 and 5 led; 1 was dropped at capacity; 6 is not flushed.
    assert_eq!(drain(|| stream.poll_next(0)), vec![4, 5]);
    assert!(matches!(stream.poll_next(0), StreamPoll::End));
}

#[test]
fn snapshots_hold_the_latest_value_of_each_input() {
    let mut stream = combine_latest_all::<u32, u32>(3);
    assert!(stream.input_next(0, Some(1)).wake.is_none());
    stream.input_next(2, Some(30));
    assert!(matches!(stream.poll_next(4), StreamPoll::Pending));
    assert_eq!(stream.input_next(1, Some(20)).wake, Some(4));
    stream.input_next(0, Some(2));
    assert!(stream.input_next(0, None).step == DriverStep::PollSource);
    stream.input_next(2, Some(31));
    assert_eq!(drain(|| stream.poll_next(0)), vec![vec![2, 20, 31]]);
    assert!(stream.input_next(2, None).step == DriverStep::PollSource);
    assert!(stream.input_next(1, None).step == DriverStep::Finish);
    assert!(matches!(stream.poll_next(0), StreamPoll::End));
}

#[test]
fn snapshots_move_forward_to_the_last_values() {
    let mut stream = combine_latest_all::<u32, u32>(2);
    let mut taken = vec![];
    for (index, item) in [(0, 1), (1, 10), (0, 2), (0, 3), (1, 11), (0, 4)] {
        stream.input_next(index, Some(item));
        if item == 10 || item == 3 {
            taken.extend(drain(|| stream.poll_next(0)));
        }
    }
    stream.input_next(0, None);
    stream.input_next(1, None);
    taken.extend(drain(|| stream.poll_next(0)));
    assert_eq!(taken, vec![vec![1, 10], vec![3, 10], vec![4, 11]]);

    let mut pair = CombineLatest2Stream::<u32, u32, u32>::new();
    pair.input1_next(Some(1));
    assert_eq!(drain(|| pair.poll_next(0)), vec![]);
    pair.input2_next(Some(2));
    pair.input1_next(Some(3));
    pair.input1_next(None);
    assert_eq!(drain(|| pair.poll_next(0)), vec![(3, 2)]);

    let mut eight = CombineLatest8Stream::<u8, u8, u8, u8, u8, u8, u8, u8, u32>::new();
    eight.input1_next(Some(1));
    eight.input2_next(Some(2));
    eight.input3_next(Some(3));
    eight.input4_next(Some(4));
    eight.input5_next(Some(5));
    eight.input6_next(Some(6));
    eight.input7_next(Some(7));
    assert_eq!(drain(|| eight.poll_next(0)), vec![]);
    eight.input8_next(Some(8));
    eight.input1_next(Some(11));
    let mut taken = drain(|| eight.poll_next(0));
    eight.input8_next(None);
    eight.input7_next(Some(17));
    eight.input7_next(Some(27));
    eight.close();
    taken.extend(drain(|| eight.poll_next(0)));
    assert_eq!(taken, vec![(11, 2, 3, 4, 5, 6, 7, 8), (11, 2, 3, 4, 5, 6, 27, 8)]);
}

#[test]
fn valueless_input_ends_a_combination() {
    let mut stream = combine_latest_all::<u32, u32>(2);
    stream.input_next(0, Some(1));
    assert!(stream.input_next(1, None).step == DriverStep::Finish);
    assert!(matches!(stream.poll_next(0), StreamPoll::End));

    let mut none = combine_latest_all::<u32, u32>(0);
    assert!(matches!(none.poll_next(0), StreamPoll::End));

    let mut pair = CombineLatest2Stream::<u32, bool, u32>::new();
    assert!(matches!(pair.poll_next(6), StreamPoll::Pending));
    let turn = pair.input2_next(None);
    assert!(turn.step == DriverStep::Finish);
    assert_eq!(turn.wake, Some(6));
    assert!(matches!(pair.poll_next(6), StreamPoll::End));
}

#[test]
fn combinations_of_two_to_eight_inputs() {
    let mut two = CombineLatest2Stream::<u8, char, u32>::new();
    two.input1_next(Some(1));
    two.input2_next(Some('b'));
    assert_eq!(drain(|| two.poll_next(0)), vec![(1, 'b')]);

    let mut three = CombineLatest3Stream::<u8, char, u8, u32>::new();
    three.input1_next(Some(1));
    three.input2_next(Some('b'));
    three.input3_next(Some(3));
    assert_eq!(drain(|| three.poll_next(0)), vec![(1, 'b', 3)]);

    let mut four = CombineLatest4Stream::<u8, char, u8, u8, u32>::new();
    four.input4_next(Some(4));
    four.input3_next(Some(3));
    four.input2_next(Some('b'));
    assert_eq!(drain(|| four.poll_next(0)), vec![]);
    four.input1_next(Some(1));
    assert_eq!(drain(|| four.poll_next(0)), vec![(1, 'b', 3, 4)]);

    let mut five = CombineLatest5Stream::<u8, u8, u8, u8, u8, u32>::new();
    five.input1_next(Some(1));
    five.input2_next(Some(2));
    five.input3_next(Some(3));
    five.input4_next(Some(4));
    five.input5_next(Some(5));
    five.input3_next(Some(33));
    assert_eq!(drain(|| five.poll_next(0)), vec![(1, 2, 33, 4, 5)]);

    let mut six = CombineLatest6Stream::<u8, u8, u8, u8, u8, u8, u32>::new();
    six.input1_next(Some(1));
    six.input2_next(Some(2));
    six.input3_next(Some(3));
    six.input4_next(Some(4));
    six.input5_next(Some(5));
    six.input6_next(Some(6));
    assert_eq!(drain(|| six.poll_next(0)), vec![(1, 2, 3, 4, 5, 6)]);
    assert!(six.input6_next(None).step == DriverStep::PollSource);

    let mut seven = CombineLatest7Stream::<u8, u8, u8, u8, u8, u8, u8, u32>::new();
    seven.input1_next(Some(1));
    seven.input2_next(Some(2));
    seven.input3_next(Some(3));
    seven.input4_next(Some(4));
    seven.input5_next(Some(5));
    seven.input6_next(Some(6));
    seven.input7_next(Some(7));
    assert_eq!(drain(|| seven.poll_next(0)), vec![(1, 2, 3, 4, 5, 6, 7)]);

    let mut eight = CombineLatest8Stream::<u8, u8, u8, u8, u8, u8, u8, u8, u32>::new();
    eight.input1_next(Some(1));
    eight.input2_next(Some(2));
    eight.input3_next(Some(3));
    eight.input4_next(Some(4));
    eight.input5_next(Some(5));
    eight.input6_next(Some(6));
    eight.input7_next(Some(7));
    eight.input8_next(Some(8));
    assert_eq!(drain(|| eight.poll_next(0)), vec![(1, 2, 3, 4, 5, 6, 7, 8)]);
    eight.close();
    assert!(matches!(eight.poll_next(0), StreamPoll::End));
}

#[test]
fn duplicates_are_skipped_within_the_budget() {
    let mut filter = distinct_until_changed::<u32>();
    assert!(matches!(filter.source_polled(StreamPoll::Item(1)), DistinctStep::Emit(1)));
    for _ in 1..WORK_BUDGET {
        assert!(matches!(filter.source_polled(StreamPoll::Item(1)), DistinctStep::PollSource));
    }
    assert!(matches!(filter.source_polled(StreamPoll::Item(1)), DistinctStep::Yield));
    assert!(matches!(filter.source_polled(StreamPoll::Item(1)), DistinctStep::PollSource));
    assert!(matches!(filter.source_polled(StreamPoll::Pending), DistinctStep::Pending));
    assert!(matches!(filter.source_polled(StreamPoll::Item(2)), DistinctStep::Emit(2)));
    assert!(matches!(filter.source_polled(StreamPoll::Item(1)), DistinctStep::Emit(1)));
    assert!(matches!(filter.source_polled(StreamPoll::End), DistinctStep::End));
}

#[test]
fn exactly_the_changes_are_emitted() {
    let mut filter = distinct_until_changed::<u32>();
    let mut emitted = vec![];
    for item in [3, 3, 1, 1, 1, 3, 2, 2, 3] {
        // Silence in between does not reset the comparison.
        assert!(matches!(filter.source_polled(StreamPoll::Pending), DistinctStep::Pending));
        if let DistinctStep::Emit(item) = filter.source_polled(StreamPoll::Item(item)) {
            emitted.push(item);
        }
    }
    assert_eq!(emitted, vec![3, 1, 3, 2, 3]);
}

#[test]
fn comparison_sees_the_item_emitted_last() {
    let mut compared = vec![];
    let mut filter = distinct_until_changed_by(|previous: &u32, item: &u32| {
        compared.push((*previous, *item));
        item - previous < 3
    });
    let mut emitted = vec![];
    for item in [1, 2, 3, 4, 9] {
        if let DistinctStep::Emit(item) = filter.source_polled(StreamPoll::Item(item)) {
            emitted.push(item);
        }
    }
    drop(filter);
    assert_eq!(emitted, vec![1, 4, 9]);
    assert_eq!(compared, vec![(1, 2), (1, 3), (1, 4), (4, 9)]);
}

#[test]
fn primary_waits_for_the_start_of_the_secondary() {
    let mut stream = with_latest_from::<u32>();
    let mut secondary = latest::<u32, u32>();
    assert!(matches!(stream.begin_poll::<u32>(), WithLatestStep::PollSecondary));
    let step = stream.poll_secondary::<u32, u32>(&mut secondary, 5);
    assert!(matches!(step, WithLatestStep::Pending));
    assert!(!secondary.driver_started());
    let turn = secondary.source_polled(StreamPoll::Pending);
    assert_eq!(turn.wake, Some(5));
    assert!(secondary.driver_started());
    assert!(stream.has_secondary());

    // Polled, but without an item: the primary is asked and its items are lost.
    assert!(matches!(stream.begin_poll::<u32>(), WithLatestStep::PollSecondary));
    let step = stream.poll_secondary::<u32, u32>(&mut secondary, 5);
    assert!(matches!(step, WithLatestStep::PollPrimary));
    assert!(matches!(stream.primary_polled(StreamPoll::Item(1)), WithLatestStep::PollPrimary));
    assert!(matches!(stream.primary_polled::<u32>(StreamPoll::Pending), WithLatestStep::Pending));

    secondary.source_polled(StreamPoll::Item(10));
    secondary.source_polled(StreamPoll::Item(20));
    stream.begin_poll::<u32>();
    stream.poll_secondary::<u32, u32>(&mut secondary, 5);
    assert!(matches!(stream.primary_polled(StreamPoll::Item(2)), WithLatestStep::Emit(2, 20)));

    // A completed secondary keeps its last item.
    secondary.source_polled(StreamPoll::End);
    stream.begin_poll::<u32>();
    assert!(stream.has_secondary());
    let step = stream.poll_secondary::<u32, u32>(&mut secondary, 5);
    assert!(matches!(step, WithLatestStep::PollPrimary));
    assert!(!stream.has_secondary());
    assert!(matches!(stream.primary_polled(StreamPoll::Item(3)), WithLatestStep::Emit(3, 20)));
    assert!(matches!(stream.begin_poll::<u32>(), WithLatestStep::PollPrimary));
    assert!(matches!(stream.primary_polled::<u32>(StreamPoll::End), WithLatestStep::Finished));
    assert!(matches!(stream.begin_poll::<u32>(), WithLatestStep::Finished));
}

#[test]
fn every_primary_item_is_paired_with_the_newest_secondary_item() {
    let mut stream = with_latest_from::<u32>();
    let mut secondary = latest::<u32, u32>();
    secondary.source_polled(StreamPoll::Pending);
    let mut pairs = vec![];
    for primary in 1..=6 {
        if primary == 3 || primary == 5 {
            secondary.source_polled(StreamPoll::Item(primary * 10));
            secondary.source_polled(StreamPoll::Item(primary * 10 + 1));
        }
        if primary == 6 {
            secondary.source_polled(StreamPoll::End);
        }
        if let WithLatestStep::PollSecondary = stream.begin_poll::<u32>() {
            let step = stream.poll_secondary::<u32, u32>(&mut secondary, 0);
            assert!(matches!(step, WithLatestStep::PollPrimary));
        }
        if let WithLatestStep::Emit(a, b) = stream.primary_polled(StreamPoll::Item(primary)) {
            pairs.push((a, b));
        }
    }
    assert_eq!(pairs, vec![(3, 31), (4, 31), (5, 51), (6, 51)]);
    assert!(matches!(stream.begin_poll::<u32>(), WithLatestStep::PollPrimary));
    assert!(matches!(stream.primary_polled::<u32>(StreamPoll::End), WithLatestStep::Finished));
    assert!(matches!(stream.begin_poll::<u32>(), WithLatestStep::Finished));
}

#[test]
fn primary_without_secondary_state_is_drained_within_the_budget() {
    let mut stream = with_latest_from::<u32>();
    let mut secondary = latest::<u32, u32>();
    secondary.close();
    stream.begin_poll::<u32>();
    stream.poll_secondary::<u32, u32>(&mut secondary, 5);
    for item in 1..WORK_BUDGET {
        assert!(matches!(stream.primary_polled(StreamPoll::Item(item)), WithLatestStep::PollPrimary));
    }
    assert!(matches!(stream.primary_polled(StreamPoll::Item(0)), WithLatestStep::Yield));
}

#[test]
fn live_channels_are_made_as_asked() {
    let (hub, _stream) = share::<u32>(5);
    assert_eq!(hub.sender().capacity(), 5);
    assert!(!hub.sender().overflow());
    let (hub, _stream) = share_overflow::<u32>(3);
    assert_eq!(hub.sender().capacity(), 3);
    assert!(hub.sender().overflow());
    let (hub, _stream) = share_latest::<u32>();
    assert_eq!(hub.sender().capacity(), 1);
    assert!(hub.sender().overflow());
    let (hub, _stream) = share_replay::<u32>(2, 7);
    assert_eq!(hub.sender().capacity(), 7);
    assert!(!hub.sender().overflow());
    let (hub, _stream) = share_replay_overflow::<u32>(2, 4);
    assert_eq!(hub.sender().capacity(), 4);
    assert!(hub.sender().overflow());
    let (hub, _stream) = share_replay_latest::<u32>();
    assert_eq!(hub.sender().capacity(), 1);
    assert!(hub.sender().overflow());
}

#[test]
fn channel_size_is_limited_by_memory() {
    assert!(can_hold::<u64>(1));
    assert!(can_hold::<u64>(1 << 20));
    assert!(!can_hold::<u64>(usize::MAX));
    assert!(!can_hold::<u64>(usize::MAX / 16));
    assert!(!can_hold::<()>(usize::MAX / 8));
}

#[test]
fn live_items_reach_every_strong_subscription() {
    let waker = noop_waker();
    let mut cx = Context::from_waker(&waker);
    let (mut hub, mut first) = share::<u32>(2);
    let sender = hub.sender();
    sender.try_broadcast(1).unwrap();
    let mut second = hub.subscribe();
    sender.try_broadcast(2).unwrap();
    assert!(sender.try_broadcast(3).is_err());

    assert!(matches!(first.poll_next(&mut cx), StreamPoll::Item(1)));
    assert!(matches!(first.poll_next(&mut cx), StreamPoll::Item(2)));
    assert!(matches!(first.poll_next(&mut cx), StreamPoll::Pending));
    assert!(matches!(second.poll_next(&mut cx), StreamPoll::Item(2)));
    hub.close();
    assert!(matches!(first.poll_next(&mut cx), StreamPoll::End));
    assert!(matches!(second.poll_next(&mut cx), StreamPoll::End));
}

#[test]
fn last_drop_stops_the_source_for_good() {
    let (mut hub, first) = share::<u32>(1);
    let sender = hub.sender();
    assert!(hub.can_subscribe());
    let second = hub.upgrade();
    assert!(second.is_some());
    drop(first);
    assert!(!hub.remove_subscription());
    let third = hub.upgrade();
    assert!(third.is_some());
    drop(second);
    assert!(!hub.remove_subscription());
    assert!(!sender.is_closed());
    assert!(hub.remove_subscription());
    drop(third);
    assert!(sender.is_closed());
    assert!(hub.upgrade().is_none());
    assert!(!hub.try_add_subscription(false));
    assert!(!hub.try_add_subscription(true));
}

#[test]
fn completed_source_cannot_be_upgraded() {
    let (mut hub, _stream) = share::<u32>(1);
    assert!(!hub.try_add_subscription(true));
    assert!(hub.try_add_subscription(false));
    assert!(hub.upgrade().is_some());
    hub.close();
    assert!(hub.upgrade().is_none());
}

#[test]
fn closed_channel_ends_the_driver() {
    let mut driver = ShareDriver::new();
    for _ in 1..WORK_BUDGET {
        assert!(driver.forwarded(true) == DriverStep::PollSource);
    }
    assert!(driver.forwarded(true) == DriverStep::Yield);
    assert!(driver.forwarded(true) == DriverStep::PollSource);
    assert!(driver.forwarded(false) == DriverStep::Finish);
}

/// Polls a replay subscription until it has nothing more to give.
fn drain_replay(stream: &mut streamx::ShareReplayStream<u32>) -> Vec<u32> {
    let waker = noop_waker();
    let mut cx = Context::from_waker(&waker);
    let mut items = vec![];
    while let ReplayPoll::Item(item) = stream.poll_next(&mut cx) {
        items.push(item);
    }
    items
}

#[test]
fn item_recorded_before_and_broadcast_after_a_subscription_is_given_once() {
    let (mut hub, mut first) = share_replay::<u32>(2, 8);
    let sender = hub.sender();
    for item in [10, 11] {
        sender.try_broadcast(hub.record(item)).unwrap();
    }
    let in_flight = hub.record(12);
    assert_eq!(in_flight, (2, 12));
    let mut second = hub.subscribe();
    sender.try_broadcast(in_flight).unwrap();
    sender.try_broadcast(hub.record(13)).unwrap();

    assert_eq!(drain_replay(&mut second), vec![11, 12, 13]);
    assert_eq!(drain_replay(&mut first), vec![10, 11, 12, 13]);
}

#[test]
fn history_of_no_items_replays_nothing() {
    let (mut hub, _first) = share_replay::<u32>(0, 4);
    let sender = hub.sender();
    assert!(hub.can_record());
    sender.try_broadcast(hub.record(1)).unwrap();
    let mut second = hub.upgrade().unwrap();
    assert_eq!(drain_replay(&mut second), vec![]);
    sender.try_broadcast(hub.record(2)).unwrap();
    assert_eq!(drain_replay(&mut second), vec![2]);
}

#[test]
fn replay_is_given_out_after_completion_too() {
    let waker = noop_waker();
    let mut cx = Context::from_waker(&waker);
    let (mut hub, _first) = share_replay::<u32>(2, 4);
    hub.record(1);
    hub.record(2);
    hub.record(3);
    let mut second = hub.subscribe();
    hub.close();
    assert!(hub.can_subscribe());
    assert!(hub.upgrade().is_none());
    assert!(matches!(second.poll_next(&mut cx), ReplayPoll::Item(2)));
    assert!(matches!(second.poll_next(&mut cx), ReplayPoll::Item(3)));
    assert!(matches!(second.poll_next(&mut cx), ReplayPoll::End));
    assert!(!hub.remove_subscription());
    assert!(hub.remove_subscription());
}

#[test]
fn stale_messages_are_passed_over_within_the_budget() {
    let waker = noop_waker();
    let mut cx = Context::from_waker(&waker);
    let (mut hub, _first) = share_replay::<u32>(0, 100);
    let sender = hub.sender();
    let messages: Vec<(u64, u32)> = (0..70).map(|item| hub.record(item)).collect();
    let mut late = hub.subscribe();
    for message in messages {
        sender.try_broadcast(message).unwrap();
    }
    sender.try_broadcast(hub.record(70)).unwrap();
    assert!(matches!(late.poll_next(&mut cx), ReplayPoll::Yield));
    assert!(matches!(late.poll_next(&mut cx), ReplayPoll::Item(70)));
    assert!(matches!(late.poll_next(&mut cx), ReplayPoll::Pending));
    assert!(late.live_polled(StreamPoll::Item((69, 1))).is_none());
    assert!(matches!(late.live_polled(StreamPoll::Item((70, 1))), Some(ReplayPoll::Item(1))));
}
