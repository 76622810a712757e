use rusty_enet::channel::{ahead, Channel, Deliveries, RELIABLE_WINDOW};
use rusty_enet::checksum::{crc32, crc_update, header_length, seal, unseal};
use rusty_enet::consts::{
    PEER_PACKET_THROTTLE_SCALE, PEER_TIMEOUT_LIMIT, PEER_TIMEOUT_MAXIMUM, PEER_TIMEOUT_MINIMUM,
};
use rusty_enet::fragment::{fragment_count, split, Reassembly};
use rusty_enet::rtt::RoundTripTime;
use rusty_enet::throttle::{Adjustment, Throttle};
use rusty_enet::time::{time_difference, time_less};
use rusty_enet::timeout::{Retransmission, TimeoutPolicy, Verdict};
use rusty_enet::unsequenced::UnsequencedWindow;

fn none() -> Deliveries {
    Deliveries { reliable: vec![], unreliable: vec![] }
}

fn reliable(messages: &[&[u8]]) -> Deliveries {
    Deliveries { reliable: messages.iter().map(|m| m.to_vec()).collect(), unreliable: vec![] }
}

fn unreliable(messages: &[&[u8]]) -> Deliveries {
    Deliveries { reliable: vec![], unreliable: messages.iter().map(|m| m.to_vec()).collect() }
}

#[test]
fn time_stamps_compare_across_the_wrap() {
    assert!(time_less(5, 10));
    assert!(!time_less(10, 5));
    assert!(!time_less(7, 7));
    assert!(time_less(0xFFFF_FFF0, 0x10));
    assert!(!time_less(0x10, 0xFFFF_FFF0));
    assert_eq!(time_difference(10, 5), 5);
    assert_eq!(time_difference(5, 10), 5);
    assert_eq!(time_difference(0x10, 0xFFFF_FFF0), 0x20);
    assert_eq!(time_difference(0xFFFF_FFF0, 0x10), 0x20);
    assert_eq!(time_difference(3, 3), 0);
}

#[test]
fn throttle_starts_fully_open() {
    let t = Throttle::new();
    assert_eq!(
        t,
        Throttle {
            value: 32,
            limit: 32,
            counter: 32,
            acceleration: 2,
            deceleration: 2,
            interval: 5000,
            epoch: 0
        }
    );
}

#[test]
fn throttle_rises_falls_and_saturates() {
    let mut t = Throttle::new();
    // the lowest time of the interval lies above mean and variance: fall
    assert_eq!(t.adjust(200, 100, 50), Adjustment::Lowered);
    assert_eq!(t.value, 30);
    // it lies between the mean and mean + variance: stay
    assert_eq!(t.adjust(150, 100, 50), Adjustment::Unchanged);
    assert_eq!(t.adjust(100, 100, 50), Adjustment::Unchanged);
    assert_eq!(t.value, 30);
    // it lies under the mean: rise
    assert_eq!(t.adjust(99, 100, 50), Adjustment::Raised);
    assert_eq!(t.value, 32);
    // and never above the limit
    assert_eq!(t.adjust(1, 100, 0), Adjustment::Raised);
    assert_eq!(t.value, 32);
    t.configure(1000, 1, 20);
    assert_eq!((t.interval, t.acceleration, t.deceleration), (1000, 1, 20));
    assert_eq!(t.adjust(500, 100, 0), Adjustment::Lowered);
    assert_eq!(t.value, 12);
    // and never under zero
    assert_eq!(t.adjust(500, 100, 0), Adjustment::Lowered);
    assert_eq!(t.value, 0);
    assert_eq!(t.adjust(u32::MAX, u32::MAX, u32::MAX), Adjustment::Unchanged);
}

#[test]
fn throttle_limit_is_held_at_the_scale() {
    let mut t = Throttle::new();
    t.set_limit(100);
    assert_eq!((t.limit, t.value), (PEER_PACKET_THROTTLE_SCALE, 32));
    t.set_limit(10);
    assert_eq!((t.limit, t.value), (10, 10));
    assert_eq!(t.adjust(1, 2, 0), Adjustment::Raised);
    assert_eq!(t.value, 10);
}

#[test]
fn throttle_gate_sends_the_share_the_value_says() {
    let mut t = Throttle::new();
    // fully open: every packet is sent
    for _ in 0..100 {
        assert!(t.gate());
    }
    assert_eq!(t.counter, 32);
    // half open: every other packet is sent
    t.value = 16;
    let sent: Vec<bool> = (0..8).map(|_| t.gate()).collect();
    assert_eq!(sent, vec![true, false, true, false, true, false, true, false]);
    // a quarter open: one packet in four
    t.value = 8;
    t.counter = 32;
    let sent = (0..64).filter(|_| t.gate()).count();
    assert_eq!(sent, 16);
    // closed: none
    t.value = 0;
    for _ in 0..100 {
        assert!(!t.gate());
    }
}

#[test]
fn throttle_counter_wraps_by_the_scale() {
    let mut t = Throttle::new();
    t.value = 20;
    t.counter = 15;
    assert!(t.gate());
    assert_eq!(t.counter, 3);
    assert!(!t.gate());
    assert_eq!(t.counter, 23);
    t.counter = 12;
    // 32 does not exceed the scale
    assert!(!t.gate());
    assert_eq!(t.counter, 32);
}

#[test]
fn first_sample_sets_the_mean() {
    let mut r = RoundTripTime::new();
    assert_eq!(
        r,
        RoundTripTime { mean: 500, variance: 0, lowest: u32::MAX, last: 0, measured: false }
    );
    assert_eq!(r.timeout(), 500);
    r.sample(100);
    assert_eq!(r, RoundTripTime { mean: 100, variance: 50, lowest: 100, last: 100, measured: true });
    assert_eq!(r.timeout(), 300);
}

#[test]
fn later_samples_move_the_mean_by_an_eighth() {
    let mut r = RoundTripTime::new();
    r.sample(100);
    r.sample(180);
    // variance: 50 - 50 / 4 + 80 / 4 = 58; mean: 100 + 80 / 8 = 110
    assert_eq!(r, RoundTripTime { mean: 110, variance: 58, lowest: 100, last: 180, measured: true });
    r.sample(30);
    // variance: 58 - 14 + 80 / 4 = 64; mean: 110 - 80 / 8 = 100
    assert_eq!(r, RoundTripTime { mean: 100, variance: 64, lowest: 30, last: 30, measured: true });
    assert_eq!(r.timeout(), 100 + 4 * 64);
    r.next_interval();
    assert_eq!(r.lowest, u32::MAX);
    assert_eq!(r.mean, 100);
}

#[test]
fn constant_latency_converges_at_once() {
    for latency in [1u32, 7, 50, 250, 20_000] {
        let mut r = RoundTripTime::new();
        for _ in 0..8 {
            r.sample(2 * latency);
            assert_eq!(r.mean, 2 * latency);
        }
        let distance = r.mean.abs_diff(2 * latency);
        assert!(10 * distance <= 2 * latency);
    }
}

#[test]
fn mean_never_moves_away_from_the_sample() {
    let mut r = RoundTripTime::new();
    r.sample(1000);
    let mut distance = 900;
    for _ in 0..40 {
        r.sample(100);
        let now = r.mean - 100;
        assert_eq!(now, distance - distance / 8);
        distance = now;
    }
    // the mean stops seven short of the sample
    assert_eq!(r.mean, 107);
}

#[test]
fn round_trip_arithmetic_saturates() {
    let mut r = RoundTripTime::new();
    r.sample(u32::MAX);
    assert_eq!(r.mean, u32::MAX);
    assert_eq!(r.variance, 0x8000_0000);
    assert_eq!(r.timeout(), u32::MAX);
    r.sample(0);
    assert_eq!(r.mean, u32::MAX - u32::MAX / 8);
}

#[test]
fn timeout_parameters_default_where_zero() {
    assert_eq!(
        TimeoutPolicy::new(),
        TimeoutPolicy {
            limit: PEER_TIMEOUT_LIMIT,
            minimum: PEER_TIMEOUT_MINIMUM,
            maximum: PEER_TIMEOUT_MAXIMUM
        }
    );
    assert_eq!(TimeoutPolicy::new(), TimeoutPolicy { limit: 32, minimum: 5000, maximum: 30000 });
    assert_eq!(TimeoutPolicy::configured(0, 0, 0), TimeoutPolicy::new());
    assert_eq!(
        TimeoutPolicy::configured(4, 100, 0),
        TimeoutPolicy { limit: 4, minimum: 100, maximum: 30000 }
    );
    assert_eq!(
        TimeoutPolicy::configured(0, 0, 7),
        TimeoutPolicy { limit: 32, minimum: 5000, maximum: 7 }
    );
}

#[test]
fn verdicts_follow_the_policy() {
    let policy = TimeoutPolicy { limit: 3, minimum: 1000, maximum: 5000 };
    let fresh = Retransmission::first(100, 50);
    assert_eq!(fresh, Retransmission { sent_time: 100, last_sent_time: 100, timeout: 50, doublings: 0 });
    // the timeout has not run out
    assert_eq!(policy.verdict(&fresh, 100, 149), Verdict::Wait);
    // it has
    assert_eq!(policy.verdict(&fresh, 100, 150), Verdict::Resend);
    // the earliest command has been outstanding for the maximum
    assert_eq!(policy.verdict(&fresh, 100, 5099), Verdict::Resend);
    assert_eq!(policy.verdict(&fresh, 100, 5100), Verdict::TimedOut);
    // regardless of this command's own timeout
    let patient = Retransmission { sent_time: 5000, last_sent_time: 5000, timeout: 9999, doublings: 0 };
    assert_eq!(policy.verdict(&patient, 100, 5100), Verdict::TimedOut);
    assert_eq!(policy.verdict(&patient, 100, 5099), Verdict::Wait);
    // at the limit of doublings the minimum decides
    let tired = Retransmission { sent_time: 100, last_sent_time: 900, timeout: 400, doublings: 3 };
    assert_eq!(policy.verdict(&tired, 100, 1099), Verdict::Wait);
    assert_eq!(policy.verdict(&tired, 100, 1100), Verdict::TimedOut);
    let nearly = Retransmission { doublings: 2, ..tired };
    assert_eq!(policy.verdict(&nearly, 100, 1100), Verdict::Wait);
    assert_eq!(policy.verdict(&nearly, 100, 1300), Verdict::Resend);
}

#[test]
fn timeouts_double_up_to_the_limit() {
    let mut r = Retransmission::first(10, 300);
    let mut timeouts = Vec::new();
    for step in 0..6 {
        r = r.resent(100 * step, 4);
        timeouts.push((r.timeout, r.doublings, r.last_sent_time, r.sent_time));
    }
    assert_eq!(
        timeouts,
        vec![
            (600, 1, 0, 10),
            (1200, 2, 100, 10),
            (2400, 3, 200, 10),
            (4800, 4, 300, 10),
            (4800, 4, 400, 10),
            (4800, 4, 500, 10)
        ]
    );
    let huge = Retransmission { sent_time: 0, last_sent_time: 0, timeout: 0x9000_0000, doublings: 0 };
    assert_eq!(huge.resent(1, 32).timeout, u32::MAX);
}

#[test]
fn messages_are_cut_into_equal_pieces() {
    assert_eq!(fragment_count(4096, 480), 9);
    assert_eq!(fragment_count(480, 480), 1);
    assert_eq!(fragment_count(485, 480), 2);
    assert_eq!(fragment_count(0, 480), 0);
    assert_eq!(fragment_count(10, 0), 0);
    assert_eq!(fragment_count(16_777_215, 480), 34_953);
    let pieces = split(&[1, 2, 3, 4, 5, 6, 7, 8, 9, 10], 4);
    assert_eq!(pieces, vec![vec![1, 2, 3, 4], vec![5, 6, 7, 8], vec![9, 10]]);
    assert_eq!(split(&[1, 2, 3, 4], 4), vec![vec![1, 2, 3, 4]]);
    assert_eq!(split(&[1, 2, 3, 4], 1), vec![vec![1], vec![2], vec![3], vec![4]]);
    assert_eq!(split(&[], 4), Vec::<Vec<u8>>::new());
}

#[test]
fn pieces_in_any_order_restore_the_message() {
    let payload: Vec<u8> = (0..=255u8).cycle().take(1000).collect();
    for length in [1usize, 7, 64, 333, 999, 1000, 5000] {
        let pieces = split(&payload, length);
        let count = pieces.len() as u32;
        let mut assembly = Reassembly::new(1000, count).unwrap();
        assert_eq!(assembly.total_length(), 1000);
        assert_eq!(assembly.fragment_count(), count);
        // odd pieces backwards, then every piece forwards, each twice
        let mut order: Vec<u32> = (0..count).rev().filter(|i| i % 2 == 1).collect();
        order.extend(0..count);
        let mut taken = 0;
        for number in order {
            let piece = &pieces[number as usize];
            let offset = number * length as u32;
            assert_eq!(assembly.is_complete(), taken == count);
            if assembly.insert(number, offset, piece) {
                taken += 1;
            }
            assert!(!assembly.insert(number, offset, piece));
        }
        assert_eq!(taken, count);
        assert!(assembly.is_complete());
        assert_eq!(assembly.into_data(), payload);
    }
}

#[test]
fn reassembly_refuses_what_does_not_fit() {
    assert!(Reassembly::new(0, 1).is_none());
    assert!(Reassembly::new(10, 0).is_none());
    assert!(Reassembly::new(3, 4).is_none());
    assert!(Reassembly::new(16_777_216, 2).is_none());
    assert!(Reassembly::new(16_777_215, 1_048_577).is_none());
    assert!(Reassembly::new(16_777_215, 1_048_576).is_some());
    let mut assembly = Reassembly::new(10, 3).unwrap();
    // no such piece
    assert!(!assembly.insert(3, 0, &[1]));
    // beyond the end of the message
    assert!(!assembly.insert(0, 8, &[1, 2, 3]));
    assert!(!assembly.insert(0, 11, &[]));
    assert!(assembly.insert(0, 8, &[1, 2]));
    assert!(assembly.insert(2, 0, &[9]));
    assert!(!assembly.is_complete());
    assert_eq!(assembly.into_data(), vec![9, 0, 0, 0, 0, 0, 0, 0, 1, 2]);
    let whole = Reassembly::whole(vec![4, 5, 6]);
    assert!(whole.is_complete());
    assert_eq!((whole.total_length(), whole.fragment_count()), (3, 1));
    assert_eq!(whole.into_data(), vec![4, 5, 6]);
    assert!(Reassembly::whole(vec![]).is_complete());
}

#[test]
fn unsequenced_groups_are_delivered_once() {
    let mut window = UnsequencedWindow::new();
    assert!(window.accept(1));
    assert!(!window.accept(1));
    assert!(window.accept(3));
    assert!(window.accept(2));
    assert!(!window.accept(3));
    assert!(window.accept(0));
    assert!(window.accept(1023));
    // another window: the marks are cleared
    assert!(window.accept(1024));
    assert!(!window.accept(1024));
    assert!(window.accept(1025));
    // the window has moved on; what lies behind it is dropped
    assert!(!window.accept(1));
    assert!(!window.accept(1023));
}

#[test]
fn unsequenced_groups_far_ahead_are_dropped() {
    let mut window = UnsequencedWindow::new();
    assert!(window.accept(32 * 1024 - 1));
    let mut window = UnsequencedWindow::new();
    assert!(!window.accept(32 * 1024));
    assert!(!window.accept(0xFFFF));
    assert!(window.accept(5));
    let mut window = UnsequencedWindow::new();
    assert!(window.accept(0x7C00));
    // ahead of the new window across the wrap
    assert!(window.accept(0xFBFF));
    assert!(!window.accept(0x7BFF));
}

#[test]
fn sequence_distance_wraps() {
    assert_eq!(ahead(5, 9), 4);
    assert_eq!(ahead(9, 5), 0xFFFC);
    assert_eq!(ahead(0xFFFF, 0), 1);
    assert_eq!(ahead(7, 7), 0);
}

#[test]
fn reliable_messages_are_delivered_in_sequence() {
    let mut channel = Channel::new();
    assert_eq!(channel.receive_reliable(1, b"a".to_vec()), reliable(&[b"a"]));
    assert_eq!(channel.incoming_reliable_sequence_number(), 1);
    // 3 and 4 arrive early and wait for 2
    assert_eq!(channel.receive_reliable(4, b"d".to_vec()), none());
    assert_eq!(channel.receive_reliable(3, b"c".to_vec()), none());
    assert_eq!(channel.waiting_reliable(), 2);
    assert_eq!(channel.incoming_reliable_sequence_number(), 1);
    assert_eq!(channel.receive_reliable(2, b"b".to_vec()), reliable(&[b"b", b"c", b"d"]));
    assert_eq!(channel.incoming_reliable_sequence_number(), 4);
    assert_eq!(channel.waiting_reliable(), 0);
}

#[test]
fn reliable_duplicates_are_dropped() {
    let mut channel = Channel::new();
    assert_eq!(channel.receive_reliable(1, b"a".to_vec()), reliable(&[b"a"]));
    // delivered before
    assert_eq!(channel.receive_reliable(1, b"a".to_vec()), none());
    assert_eq!(channel.receive_reliable(0, b"z".to_vec()), none());
    // waiting already
    assert_eq!(channel.receive_reliable(3, b"c".to_vec()), none());
    assert_eq!(channel.receive_reliable(3, b"x".to_vec()), none());
    assert_eq!(channel.waiting_reliable(), 1);
    assert_eq!(channel.receive_reliable(2, b"b".to_vec()), reliable(&[b"b", b"c"]));
    assert_eq!(channel.receive_reliable(2, b"b".to_vec()), none());
    assert_eq!(channel.receive_reliable(3, b"c".to_vec()), none());
    assert_eq!(channel.incoming_reliable_sequence_number(), 3);
}

#[test]
fn reliable_window_is_half_the_sequence_space() {
    assert_eq!(RELIABLE_WINDOW, 0x7FFF);
    let mut channel = Channel::new();
    assert_eq!(channel.receive_reliable(0x8000, b"far".to_vec()), none());
    assert_eq!(channel.waiting_reliable(), 0);
    assert_eq!(channel.receive_reliable(0x7FFF, b"edge".to_vec()), none());
    assert_eq!(channel.waiting_reliable(), 1);
    assert_eq!(channel.receive_reliable(0xFFFF, b"behind".to_vec()), none());
    assert_eq!(channel.waiting_reliable(), 1);
}

#[test]
fn reliable_sequence_wraps_around() {
    let mut channel = Channel::new();
    for sequence in 1..=0xFFFFu16 {
        let out = channel.receive_reliable(sequence, vec![sequence as u8]);
        assert_eq!(out.reliable, vec![vec![sequence as u8]]);
    }
    assert_eq!(channel.incoming_reliable_sequence_number(), 0xFFFF);
    assert_eq!(channel.receive_reliable(1, b"early".to_vec()), none());
    assert_eq!(channel.receive_reliable(0, b"wrapped".to_vec()), reliable(&[b"wrapped", b"early"]));
    assert_eq!(channel.incoming_reliable_sequence_number(), 1);
}

#[test]
fn reliable_fragments_take_up_a_run_of_sequence_numbers() {
    let mut channel = Channel::new();
    // a message of three fragments under the sequence numbers 2, 3, 4
    assert_eq!(channel.receive_fragment(2, 3, 2, 10, 8, &[9, 10]), none());
    assert_eq!(channel.receive_fragment(2, 3, 0, 10, 0, &[1, 2, 3, 4]), none());
    // the message behind it
    assert_eq!(channel.receive_reliable(5, b"next".to_vec()), none());
    // a number inside the run is taken
    assert_eq!(channel.receive_reliable(3, b"clash".to_vec()), none());
    assert_eq!(channel.waiting_reliable(), 2);
    // a fragment that disagrees with the message about its size
    assert_eq!(channel.receive_fragment(2, 3, 1, 11, 4, &[5, 6, 7, 8]), none());
    assert_eq!(channel.receive_fragment(2, 4, 1, 10, 4, &[5, 6, 7, 8]), none());
    // the message before it
    assert_eq!(channel.receive_reliable(1, b"first".to_vec()), reliable(&[b"first"]));
    // the last fragment, twice
    assert_eq!(
        channel.receive_fragment(2, 3, 1, 10, 4, &[5, 6, 7, 8]),
        reliable(&[&[1, 2, 3, 4, 5, 6, 7, 8, 9, 10], b"next"])
    );
    assert_eq!(channel.receive_fragment(2, 3, 1, 10, 4, &[5, 6, 7, 8]), none());
    assert_eq!(channel.incoming_reliable_sequence_number(), 5);
}

#[test]
fn fragments_of_illegal_sizes_are_dropped() {
    let mut channel = Channel::new();
    assert_eq!(channel.receive_fragment(1, 0, 0, 10, 0, &[1]), none());
    assert_eq!(channel.receive_fragment(1, 11, 0, 10, 0, &[1]), none());
    assert_eq!(channel.receive_fragment(1, 2, 0, 16_777_216, 0, &[1]), none());
    assert_eq!(channel.receive_fragment(1, 0x8000, 0, 100_000, 0, &[1]), none());
    assert_eq!(channel.waiting_reliable(), 0);
    assert_eq!(channel.receive_fragment(1, 0x7FFF, 0, 100_000, 0, &[1]), none());
    assert_eq!(channel.waiting_reliable(), 1);
}

#[test]
fn unreliable_messages_never_go_backwards() {
    let mut channel = Channel::new();
    assert_eq!(channel.receive_unreliable(0, 2, b"two".to_vec()), unreliable(&[b"two"]));
    assert_eq!(channel.incoming_unreliable_sequence_number(), 2);
    // older and equal numbers are dropped
    assert_eq!(channel.receive_unreliable(0, 1, b"one".to_vec()), none());
    assert_eq!(channel.receive_unreliable(0, 2, b"two".to_vec()), none());
    assert_eq!(channel.receive_unreliable(0, 5, b"five".to_vec()), unreliable(&[b"five"]));
    assert_eq!(channel.incoming_unreliable_sequence_number(), 5);
    assert_eq!(channel.waiting_unreliable(), 0);
}

#[test]
fn unreliable_messages_wait_for_the_reliable_prefix() {
    let mut channel = Channel::new();
    // sent behind the reliable message 1, which has not come
    assert_eq!(channel.receive_unreliable(1, 1, b"u1".to_vec()), none());
    assert_eq!(channel.receive_unreliable(1, 2, b"u2".to_vec()), none());
    assert_eq!(channel.waiting_unreliable(), 2);
    assert_eq!(
        channel.receive_reliable(1, b"r1".to_vec()),
        Deliveries { reliable: vec![b"r1".to_vec()], unreliable: vec![b"u1".to_vec(), b"u2".to_vec()] }
    );
    assert_eq!(channel.incoming_unreliable_sequence_number(), 2);
    // from an epoch that is over
    assert_eq!(channel.receive_unreliable(0, 9, b"stale".to_vec()), none());
    assert_eq!(channel.waiting_unreliable(), 0);
}

#[test]
fn unreliable_sequence_starts_again_behind_a_reliable_message() {
    let mut channel = Channel::new();
    assert_eq!(channel.receive_unreliable(0, 7, b"a".to_vec()), unreliable(&[b"a"]));
    assert_eq!(channel.receive_reliable(1, b"r".to_vec()), reliable(&[b"r"]));
    assert_eq!(channel.incoming_unreliable_sequence_number(), 0);
    assert_eq!(channel.receive_unreliable(1, 1, b"b".to_vec()), unreliable(&[b"b"]));
}

#[test]
fn unreliable_fragments_are_put_together() {
    let mut channel = Channel::new();
    assert_eq!(channel.receive_unreliable_fragment(0, 1, 2, 1, 6, 3, &[4, 5, 6]), none());
    assert_eq!(channel.waiting_unreliable(), 1);
    assert_eq!(
        channel.receive_unreliable_fragment(0, 1, 2, 0, 6, 0, &[1, 2, 3]),
        unreliable(&[&[1, 2, 3, 4, 5, 6]])
    );
    assert_eq!(channel.waiting_unreliable(), 0);
    // a later message overtakes an incomplete one, which is then dropped
    assert_eq!(channel.receive_unreliable_fragment(0, 2, 2, 0, 4, 0, &[1, 2]), none());
    assert_eq!(channel.receive_unreliable(0, 3, b"three".to_vec()), unreliable(&[b"three"]));
    assert_eq!(channel.receive_unreliable_fragment(0, 2, 2, 1, 4, 2, &[3, 4]), none());
    assert_eq!(channel.waiting_unreliable(), 0);
}

#[test]
fn outgoing_sequence_numbers_count_up() {
    let mut channel = Channel::new();
    assert_eq!(channel.next_reliable_run(1), 1);
    assert_eq!(channel.next_unreliable(), 1);
    assert_eq!(channel.next_unreliable(), 2);
    assert_eq!(channel.next_reliable_run(1), 2);
    assert_eq!(channel.outgoing_unreliable_sequence_number(), 0);
    assert_eq!(channel.next_reliable_run(5), 3);
    assert_eq!(channel.outgoing_reliable_sequence_number(), 7);
    assert_eq!(channel.next_reliable_run(0xFFFF), 8);
    assert_eq!(channel.outgoing_reliable_sequence_number(), 6);
}

#[test]
fn crc32_is_the_standard_one() {
    assert_eq!(crc32(b"123456789"), 0xCBF4_3926);
    assert_eq!(crc32(b""), 0);
    assert_eq!(crc32(&[0]), 0xD202_EF8D);
    assert_eq!(crc32(b"The quick brown fox jumps over the lazy dog"), 0x414F_A339);
    // in two runs as in one
    let first = crc_update(0xFFFF_FFFF, b"12345");
    assert_eq!(!crc_update(first, b"6789"), 0xCBF4_3926);
}

#[test]
fn checksum_stands_behind_the_protocol_header() {
    assert_eq!(header_length(&[0x00, 0x01, 0x85]), 2);
    assert_eq!(header_length(&[0x80, 0x01, 0x00, 0x02, 0x85]), 4);
    assert_eq!(header_length(&[]), 2);
    let plain = vec![0x00, 0x01, 0x05, 0xFF, 0x00, 0x01];
    let sealed = seal(&plain);
    let sum = crc32(&[0x00, 0x01, 0, 0, 0, 0, 0x05, 0xFF, 0x00, 0x01]);
    let mut expected = vec![0x00, 0x01];
    expected.extend(sum.to_be_bytes());
    expected.extend([0x05, 0xFF, 0x00, 0x01]);
    assert_eq!(sealed, expected);
    assert_eq!(unseal(&sealed), Some(plain));
    let timed = vec![0x80, 0x01, 0x12, 0x34, 0x85, 0xFF, 0x00, 0x01];
    let sealed = seal(&timed);
    assert_eq!(&sealed[..4], &timed[..4]);
    assert_eq!(&sealed[8..], &timed[4..]);
    assert_eq!(unseal(&sealed), Some(timed));
    assert_eq!(seal(&[0x80, 0x01]), vec![0x80, 0x01]);
    assert_eq!(seal(&[]), Vec::<u8>::new());
}

#[test]
fn datagram_with_a_wrong_checksum_is_refused() {
    let sealed = seal(&[0x00, 0x01, 0x05, 0xFF, 0x00, 0x01]);
    for i in 0..sealed.len() {
        let mut spoiled = sealed.clone();
        spoiled[i] ^= 0x40;
        assert_eq!(unseal(&spoiled), None);
    }
    assert_eq!(unseal(&sealed[..5]), None);
    assert_eq!(unseal(&[]), None);
    assert_eq!(unseal(&[0x80, 0, 0, 0, 0, 0, 0]), None);
}
