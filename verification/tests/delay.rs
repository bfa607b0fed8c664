use glicol_synth::inputs::{Input, InputMap};
use glicol_synth::message::Message;
use glicol_synth::node::delay::delay_n::DelayN as MovableDelay;
use glicol_synth::node::delay::delayms::DelayMs;
use glicol_synth::node::delay::delayn::DelayN;
use glicol_synth::node::delay::line::DelayLine;

fn one(id: usize, chans: &[&[u32]]) -> InputMap {
    let bufs: Vec<Vec<u32>> = chans.iter().map(|c| c.to_vec()).collect();
    InputMap::from_inputs(vec![Input::new(&bufs, id)])
}

#[test]
fn delay_n_delays_by_its_length() {
    let mut d = DelayN::new(3);
    let mut out = vec![vec![0u32; 4]];
    d.process::<4>(&one(1, &[&[1, 2, 3, 4]]), &mut out);
    assert_eq!(out[0], vec![0, 0, 0, 1]);
    d.process::<4>(&one(1, &[&[5, 6, 7, 8]]), &mut out);
    assert_eq!(out[0], vec![2, 3, 4, 5]);
}

#[test]
fn delay_n_blocks_compose() {
    let mut a = DelayN::new(2);
    let mut b = DelayN::new(2);
    let mut out_a = vec![vec![0u32; 2]];
    let mut out_b = vec![vec![0u32; 4]];
    let mut joined = Vec::new();
    a.process::<2>(&one(1, &[&[1, 2]]), &mut out_a);
    joined.extend_from_slice(&out_a[0]);
    a.process::<2>(&one(1, &[&[3, 4]]), &mut out_a);
    joined.extend_from_slice(&out_a[0]);
    b.process::<4>(&one(1, &[&[1, 2, 3, 4]]), &mut out_b);
    assert_eq!(joined, out_b[0]);
}

#[test]
fn delay_n_zero_passes_through() {
    let mut d = DelayN::new(0);
    let mut out = vec![vec![0u32; 2], vec![0u32; 2]];
    d.process::<2>(&one(1, &[&[7, 8]]), &mut out);
    assert_eq!(out, vec![vec![7, 8], vec![7, 8]]);
}

#[test]
fn delay_n_mono_input_feeds_both_channels() {
    let mut d = DelayN::new(1);
    let mut out = vec![vec![0u32; 2], vec![9u32; 2]];
    d.process::<2>(&one(1, &[&[7, 8]]), &mut out);
    assert_eq!(out, vec![vec![0, 7], vec![0, 7]]);
}

#[test]
fn delay_n_ignores_two_inputs() {
    let mut d = DelayN::new(1);
    let bufs = vec![vec![1u32, 2]];
    let inputs = InputMap::from_inputs(vec![Input::new(&bufs, 1), Input::new(&bufs, 2)]);
    let mut out = vec![vec![5u32; 2]];
    d.process::<2>(&inputs, &mut out);
    assert_eq!(out, vec![vec![5, 5]]);
}

#[test]
fn delay_n_set_delay_silences() {
    let mut d = DelayN::new(1);
    let mut out = vec![vec![0u32; 2]];
    d.process::<2>(&one(1, &[&[1, 2]]), &mut out);
    d.set_delay(2);
    d.process::<2>(&one(1, &[&[3, 4]]), &mut out);
    assert_eq!(out[0], vec![0, 0]);
    d.send_msg(Message::Index(1));
}

#[test]
fn movable_delay_set_first_rotates() {
    let mut d = MovableDelay::new(4);
    let mut out = vec![vec![0u32; 4]];
    d.process::<4>(&one(1, &[&[1, 2, 3, 4]]), &mut out);
    assert_eq!(out[0], vec![0, 0, 0, 0]);
    d.set_first(2);
    d.process::<4>(&one(1, &[&[5, 6, 7, 8]]), &mut out);
    assert_eq!(out[0], vec![3, 4, 1, 2]);
    d.set_first(5);
    d.process::<4>(&one(1, &[&[0, 0, 0, 0]]), &mut out);
    assert_eq!(out[0], vec![8, 5, 6, 7]);
}

#[test]
fn delay_ms_feeds_each_channel() {
    let mut d = DelayMs::new().delay(1, 2);
    let mut out = vec![vec![0u32; 3], vec![0u32; 3]];
    let m = d.process::<3>(&one(1, &[&[1, 2, 3], &[4, 5, 6]]), &mut out);
    assert!(!m);
    assert_eq!(out, vec![vec![0, 1, 2], vec![0, 4, 5]]);
}

#[test]
fn delay_ms_zero_request_gives_one_sample() {
    let mut d = DelayMs::new().sr(48000).delay(0, 1);
    let mut out = vec![vec![0u32; 2]];
    d.process::<2>(&one(1, &[&[1, 2]]), &mut out);
    assert_eq!(out[0], vec![0, 1]);
}

#[test]
fn delay_ms_without_delay_copies_first_buffer() {
    let mut d = DelayMs::new().delay(2, 1);
    d.set_delay(0);
    let mut out = vec![vec![0u32; 2]];
    d.process::<2>(&one(1, &[&[1, 2]]), &mut out);
    assert_eq!(out[0], vec![1, 2]);
}

#[test]
fn delay_ms_two_inputs_is_modulated() {
    let mut d = DelayMs::new().delay(2, 1);
    let bufs = vec![vec![1u32, 2]];
    let inputs = InputMap::from_inputs(vec![Input::new(&bufs, 1), Input::new(&bufs, 2)]);
    let mut out = vec![vec![0u32; 2]];
    assert!(d.process::<2>(&inputs, &mut out));
    assert_eq!(out[0], vec![0, 0]);
    assert_eq!(d.feed(0, 9), 0);
    assert_eq!(d.feed(0, 8), 0);
    assert_eq!(d.tap(0, 0), 9);
    assert_eq!(d.tap(0, 1), 8);
    assert_eq!(d.tap(0, 2), 9);
}

#[test]
fn delay_ms_skips_inputs_with_many_channels() {
    let mut d = DelayMs::new().delay(1, 3);
    let mut out = vec![vec![7u32; 1], vec![7u32; 1], vec![7u32; 1]];
    d.process::<1>(&one(1, &[&[1], &[2], &[3]]), &mut out);
    assert_eq!(out, vec![vec![7], vec![7], vec![7]]);
}

#[test]
fn delay_line_feeds_oldest_out() {
    let mut l = DelayLine::new(3);
    assert_eq!(l.len(), 3);
    assert_eq!(l.feed(7), 0);
    assert_eq!(l.feed(8), 0);
    assert_eq!(l.feed(9), 0);
    assert_eq!(l.feed(10), 7);
    assert_eq!(l.tap(0), 8);
    assert_eq!(l.tap(2), 10);
    assert_eq!(l.tap(4), 9);
}

#[test]
fn delay_line_set_first_rotates() {
    let mut l = DelayLine::new(3);
    l.feed(1);
    l.feed(2);
    l.feed(3);
    l.set_first(1);
    assert_eq!(l.tap(0), 2);
    assert_eq!(l.tap(1), 3);
    assert_eq!(l.tap(2), 1);
    l.set_first(5);
    assert_eq!(l.tap(0), 3);
}

#[test]
fn delays_report_order_and_length() {
    let mut d = DelayN::new(5);
    assert_eq!(d.delay_samples(), 5);
    d.send_msg(Message::Index(3));
    d.send_msg(Message::IndexOrder(0, 9));
    assert_eq!(d.input_order(), &[9, 3]);
    d.set_delay(2);
    assert_eq!(d.delay_samples(), 2);
    assert_eq!(d.input_order(), &[9, 3]);

    let mut m = DelayMs::new().delay(0, 2);
    assert_eq!(m.delay_samples(), 1);
    m.send_msg(Message::Index(4));
    assert_eq!(m.input_order(), &[4]);
    m.set_delay(0);
    assert_eq!(m.delay_samples(), 0);
    assert_eq!(m.channels(), 0);

    let mut v = MovableDelay::new(2);
    v.send_msg(Message::Index(1));
    v.send_msg(Message::ResetOrder);
    assert_eq!(v.input_order(), &[1]);
}

#[test]
fn delay_ms_two_inputs_with_many_channels_is_not_modulated() {
    let mut d = DelayMs::new().delay(2, 1);
    let bufs = vec![vec![1u32, 2], vec![3, 4], vec![5, 6]];
    let inputs = InputMap::from_inputs(vec![Input::new(&bufs, 1), Input::new(&bufs, 2)]);
    let mut out = vec![vec![7u32; 2]];
    assert!(!d.process::<2>(&inputs, &mut out));
    assert_eq!(out[0], vec![7, 7]);
    assert_eq!(d.tap(0, 0), 0);
}

#[test]
fn feeding_overwrites_storage_at_the_front() {
    // Four samples pushed into a line of three: the fourth overwrites the
    // first slot, so storage order is [4, 2, 3] with the front at slot 1.
    let mut d = MovableDelay::new(3);
    let mut out = vec![vec![0u32; 4]];
    d.process::<4>(&one(1, &[&[1, 2, 3, 4]]), &mut out);
    d.set_first(0);
    let mut out3 = vec![vec![0u32; 3]];
    d.process::<3>(&one(1, &[&[0, 0, 0]]), &mut out3);
    assert_eq!(out3[0], vec![4, 2, 3]);

    let mut l = DelayLine::new(3);
    l.feed(1);
    l.feed(2);
    l.set_first(0);
    assert_eq!((l.tap(0), l.tap(1), l.tap(2)), (1, 2, 0));
}

#[test]
fn delay_n_without_delay_takes_an_empty_output() {
    let mut d = DelayN::new(0);
    let mut out: Vec<Vec<u32>> = vec![];
    d.process::<2>(&one(1, &[&[1, 2]]), &mut out);
    assert!(out.is_empty());
}
