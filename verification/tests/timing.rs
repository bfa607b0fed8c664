use glicol_synth::node::cache::BlockCache;
use glicol_synth::node::envelope::adsr::{AdsrState, Edge, Level, Segment};
use glicol_synth::node::sequencer::{due_at, due_events, hold_schedule, pad_then_push};
use glicol_synth::node::signal::imp::{Impulse, SAMPLE_ONE, SAMPLE_ZERO};
use glicol_synth::node::signal::points::{ensure_origin, locate, locate_looping};
use glicol_synth::node::synth::{expired_voices, remove_at_indices, voice_stage, VoiceStage};

#[test]
fn sample_constants_are_float_bits() {
    assert_eq!(SAMPLE_ONE, 1.0f32.to_bits());
    assert_eq!(SAMPLE_ZERO, 0.0f32.to_bits());
}

#[test]
fn impulse_fires_every_period() {
    let mut imp = Impulse::new().sr(8).period(4);
    assert_eq!(imp.sr, 8);
    let mut out = vec![vec![0u32; 8]];
    imp.process::<8>(None, &mut out);
    let one = 1.0f32.to_bits();
    assert_eq!(out[0], vec![one, 0, 0, 0, one, 0, 0, 0]);
    assert_eq!(imp.clock, 8);
}

#[test]
fn impulse_takes_clock_from_input() {
    let mut imp = Impulse::new().period(3);
    let mut out = vec![vec![0u32; 4]];
    imp.process::<4>(Some(5), &mut out);
    let one = 1.0f32.to_bits();
    assert_eq!(out[0], vec![0, one, 0, 0]);
    assert_eq!(imp.clock, 9);
}

#[test]
fn impulse_new_defaults() {
    let imp = Impulse::new();
    assert_eq!((imp.clock, imp.period, imp.sr), (0, 44100, 44100));
}

#[test]
fn due_events_modulo_bar() {
    assert_eq!(due_events(5, 4, &vec![1, 3, 1, 0]), vec![0, 2]);
    assert_eq!(due_events(4, 4, &vec![1, 3, 1, 0]), vec![3]);
    assert_eq!(due_events(2, 4, &vec![1, 3, 1, 0]), Vec::<usize>::new());
    assert_eq!(due_at(3, &vec![3, 7, 3]), vec![0, 2]);
}

#[test]
fn hold_schedule_last_trigger_wins() {
    let (a, b, c, z) = (10u32, 20u32, 30u32, 0u32);
    let triggers = vec![(0, a), (2, b), (2, c)];
    let (out, v) = hold_schedule::<8>(0, 4, &triggers, z);
    assert_eq!(out, vec![a, a, c, c, a, a, c, c]);
    assert_eq!(v, c);
}

#[test]
fn hold_schedule_blocks_compose() {
    let triggers = vec![(1, 7u32), (3, 9u32)];
    let (whole, end) = hold_schedule::<6>(2, 5, &triggers, 1);
    let (first, mid) = hold_schedule::<2>(2, 5, &triggers, 1);
    let (second, end2) = hold_schedule::<4>(4, 5, &triggers, mid);
    let mut joined = first.clone();
    joined.extend(second);
    assert_eq!(joined, whole);
    assert_eq!(end, end2);
}

#[test]
fn expiry_and_removal() {
    let starts = vec![0usize, 5, 1, 9];
    let gone = expired_voices(&starts, 10, 5);
    assert_eq!(gone, vec![0, 2]);
    let mut freqs = vec![100u32, 200, 300, 400];
    remove_at_indices(&mut freqs, &gone);
    assert_eq!(freqs, vec![200, 400]);
    let mut s = starts.clone();
    remove_at_indices(&mut s, &gone);
    assert_eq!(s, vec![5, 9]);
}

#[test]
fn remove_nothing() {
    let mut v = vec![1, 2, 3];
    remove_at_indices(&mut v, &vec![]);
    assert_eq!(v, vec![1, 2, 3]);
}

#[test]
fn voice_stages() {
    assert!(matches!(voice_stage(0, 0, 5, 5), VoiceStage::Silent));
    assert!(matches!(voice_stage(2, 4, 5, 9), VoiceStage::Rise(2)));
    assert!(matches!(voice_stage(6, 4, 5, 9), VoiceStage::Fall(3)));
    assert!(matches!(voice_stage(6, 4, 0, 9), VoiceStage::Silent));
}

#[test]
fn adsr_edges_and_segments() {
    let mut s = AdsrState::new();
    let (e, seg) = s.tick(Level::Positive, 2, 2, 3);
    assert!(e == Some(Edge::Open));
    assert!(seg == Segment::Attack { pos: 0, len: 2 });
    let (_, seg) = s.tick(Level::Positive, 2, 2, 3);
    assert!(seg == Segment::Attack { pos: 1, len: 2 });
    let (_, seg) = s.tick(Level::Positive, 2, 2, 3);
    assert!(seg == Segment::Attack { pos: 2, len: 2 });
    let (_, seg) = s.tick(Level::Positive, 2, 2, 3);
    assert!(seg == Segment::Decay { left: 1, len: 2 });
    let (_, seg) = s.tick(Level::Positive, 2, 2, 3);
    assert!(seg == Segment::Decay { left: 0, len: 2 });
    let (_, seg) = s.tick(Level::Positive, 2, 2, 3);
    assert!(seg == Segment::Sustain);
    let (e, seg) = s.tick(Level::Zero, 2, 2, 3);
    assert!(e == Some(Edge::Close));
    assert!(seg == Segment::Release { left: 3, len: 3 });
    s.tick(Level::Zero, 2, 2, 3);
    s.tick(Level::Zero, 2, 2, 3);
    let (e, seg) = s.tick(Level::Zero, 2, 2, 3);
    assert!(e.is_none());
    assert!(seg == Segment::Silent);
    assert_eq!(s.step, 10);
}

#[test]
fn adsr_no_edge_from_negative() {
    let mut s = AdsrState::new();
    let (e, seg) = s.tick(Level::Other, 2, 2, 3);
    assert!(e.is_none());
    assert!(seg == Segment::Silent);
    let (e, _) = s.tick(Level::Positive, 2, 2, 3);
    assert!(e.is_none());
}

#[test]
fn adsr_empty_attack_is_silent() {
    let mut s = AdsrState::new();
    let (_, seg) = s.tick(Level::Positive, 0, 0, 3);
    assert!(seg == Segment::Silent);
    let (_, seg) = s.tick(Level::Positive, 0, 0, 3);
    assert!(seg == Segment::Sustain);
}

#[test]
fn points_locate() {
    let pts = vec![(0usize, 0u32), (10, 1), (20, 2)];
    assert_eq!(locate(&pts, 0), 0);
    assert_eq!(locate(&pts, 5), 0);
    assert_eq!(locate(&pts, 10), 0);
    assert_eq!(locate(&pts, 15), 1);
    assert_eq!(locate(&pts, 20), 1);
    assert_eq!(locate(&pts, 25), 2);
}

#[test]
fn points_ramp_then_hold() {
    // A curve from 0.0 at sample 0 to 1.0 at sample 2: samples 0 to 2 read
    // the one segment, sample 3 is past the last point and stays there.
    let pts = vec![(0usize, 0.0f32.to_bits()), (2, 1.0f32.to_bits())];
    let segs: Vec<usize> = (0..4).map(|pos| locate(&pts, pos)).collect();
    assert_eq!(segs, vec![0, 0, 0, 1]);
    let out: Vec<f32> = (0..4usize)
        .map(|pos| {
            let i = segs[pos];
            if i < pts.len() - 1 {
                let (p0, v0) = (pts[i].0 as f32, f32::from_bits(pts[i].1));
                let (p1, v1) = (pts[i + 1].0 as f32, f32::from_bits(pts[i + 1].1));
                v0 + (pos as f32 - p0) / (p1 - p0) * (v1 - v0)
            } else {
                f32::from_bits(pts[pts.len() - 1].1)
            }
        })
        .collect();
    assert_eq!(out, vec![0.0, 0.5, 1.0, 1.0]);
}

#[test]
fn points_locate_looping() {
    let pts = vec![(0usize, 0u32), (10, 1), (20, 2)];
    assert_eq!(locate_looping(&pts, 0), (0, 1, false));
    assert_eq!(locate_looping(&pts, 15), (2, 0, false));
    assert_eq!(locate_looping(&pts, 25), (2, 0, true));
}

#[test]
fn points_origin() {
    let mut p = vec![(5usize, 1u32)];
    ensure_origin(&mut p);
    assert_eq!(p, vec![(0, 0), (5, 1)]);
    ensure_origin(&mut p);
    assert_eq!(p, vec![(0, 0), (5, 1)]);
}

#[test]
fn impulse_blocks_compose() {
    let mut split = Impulse::new().period(3);
    let mut whole = Impulse::new().period(3);
    let mut a = vec![vec![0u32; 4]];
    let mut b = vec![vec![0u32; 4]];
    let mut w = vec![vec![0u32; 8]];
    split.process::<4>(Some(2), &mut a);
    split.process::<4>(None, &mut b);
    whole.process::<8>(Some(2), &mut w);
    let mut joined = a[0].clone();
    joined.extend_from_slice(&b[0]);
    assert_eq!(joined, w[0]);
    let ones = w[0].iter().filter(|s| **s == SAMPLE_ONE).count();
    assert_eq!(ones, 3);
}

#[test]
fn schedules_without_events_take_an_empty_bar() {
    assert_eq!(due_events(7, 0, &vec![]), Vec::<usize>::new());
    let (out, v) = hold_schedule::<3>(5, 0, &vec![], 42);
    assert_eq!(out, vec![42, 42, 42]);
    assert_eq!(v, 42);
}

#[test]
fn voices_started_over_a_block_and_a_bar() {
    // Events at samples 1, 3, 3 and 9: a block of samples 2..6 starts two.
    let positions = vec![1, 3, 3, 9];
    let started: usize = (2..6).map(|t| due_at(t, &positions).len()).sum();
    assert_eq!(started, 2);
    // Over any whole bar of 4 samples, the events placed in the bar (all
    // but the one at 9) each start once.
    for step in 0..8 {
        let per_bar: usize = (step..step + 4).map(|t| due_events(t, 4, &positions).len()).sum();
        assert_eq!(per_bar, 3);
    }
}

#[test]
fn pad_then_push_fills_the_gap() {
    let mut v = vec![1, 2];
    pad_then_push(&mut v, 4, 0, 9);
    assert_eq!(v, vec![1, 2, 0, 0, 9]);
    let mut w = vec![5];
    pad_then_push(&mut w, 1, 0, 6);
    assert_eq!(w, vec![5, 6]);
}

#[test]
fn removal_keeps_voice_lists_in_step() {
    let mut starts = vec![0usize, 1, 2, 3];
    let mut phases = vec![10u32, 11, 12, 13];
    let gone = vec![1, 3];
    remove_at_indices(&mut starts, &gone);
    remove_at_indices(&mut phases, &gone);
    assert_eq!(starts.len(), phases.len());
    assert_eq!(phases, vec![10, 12]);
}

#[test]
fn adsr_tick_fits_only_where_the_decay_end_is_read() {
    let s = AdsrState::new();
    // A rising edge starts the attack at 0, so a huge decay is never added.
    assert!(s.tick_fits(Level::Positive, 4, usize::MAX));
    let mut t = AdsrState::new();
    t.tick(Level::Positive, 1, 1, 1);
    t.tick(Level::Positive, 1, 1, 1);
    // Held, two samples in and past an attack of one: the end of the decay
    // is read, and `1 + usize::MAX` is no count.
    assert!(!t.tick_fits(Level::Positive, 1, usize::MAX));
    assert!(t.tick_fits(Level::Positive, 1, 5));
    // A falling edge starts the release, where the decay is not read.
    assert!(t.tick_fits(Level::Zero, 1, usize::MAX));
}

#[test]
fn block_cache_reuses_only_the_last_clock() {
    let mut c = BlockCache::new();
    assert!(c.cached(0).is_none());
    c.store(0, vec![1, 2]);
    assert!(c.cached(0).is_none());
    c.store(128, vec![3, 4]);
    assert_eq!(c.cached(128), Some(&vec![3, 4]));
    assert!(c.cached(256).is_none());
}
