use glicol_synth::inputs::{Input, InputMap};
use glicol_synth::message::{apply_order, Message};
use glicol_synth::node::effect::balance::Balance;
use glicol_synth::node::pass::Pass;
use glicol_synth::pass::Pass as ListPass;
use glicol_synth::signal::dummy::{AudioIn, Clock};

fn bits(v: &[f32]) -> Vec<u32> {
    v.iter().map(|x| x.to_bits()).collect()
}

fn input(id: usize, chans: &[&[f32]]) -> Input {
    let bufs: Vec<Vec<u32>> = chans.iter().map(|c| bits(c)).collect();
    Input::new(&bufs, id)
}

#[test]
fn input_new_copies_buffers() {
    let i = input(5, &[&[1.0, 2.0], &[3.0, 4.0]]);
    assert_eq!(i.node_id, 5);
    assert_eq!(i.buffers().len(), 2);
    assert_eq!(i.buffers()[1], bits(&[3.0, 4.0]));
}

#[test]
fn input_map_later_input_wins() {
    let m = InputMap::from_inputs(vec![
        input(1, &[&[1.0]]),
        input(2, &[&[2.0]]),
        input(1, &[&[9.0]]),
    ]);
    assert_eq!(m.len(), 2);
    assert_eq!(m.get(1).unwrap().buffers()[0], bits(&[9.0]));
    assert_eq!(m.get(2).unwrap().buffers()[0], bits(&[2.0]));
    assert!(m.get(3).is_none());
}

#[test]
fn input_map_first_value_empty_and_single() {
    let empty = InputMap::from_inputs(vec![]);
    assert!(empty.first_value().is_none());
    let one = InputMap::from_inputs(vec![input(4, &[&[0.5]])]);
    assert_eq!(one.first_value().unwrap().node_id, 4);
}

#[test]
fn order_messages() {
    let mut order: Vec<usize> = vec![];
    apply_order(&mut order, Message::Index(7), true);
    apply_order(&mut order, Message::Index(9), true);
    apply_order(&mut order, Message::IndexOrder(1, 8), true);
    assert_eq!(order, vec![7, 8, 9]);
    apply_order(&mut order, Message::IndexOrder(3, 10), true);
    assert_eq!(order, vec![7, 8, 9, 10]);
    apply_order(&mut order, Message::ResetOrder, false);
    assert_eq!(order, vec![7, 8, 9, 10]);
    apply_order(&mut order, Message::ResetOrder, true);
    assert!(order.is_empty());
}

#[test]
fn balance_routes_by_order() {
    let mut b = Balance::new();
    b.send_msg(Message::Index(7));
    b.send_msg(Message::Index(3));
    let inputs = InputMap::from_inputs(vec![input(3, &[&[3.0, 3.0]]), input(7, &[&[7.0, 7.0]])]);
    let mut out = vec![bits(&[0.0, 0.0]), bits(&[0.0, 0.0])];
    b.process::<2>(&inputs, &mut out);
    assert_eq!(out[0], bits(&[7.0, 7.0]));
    assert_eq!(out[1], bits(&[3.0, 3.0]));
}

#[test]
fn balance_ignores_other_input_counts() {
    let mut b = Balance::default();
    b.send_msg(Message::Index(3));
    let inputs = InputMap::from_inputs(vec![input(3, &[&[3.0]])]);
    let mut out = vec![bits(&[0.0]), bits(&[0.0])];
    b.process::<1>(&inputs, &mut out);
    assert_eq!(out, vec![bits(&[0.0]), bits(&[0.0])]);
}

#[test]
fn balance_reset_order() {
    let mut b = Balance::new();
    b.send_msg(Message::Index(1));
    b.send_msg(Message::ResetOrder);
    assert!(b.input_order.is_empty());
}

#[test]
fn pass_copies_single_input() {
    let mut p = Pass;
    let inputs = InputMap::from_inputs(vec![input(1, &[&[1.0, 2.0], &[3.0, 4.0]])]);
    let mut out = vec![bits(&[0.0, 0.0]), bits(&[0.0, 0.0])];
    p.process::<2>(&inputs, &mut out);
    assert_eq!(out, vec![bits(&[1.0, 2.0]), bits(&[3.0, 4.0])]);
}

#[test]
fn pass_mono_to_stereo() {
    let mut p = Pass;
    let inputs = InputMap::from_inputs(vec![input(1, &[&[1.0, 2.0]])]);
    let mut out = vec![bits(&[0.0, 0.0]), bits(&[0.0, 0.0])];
    p.process::<2>(&inputs, &mut out);
    assert_eq!(out, vec![bits(&[1.0, 2.0]), bits(&[1.0, 2.0])]);
}

#[test]
fn pass_without_input_leaves_output() {
    let mut p = Pass;
    let inputs = InputMap::from_inputs(vec![]);
    let mut out = vec![bits(&[5.0])];
    p.process::<1>(&inputs, &mut out);
    assert_eq!(out, vec![bits(&[5.0])]);
}

#[test]
fn list_pass_copies_first_buffer() {
    let mut p = ListPass::new();
    let ins = vec![input(1, &[&[1.0, 2.0]]), input(2, &[&[9.0, 9.0]])];
    let mut out = vec![bits(&[0.0, 0.0]), bits(&[4.0, 4.0])];
    p.process(&ins, &mut out);
    assert_eq!(out, vec![bits(&[1.0, 2.0]), bits(&[4.0, 4.0])]);
}

#[test]
fn clock_and_audio_in_leave_output() {
    let mut out = vec![bits(&[1.0])];
    Clock.process(&[], &mut out);
    AudioIn.process(&[], &mut out);
    assert_eq!(out, vec![bits(&[1.0])]);
}
