use logicsim::component::{
    default_comp_from_name, signal_state, CompKind, Demux, Gate, GateOp, Input, Mux, Output,
    PinIndex, Register, SignalState, Splitter, Tunnel, TunnelKind,
};
use logicsim::signal::Signal;

fn sig(bits: &[bool]) -> Option<Signal> {
    Some(Signal::from_bits(bits.to_vec()))
}

fn bits_of(v: &Option<Signal>) -> Vec<bool> {
    let s = v.as_ref().expect("signal should be present");
    (0..s.width()).map(|i| s.get_bit(i)).collect()
}

#[test]
fn and_gate_is_strict_in_absent_inputs() {
    let mut g = CompKind::Gate(Gate::new(GateOp::And, 1, 2));
    g.set_pin_value(PinIndex::Input(0), sig(&[true]));
    // input 1 left absent
    g.do_logic();
    assert!(g.get_pin_value(PinIndex::Output(0)).is_none());
    g.set_pin_value(PinIndex::Input(1), sig(&[false]));
    g.do_logic();
    assert_eq!(bits_of(&g.get_pin_value(PinIndex::Output(0))), vec![false]);
    g.set_pin_value(PinIndex::Input(1), sig(&[true]));
    g.do_logic();
    assert_eq!(bits_of(&g.get_pin_value(PinIndex::Output(0))), vec![true]);
}

#[test]
fn or_gate_multibit() {
    let mut g = CompKind::Gate(Gate::new(GateOp::Or, 3, 3));
    g.set_pin_value(PinIndex::Input(0), sig(&[true, false, false]));
    g.set_pin_value(PinIndex::Input(1), sig(&[false, true, false]));
    g.set_pin_value(PinIndex::Input(2), sig(&[false, false, false]));
    g.do_logic();
    assert_eq!(
        bits_of(&g.get_pin_value(PinIndex::Output(0))),
        vec![true, true, false]
    );
}

#[test]
fn or_gate_result_does_not_depend_on_input_order() {
    let mut g1 = CompKind::Gate(Gate::new(GateOp::Or, 2, 2));
    g1.set_pin_value(PinIndex::Input(0), sig(&[true, false]));
    g1.set_pin_value(PinIndex::Input(1), sig(&[false, true]));
    g1.do_logic();
    let mut g2 = CompKind::Gate(Gate::new(GateOp::Or, 2, 2));
    g2.set_pin_value(PinIndex::Input(0), sig(&[false, true]));
    g2.set_pin_value(PinIndex::Input(1), sig(&[true, false]));
    g2.do_logic();
    assert_eq!(
        bits_of(&g1.get_pin_value(PinIndex::Output(0))),
        bits_of(&g2.get_pin_value(PinIndex::Output(0)))
    );
}

#[test]
fn not_gate_output_width_equals_input_width() {
    let mut g = CompKind::Gate(Gate::new(GateOp::Not, 4, 1));
    g.set_pin_value(PinIndex::Input(0), sig(&[true, false, true, false]));
    g.do_logic();
    assert_eq!(
        bits_of(&g.get_pin_value(PinIndex::Output(0))),
        vec![false, true, false, true]
    );
}

#[test]
fn mux_routes_selected_input() {
    // one selector bit, two 1-bit data inputs at Input(1) and Input(2)
    let mut m = CompKind::Mux(Mux::new(1, 1));
    m.set_pin_value(PinIndex::Input(1), sig(&[false]));
    m.set_pin_value(PinIndex::Input(2), sig(&[true]));
    m.set_pin_value(PinIndex::Input(0), sig(&[false]));
    m.do_logic();
    assert_eq!(bits_of(&m.get_pin_value(PinIndex::Output(0))), vec![false]);
    m.set_pin_value(PinIndex::Input(0), sig(&[true]));
    m.do_logic();
    assert_eq!(bits_of(&m.get_pin_value(PinIndex::Output(0))), vec![true]);
}

#[test]
fn mux_with_absent_selector_outputs_absent() {
    let mut m = CompKind::Mux(Mux::new(1, 1));
    m.set_pin_value(PinIndex::Input(1), sig(&[true]));
    m.set_pin_value(PinIndex::Input(2), sig(&[true]));
    m.do_logic();
    assert!(m.get_pin_value(PinIndex::Output(0)).is_none());
}

#[test]
fn demux_routes_input_and_zeroes_other_written_outputs() {
    let mut d = CompKind::Demux(Demux::new(1, 1));
    d.set_pin_value(PinIndex::Input(0), sig(&[false]));
    d.set_pin_value(PinIndex::Input(1), sig(&[true]));
    d.do_logic();
    assert_eq!(bits_of(&d.get_pin_value(PinIndex::Output(0))), vec![true]);
    assert!(d.get_pin_value(PinIndex::Output(1)).is_none());
    // select the other arm: arm 0 is zeroed, arm 1 takes the input
    d.set_pin_value(PinIndex::Input(0), sig(&[true]));
    d.do_logic();
    assert_eq!(bits_of(&d.get_pin_value(PinIndex::Output(0))), vec![false]);
    assert_eq!(bits_of(&d.get_pin_value(PinIndex::Output(1))), vec![true]);
}

#[test]
fn demux_with_absent_selector_keeps_stale_outputs() {
    let mut d = CompKind::Demux(Demux::new(1, 1));
    d.set_pin_value(PinIndex::Input(0), sig(&[false]));
    d.set_pin_value(PinIndex::Input(1), sig(&[true]));
    d.do_logic();
    assert_eq!(bits_of(&d.get_pin_value(PinIndex::Output(0))), vec![true]);
    // selector goes absent: nothing changes at all, the old output stays
    d.set_pin_value(PinIndex::Input(0), None);
    d.set_pin_value(PinIndex::Input(1), sig(&[false]));
    d.do_logic();
    assert_eq!(bits_of(&d.get_pin_value(PinIndex::Output(0))), vec![true]);
}

#[test]
fn register_latches_only_when_write_enabled() {
    let mut r = CompKind::Register(Register::new(1));
    // initial output is zero
    assert_eq!(bits_of(&r.get_pin_value(PinIndex::Output(0))), vec![false]);
    // WE = 0, D = 1: holds
    r.set_pin_value(PinIndex::Input(0), sig(&[false]));
    r.set_pin_value(PinIndex::Input(1), sig(&[true]));
    r.tick_clock();
    assert_eq!(bits_of(&r.get_pin_value(PinIndex::Output(0))), vec![false]);
    // WE = 1, D = 1: latches
    r.set_pin_value(PinIndex::Input(0), sig(&[true]));
    r.tick_clock();
    assert_eq!(bits_of(&r.get_pin_value(PinIndex::Output(0))), vec![true]);
    // WE = 0, D = 0: holds the 1
    r.set_pin_value(PinIndex::Input(0), sig(&[false]));
    r.set_pin_value(PinIndex::Input(1), sig(&[false]));
    r.tick_clock();
    assert_eq!(bits_of(&r.get_pin_value(PinIndex::Output(0))), vec![true]);
    // undriven WE means "do not write"
    r.set_pin_value(PinIndex::Input(0), None);
    r.tick_clock();
    assert_eq!(bits_of(&r.get_pin_value(PinIndex::Output(0))), vec![true]);
}

#[test]
fn register_evaluate_is_a_no_op() {
    let mut r = CompKind::Register(Register::new(1));
    r.set_pin_value(PinIndex::Input(0), sig(&[true]));
    r.set_pin_value(PinIndex::Input(1), sig(&[true]));
    r.do_logic();
    assert_eq!(bits_of(&r.get_pin_value(PinIndex::Output(0))), vec![false]);
}

#[test]
fn input_interact_increments_and_wraps() {
    let mut i = CompKind::Input(Input::new(2));
    assert_eq!(
        bits_of(&i.get_pin_value(PinIndex::Output(0))),
        vec![false, false]
    );
    assert!(i.interact());
    assert_eq!(
        bits_of(&i.get_pin_value(PinIndex::Output(0))),
        vec![true, false]
    );
    i.interact();
    i.interact();
    assert_eq!(
        bits_of(&i.get_pin_value(PinIndex::Output(0))),
        vec![true, true]
    );
    // wraps to zero within its width
    i.interact();
    assert_eq!(
        bits_of(&i.get_pin_value(PinIndex::Output(0))),
        vec![false, false]
    );
}

#[test]
fn splitter_distributes_bits_in_source_order() {
    // 4 input bits; bits 0 and 2 go to arm 0, bits 1 and 3 to arm 1
    let mut s = CompKind::Splitter(Splitter::new(4, 2, vec![0, 1, 0, 1]));
    s.set_pin_value(PinIndex::Input(0), sig(&[true, false, false, true]));
    s.do_logic();
    assert_eq!(
        bits_of(&s.get_pin_value(PinIndex::Output(0))),
        vec![true, false]
    );
    assert_eq!(
        bits_of(&s.get_pin_value(PinIndex::Output(1))),
        vec![false, true]
    );
}

#[test]
fn splitter_round_trip_reassembles_input() {
    let input = vec![true, false, true, true, false];
    let mapping = vec![1usize, 0, 1, 2, 0];
    let mut s = CompKind::Splitter(Splitter::new(5, 3, mapping.clone()));
    s.set_pin_value(PinIndex::Input(0), Some(Signal::from_bits(input.clone())));
    s.do_logic();
    let arms: Vec<Vec<bool>> = (0..3)
        .map(|a| bits_of(&s.get_pin_value(PinIndex::Output(a))))
        .collect();
    // re-concatenate by recorded bit order: for each source bit, pop the
    // next unread bit of its arm
    let mut cursors = vec![0usize; 3];
    let mut rebuilt = Vec::new();
    for &arm in &mapping {
        rebuilt.push(arms[arm][cursors[arm]]);
        cursors[arm] += 1;
    }
    assert_eq!(rebuilt, input);
}

#[test]
fn splitter_absent_input_clears_all_arms() {
    let mut s = CompKind::Splitter(Splitter::new(2, 2, vec![0, 1]));
    s.set_pin_value(PinIndex::Input(0), sig(&[true, true]));
    s.do_logic();
    assert!(s.get_pin_value(PinIndex::Output(0)).is_some());
    s.set_pin_value(PinIndex::Input(0), None);
    s.do_logic();
    assert!(s.get_pin_value(PinIndex::Output(0)).is_none());
    assert!(s.get_pin_value(PinIndex::Output(1)).is_none());
}

#[test]
fn splitter_reconfiguration_recomputes_arm_widths() {
    let s = Splitter::new(2, 2, vec![0, 1]);
    // widen: the extra bits all map to the last arm
    let grown = s.with_input_width(4);
    assert_eq!(grown.mapping, vec![0, 1, 1, 1]);
    assert_eq!(grown.data_bits_out, vec![1, 3]);
    // shrink: surplus mapping entries are dropped
    let shrunk = grown.with_input_width(1);
    assert_eq!(shrunk.mapping, vec![0]);
    assert_eq!(shrunk.data_bits_out, vec![1, 0]);
    // fewer arms: bits of removed arms move to the last remaining arm
    let fewer = grown.with_arm_count(1);
    assert_eq!(fewer.mapping, vec![0, 0, 0, 0]);
    assert_eq!(fewer.data_bits_out, vec![4]);
    // reassign one bit
    let moved = s.with_bit_arm(0, 1);
    assert_eq!(moved.mapping, vec![1, 1]);
    assert_eq!(moved.data_bits_out, vec![0, 2]);
}

#[test]
fn tunnel_single_pin_answers_both_roles() {
    let mut t = CompKind::Tunnel(Tunnel::new(TunnelKind::Sender, String::from("A"), 1));
    t.set_pin_value(PinIndex::Input(0), sig(&[true]));
    assert_eq!(bits_of(&t.get_pin_value(PinIndex::Output(0))), vec![true]);
    assert_eq!(t.n_in_pins(), 1);
    assert_eq!(t.n_out_pins(), 0);
}

#[test]
fn factory_builds_defaults_and_rejects_unknown_names() {
    for name in [
        "NOT", "AND", "OR", "Input", "Output", "Register", "Mux", "Demux", "Splitter", "Tunnel",
    ] {
        assert!(default_comp_from_name(name).is_some(), "{name}");
    }
    assert!(default_comp_from_name("Flux Capacitor").is_none());
    let c = default_comp_from_name("AND").unwrap();
    assert_eq!(c.kind.n_in_pins(), 2);
    assert_eq!(c.kind.n_out_pins(), 1);
    assert_eq!(c.kind.name(), "Gate: AND");
}

#[test]
fn signal_state_classification() {
    assert_eq!(signal_state(&None), SignalState::Undriven);
    assert_eq!(signal_state(&sig(&[false, false])), SignalState::Inactive);
    assert_eq!(signal_state(&sig(&[false, true])), SignalState::Active);
}
