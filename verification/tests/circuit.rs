use logicsim::circuit::Circuit;
use logicsim::component::{
    CompKind, Component, Gate, GateOp, Input, Mux, Output, PinIndex, Register, Tunnel, TunnelKind,
};
use logicsim::signal::Signal;

fn comp(kind: CompKind) -> Component {
    Component::new(kind)
}

fn pin_bits(c: &Circuit, cx: usize, px: PinIndex) -> Option<Vec<bool>> {
    let comp = c.nodes[cx].as_ref().expect("node should be live");
    comp.kind
        .get_pin_value(px)
        .map(|s| (0..s.width()).map(|i| s.get_bit(i)).collect())
}

fn set_input_high(c: &mut Circuit, cx: usize) {
    // an interactive 1-bit input starts at 0; one interaction drives it to 1
    assert!(c.interact(cx));
}

#[test]
fn and_gate_end_to_end() {
    let mut c = Circuit::new();
    let a = c.add_component(comp(CompKind::Input(Input::new(1))));
    let b = c.add_component(comp(CompKind::Input(Input::new(1))));
    let g = c.add_component(comp(CompKind::Gate(Gate::new(GateOp::And, 1, 2))));
    let o = c.add_component(comp(CompKind::Output(Output::new(1))));
    assert!(c.try_connect(a, PinIndex::Output(0), g, PinIndex::Input(0)));
    assert!(c.try_connect(b, PinIndex::Output(0), g, PinIndex::Input(1)));
    assert!(c.try_connect(g, PinIndex::Output(0), o, PinIndex::Input(0)));
    // A = 1, B = 0: the AND output and the sink read 0
    set_input_high(&mut c, a);
    assert_eq!(pin_bits(&c, o, PinIndex::Input(0)), Some(vec![false]));
    // toggle B to 1: the sink reads 1
    set_input_high(&mut c, b);
    assert_eq!(pin_bits(&c, o, PinIndex::Input(0)), Some(vec![true]));
}

#[test]
fn mux_end_to_end() {
    let mut c = Circuit::new();
    let d0 = c.add_component(comp(CompKind::Input(Input::new(1))));
    let d1 = c.add_component(comp(CompKind::Input(Input::new(1))));
    let sel = c.add_component(comp(CompKind::Input(Input::new(1))));
    let m = c.add_component(comp(CompKind::Mux(Mux::new(1, 1))));
    let o = c.add_component(comp(CompKind::Output(Output::new(1))));
    assert!(c.try_connect(sel, PinIndex::Output(0), m, PinIndex::Input(0)));
    assert!(c.try_connect(d0, PinIndex::Output(0), m, PinIndex::Input(1)));
    assert!(c.try_connect(d1, PinIndex::Output(0), m, PinIndex::Input(2)));
    assert!(c.try_connect(m, PinIndex::Output(0), o, PinIndex::Input(0)));
    // input[0] = 0, input[1] = 1, selector = 0: output reads 0
    set_input_high(&mut c, d1);
    assert_eq!(pin_bits(&c, o, PinIndex::Input(0)), Some(vec![false]));
    // flip the selector to 1: output reads 1
    set_input_high(&mut c, sel);
    assert_eq!(pin_bits(&c, o, PinIndex::Input(0)), Some(vec![true]));
}

#[test]
fn register_end_to_end() {
    let mut c = Circuit::new();
    let we = c.add_component(comp(CompKind::Input(Input::new(1))));
    let d = c.add_component(comp(CompKind::Input(Input::new(1))));
    let r = c.add_component(comp(CompKind::Register(Register::new(1))));
    let o = c.add_component(comp(CompKind::Output(Output::new(1))));
    assert!(c.try_connect(we, PinIndex::Output(0), r, PinIndex::Input(0)));
    assert!(c.try_connect(d, PinIndex::Output(0), r, PinIndex::Input(1)));
    assert!(c.try_connect(r, PinIndex::Output(0), o, PinIndex::Input(0)));
    // WE = 0, D = 1: tick leaves the initial 0
    set_input_high(&mut c, d);
    assert!(c.tick_clock());
    assert_eq!(pin_bits(&c, o, PinIndex::Input(0)), Some(vec![false]));
    // WE = 1: tick latches the 1
    set_input_high(&mut c, we);
    assert!(c.tick_clock());
    assert_eq!(pin_bits(&c, o, PinIndex::Input(0)), Some(vec![true]));
    // WE = 0, D = 0: tick holds the 1
    c.interact(we);
    c.interact(d);
    assert!(c.tick_clock());
    assert_eq!(pin_bits(&c, o, PinIndex::Input(0)), Some(vec![true]));
}

#[test]
fn tunnels_connect_without_wires() {
    let mut c = Circuit::new();
    let src = c.add_component(comp(CompKind::Input(Input::new(1))));
    let snd = c.add_component(comp(CompKind::Tunnel(Tunnel::new(
        TunnelKind::Sender,
        String::from("A"),
        1,
    ))));
    let rc1 = c.add_component(comp(CompKind::Tunnel(Tunnel::new(
        TunnelKind::Receiver,
        String::from("A"),
        1,
    ))));
    let rc2 = c.add_component(comp(CompKind::Tunnel(Tunnel::new(
        TunnelKind::Receiver,
        String::from("A"),
        1,
    ))));
    let o1 = c.add_component(comp(CompKind::Output(Output::new(1))));
    let o2 = c.add_component(comp(CompKind::Output(Output::new(1))));
    assert!(c.try_connect(src, PinIndex::Output(0), snd, PinIndex::Input(0)));
    assert!(c.try_connect(rc1, PinIndex::Output(0), o1, PinIndex::Input(0)));
    assert!(c.try_connect(rc2, PinIndex::Output(0), o2, PinIndex::Input(0)));
    set_input_high(&mut c, src);
    assert_eq!(pin_bits(&c, o1, PinIndex::Input(0)), Some(vec![true]));
    assert_eq!(pin_bits(&c, o2, PinIndex::Input(0)), Some(vec![true]));
}

#[test]
fn two_senders_invalidate_the_net() {
    let mut c = Circuit::new();
    let snd1 = c.add_component(comp(CompKind::Tunnel(Tunnel::new(
        TunnelKind::Sender,
        String::from("A"),
        1,
    ))));
    let rc = c.add_component(comp(CompKind::Tunnel(Tunnel::new(
        TunnelKind::Receiver,
        String::from("A"),
        1,
    ))));
    let src = c.add_component(comp(CompKind::Input(Input::new(1))));
    assert!(c.try_connect(src, PinIndex::Output(0), snd1, PinIndex::Input(0)));
    set_input_high(&mut c, src);
    assert_eq!(pin_bits(&c, rc, PinIndex::Output(0)), Some(vec![true]));
    // a second sender under the same label makes every receiver read absent
    let _snd2 = c.add_component(comp(CompKind::Tunnel(Tunnel::new(
        TunnelKind::Sender,
        String::from("A"),
        1,
    ))));
    assert!(c.update_signals());
    assert_eq!(pin_bits(&c, rc, PinIndex::Output(0)), None);
}

#[test]
fn second_wire_into_driven_pin_is_rejected() {
    let mut c = Circuit::new();
    let a = c.add_component(comp(CompKind::Input(Input::new(1))));
    let b = c.add_component(comp(CompKind::Input(Input::new(1))));
    let o = c.add_component(comp(CompKind::Output(Output::new(1))));
    assert!(c.try_connect(a, PinIndex::Output(0), o, PinIndex::Input(0)));
    let wires_before = c.wires.len();
    let nodes_before = c.nodes.len();
    assert!(!c.try_connect(b, PinIndex::Output(0), o, PinIndex::Input(0)));
    assert_eq!(c.wires.len(), wires_before);
    assert_eq!(c.nodes.len(), nodes_before);
}

#[test]
fn invalid_connections_are_rejected() {
    let mut c = Circuit::new();
    let a = c.add_component(comp(CompKind::Input(Input::new(1))));
    let b = c.add_component(comp(CompKind::Input(Input::new(2))));
    let o = c.add_component(comp(CompKind::Output(Output::new(1))));
    // self-connection
    assert!(!c.try_connect(a, PinIndex::Output(0), a, PinIndex::Input(0)));
    // two outputs
    assert!(!c.try_connect(a, PinIndex::Output(0), b, PinIndex::Output(0)));
    // width mismatch
    assert!(!c.try_connect(b, PinIndex::Output(0), o, PinIndex::Input(0)));
    // pin out of range
    assert!(!c.try_connect(a, PinIndex::Output(1), o, PinIndex::Input(0)));
    // dead endpoint
    assert!(!c.try_connect(a, PinIndex::Output(0), 77, PinIndex::Input(0)));
    assert_eq!(c.wires.len(), 0);
}

#[test]
fn propagation_is_idempotent() {
    let mut c = Circuit::new();
    let a = c.add_component(comp(CompKind::Input(Input::new(1))));
    let g = c.add_component(comp(CompKind::Gate(Gate::new(GateOp::Not, 1, 1))));
    let o = c.add_component(comp(CompKind::Output(Output::new(1))));
    assert!(c.try_connect(a, PinIndex::Output(0), g, PinIndex::Input(0)));
    assert!(c.try_connect(g, PinIndex::Output(0), o, PinIndex::Input(0)));
    assert!(c.update_signals());
    let snapshot: Vec<Option<Vec<bool>>> = vec![
        pin_bits(&c, a, PinIndex::Output(0)),
        pin_bits(&c, g, PinIndex::Output(0)),
        pin_bits(&c, o, PinIndex::Input(0)),
    ];
    // propagating again without any mutation changes nothing
    assert!(c.update_signals());
    assert_eq!(
        snapshot,
        vec![
            pin_bits(&c, a, PinIndex::Output(0)),
            pin_bits(&c, g, PinIndex::Output(0)),
            pin_bits(&c, o, PinIndex::Input(0)),
        ]
    );
}

#[test]
fn combinational_cycle_is_reported_and_leaves_state_alone() {
    let mut c = Circuit::new();
    let g1 = c.add_component(comp(CompKind::Gate(Gate::new(GateOp::Not, 1, 1))));
    let g2 = c.add_component(comp(CompKind::Gate(Gate::new(GateOp::Not, 1, 1))));
    assert!(c.try_connect(g1, PinIndex::Output(0), g2, PinIndex::Input(0)));
    assert!(c.try_connect(g2, PinIndex::Output(0), g1, PinIndex::Input(0)));
    assert!(!c.update_signals());
}

#[test]
fn cycle_through_register_is_legal() {
    let mut c = Circuit::new();
    let g = c.add_component(comp(CompKind::Gate(Gate::new(GateOp::Not, 1, 1))));
    let r = c.add_component(comp(CompKind::Register(Register::new(1))));
    let we = c.add_component(comp(CompKind::Input(Input::new(1))));
    assert!(c.try_connect(r, PinIndex::Output(0), g, PinIndex::Input(0)));
    assert!(c.try_connect(g, PinIndex::Output(0), r, PinIndex::Input(1)));
    assert!(c.try_connect(we, PinIndex::Output(0), r, PinIndex::Input(0)));
    set_input_high(&mut c, we);
    // the register starts at 0, so the NOT gate drives 1 into its data input
    assert_eq!(pin_bits(&c, g, PinIndex::Output(0)), Some(vec![true]));
    assert!(c.tick_clock());
    assert_eq!(pin_bits(&c, r, PinIndex::Output(0)), Some(vec![true]));
    assert!(c.tick_clock());
    assert_eq!(pin_bits(&c, r, PinIndex::Output(0)), Some(vec![false]));
}

#[test]
fn removing_a_component_neutralizes_driven_pins() {
    let mut c = Circuit::new();
    let a = c.add_component(comp(CompKind::Input(Input::new(1))));
    let o = c.add_component(comp(CompKind::Output(Output::new(1))));
    assert!(c.try_connect(a, PinIndex::Output(0), o, PinIndex::Input(0)));
    set_input_high(&mut c, a);
    assert_eq!(pin_bits(&c, o, PinIndex::Input(0)), Some(vec![true]));
    assert!(c.remove_component(a));
    assert!(c.nodes[a].is_none());
    assert_eq!(pin_bits(&c, o, PinIndex::Input(0)), None);
    assert_eq!(c.wires.len(), 0);
    // the sink keeps its identifier
    assert!(c.nodes[o].is_some());
    assert!(!c.remove_component(a));
}

#[test]
fn removing_a_tunnel_retracts_its_membership() {
    let mut c = Circuit::new();
    let src = c.add_component(comp(CompKind::Input(Input::new(1))));
    let snd = c.add_component(comp(CompKind::Tunnel(Tunnel::new(
        TunnelKind::Sender,
        String::from("A"),
        1,
    ))));
    let rc = c.add_component(comp(CompKind::Tunnel(Tunnel::new(
        TunnelKind::Receiver,
        String::from("A"),
        1,
    ))));
    assert!(c.try_connect(src, PinIndex::Output(0), snd, PinIndex::Input(0)));
    set_input_high(&mut c, src);
    assert_eq!(pin_bits(&c, rc, PinIndex::Output(0)), Some(vec![true]));
    // without its only sender, the net is invalid and the receiver reads absent
    assert!(c.remove_component(snd));
    assert!(c.update_signals());
    assert_eq!(pin_bits(&c, rc, PinIndex::Output(0)), None);
}

#[test]
fn reconfigure_widens_a_gate_and_prunes_stale_wires() {
    let mut c = Circuit::new();
    let a = c.add_component(comp(CompKind::Input(Input::new(1))));
    let g = c.add_component(comp(CompKind::Gate(Gate::new(GateOp::And, 1, 3))));
    assert!(c.try_connect(a, PinIndex::Output(0), g, PinIndex::Input(2)));
    assert_eq!(c.wires.len(), 1);
    // with only two inputs left, pin index 2 no longer exists
    assert!(c.reconfigure(g, CompKind::Gate(Gate::new(GateOp::And, 1, 2))));
    assert_eq!(c.wires.len(), 0);
    match c.nodes[g].as_ref().map(|comp| &comp.kind) {
        Some(CompKind::Gate(gate)) => assert_eq!(gate.inputs.len(), 2),
        _ => panic!("gate expected"),
    }
}

#[test]
fn relabeling_a_tunnel_moves_its_net() {
    let mut c = Circuit::new();
    let src = c.add_component(comp(CompKind::Input(Input::new(1))));
    let snd = c.add_component(comp(CompKind::Tunnel(Tunnel::new(
        TunnelKind::Sender,
        String::from("A"),
        1,
    ))));
    let rc = c.add_component(comp(CompKind::Tunnel(Tunnel::new(
        TunnelKind::Receiver,
        String::from("B"),
        1,
    ))));
    assert!(c.try_connect(src, PinIndex::Output(0), snd, PinIndex::Input(0)));
    set_input_high(&mut c, src);
    // labels differ: the receiver's net has no sender, it reads absent
    assert_eq!(pin_bits(&c, rc, PinIndex::Output(0)), None);
    // relabel the sender to "B": now the net connects
    assert!(c.reconfigure(
        snd,
        CompKind::Tunnel(Tunnel::new(TunnelKind::Sender, String::from("B"), 1)),
    ));
    // the wire from the source survives the relabel, repropagate through it
    assert_eq!(c.wires.len(), 1);
    assert!(c.update_signals());
    assert!(c.update_signals());
    assert_eq!(pin_bits(&c, rc, PinIndex::Output(0)), Some(vec![true]));
}

#[test]
fn width_mismatch_after_reconfiguration_forces_absent() {
    let mut c = Circuit::new();
    let snd = c.add_component(comp(CompKind::Tunnel(Tunnel::new(
        TunnelKind::Sender,
        String::from("A"),
        1,
    ))));
    let rc = c.add_component(comp(CompKind::Tunnel(Tunnel::new(
        TunnelKind::Receiver,
        String::from("A"),
        1,
    ))));
    let src = c.add_component(comp(CompKind::Input(Input::new(1))));
    assert!(c.try_connect(src, PinIndex::Output(0), snd, PinIndex::Input(0)));
    set_input_high(&mut c, src);
    assert_eq!(pin_bits(&c, rc, PinIndex::Output(0)), Some(vec![true]));
    // widen the receiver: the virtual wire's widths no longer match
    assert!(c.reconfigure(
        rc,
        CompKind::Tunnel(Tunnel::new(TunnelKind::Receiver, String::from("A"), 2)),
    ));
    assert!(c.update_signals());
    assert_eq!(pin_bits(&c, rc, PinIndex::Output(0)), None);
}

#[test]
fn wire_caches_the_transmitted_signal() {
    let mut c = Circuit::new();
    let a = c.add_component(comp(CompKind::Input(Input::new(1))));
    let o = c.add_component(comp(CompKind::Output(Output::new(1))));
    assert!(c.try_connect(a, PinIndex::Output(0), o, PinIndex::Input(0)));
    set_input_high(&mut c, a);
    let w = &c.wires[0];
    assert!(!w.is_virtual);
    assert_eq!(w.start_comp, a);
    assert_eq!(w.end_comp, o);
    let cached = w.get_signal().as_ref().expect("cached signal");
    assert!(cached.same_bits(&Signal::from_bits(vec![true])));
}
