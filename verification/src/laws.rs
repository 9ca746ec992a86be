//! General properties of the engine, stated and proved once over all
//! inputs.  Each law speaks through the same spec functions that the
//! executable functions' contracts use.

use vstd::prelude::*;

verus! {

use crate::signal::not_bits;
use crate::signal::load_bits;
use crate::signal::lemma_load_bits_bound;
use crate::component::GateOp;
use crate::component::gate_output;
use crate::component::mux_output;
use crate::component::demux_cleared;
use crate::component::write_enabled;
use crate::component::arm_of;
use crate::component::count_arm;
use crate::component::lemma_arm_of_len;
use crate::component::pin_value;
use crate::component::pins_values;
use crate::component::Mux;
use crate::component::CompKind;
use crate::component::PinIndex;
use crate::component::eval_out;

/// A gate's result is absent exactly when at least one of its inputs is
/// absent; with all inputs present, OR and AND combine them pointwise and
/// NOT negates its single input.
pub proof fn lemma_gate_strictness(op: GateOp, width: nat, ins: Seq<Option<Seq<bool>>>)
    ensures
        gate_output(op, width, ins) is None <==> exists|k: int| 0 <= k < ins.len() && ins[k] is None,
        (forall|k: int| 0 <= k < ins.len() ==> ins[k] is Some) && op is Or ==> gate_output(
            op,
            width,
            ins,
        ) == Some(Seq::new(width, |j: int| exists|k: int| 0 <= k < ins.len() && ins[k]->0[j])),
        (forall|k: int| 0 <= k < ins.len() ==> ins[k] is Some) && op is And ==> gate_output(
            op,
            width,
            ins,
        ) == Some(Seq::new(width, |j: int| forall|k: int| 0 <= k < ins.len() ==> ins[k]->0[j])),
{
}

/// An OR or AND gate's result does not depend on the order of its inputs:
/// any rearrangement of the same input values gives the same output.
pub proof fn lemma_gate_order_independent(
    op: GateOp,
    width: nat,
    ins1: Seq<Option<Seq<bool>>>,
    ins2: Seq<Option<Seq<bool>>>,
)
    requires
        op is Or || op is And,
        ins1.to_multiset() == ins2.to_multiset(),
    ensures
        gate_output(op, width, ins1) == gate_output(op, width, ins2),
{
    broadcast use vstd::seq_lib::group_to_multiset_ensures;

    assert(ins1.len() == ins1.to_multiset().len());
    assert(ins2.len() == ins2.to_multiset().len());
    assert(ins1.len() == ins2.len());
    assert forall|x: Option<Seq<bool>>| ins1.contains(x) <==> ins2.contains(x) by {
        assert(ins1.contains(x) <==> ins1.to_multiset().count(x) > 0);
        assert(ins2.contains(x) <==> ins2.to_multiset().count(x) > 0);
    }
    assert((exists|k: int| 0 <= k < ins1.len() && ins1[k] is None) <==> (exists|k: int|
        0 <= k < ins2.len() && ins2[k] is None)) by {
        if exists|k: int| 0 <= k < ins1.len() && ins1[k] is None {
            let k = choose|k: int| 0 <= k < ins1.len() && ins1[k] is None;
            assert(ins1.contains(ins1[k]));
            assert(ins2.contains(ins1[k]));
        }
        if exists|k: int| 0 <= k < ins2.len() && ins2[k] is None {
            let k = choose|k: int| 0 <= k < ins2.len() && ins2[k] is None;
            assert(ins2.contains(ins2[k]));
            assert(ins1.contains(ins2[k]));
        }
    }
    if gate_output(op, width, ins1) is Some {
        match op {
            GateOp::Or => {
                assert forall|j: int|
                    0 <= j < width implies #[trigger] gate_output(op, width, ins1)->0[j]
                    == gate_output(op, width, ins2)->0[j] by {
                    if exists|k: int| 0 <= k < ins1.len() && ins1[k]->0[j] {
                        let k = choose|k: int| 0 <= k < ins1.len() && ins1[k]->0[j];
                        assert(ins1.contains(ins1[k]));
                        assert(ins2.contains(ins1[k]));
                        let k2 = choose|k2: int| 0 <= k2 < ins2.len() && ins2[k2] == ins1[k];
                        assert(ins2[k2]->0[j]);
                    }
                    if exists|k: int| 0 <= k < ins2.len() && ins2[k]->0[j] {
                        let k = choose|k: int| 0 <= k < ins2.len() && ins2[k]->0[j];
                        assert(ins2.contains(ins2[k]));
                        assert(ins1.contains(ins2[k]));
                        let k1 = choose|k1: int| 0 <= k1 < ins1.len() && ins1[k1] == ins2[k];
                        assert(ins1[k1]->0[j]);
                    }
                }
                assert(gate_output(op, width, ins1)->0 =~= gate_output(op, width, ins2)->0);
            },
            GateOp::And => {
                assert forall|j: int|
                    0 <= j < width implies #[trigger] gate_output(op, width, ins1)->0[j]
                    == gate_output(op, width, ins2)->0[j] by {
                    if forall|k: int| 0 <= k < ins1.len() ==> ins1[k]->0[j] {
                        assert forall|k: int| 0 <= k < ins2.len() implies ins2[k]->0[j] by {
                            assert(ins2.contains(ins2[k]));
                            assert(ins1.contains(ins2[k]));
                            let k1 = choose|k1: int| 0 <= k1 < ins1.len() && ins1[k1] == ins2[k];
                            assert(ins1[k1]->0[j]);
                        }
                    } else {
                        let k = choose|k: int| 0 <= k < ins1.len() && !ins1[k]->0[j];
                        assert(ins1.contains(ins1[k]));
                        assert(ins2.contains(ins1[k]));
                        let k2 = choose|k2: int| 0 <= k2 < ins2.len() && ins2[k2] == ins1[k];
                        assert(!ins2[k2]->0[j]);
                    }
                }
                assert(gate_output(op, width, ins1)->0 =~= gate_output(op, width, ins2)->0);
            },
            GateOp::Not => {},
        }
    }
}

/// Negation keeps the width, and negating twice gives the original signal
/// back.
pub proof fn lemma_not_involution(s: Seq<bool>)
    ensures
        not_bits(s).len() == s.len(),
        not_bits(not_bits(s)) == s,
{
    assert(not_bits(not_bits(s)) =~= s);
}

/// A well-formed multiplexer's selector value always lands on an existing
/// data input, so the output is exactly the selected arm's value.
pub proof fn lemma_mux_selector_in_range(m: Mux)
    requires
        m.wf(),
        pin_value(m.selector) is Some,
    ensures
        load_bits(pin_value(m.selector)->0) < m.inputs@.len(),
        mux_output(pin_value(m.selector), pins_values(m.inputs@)) == pin_value(
            m.inputs@[load_bits(pin_value(m.selector)->0) as int],
        ),
{
    lemma_load_bits_bound(pin_value(m.selector)->0);
}

/// Earlier bits of an arm's mapping account for strictly fewer assignments
/// than the whole mapping once bit `i` itself maps there.
proof fn lemma_count_arm_take_lt(m: Seq<usize>, i: int)
    requires
        0 <= i < m.len(),
    ensures
        count_arm(m.take(i), m[i] as int) < count_arm(m, m[i] as int),
    decreases m.len(),
{
    if i == m.len() - 1 {
        assert(m.take(i) =~= m.drop_last());
    } else {
        lemma_count_arm_take_lt(m.drop_last(), i);
        assert(m.drop_last().take(i) =~= m.take(i));
        assert(m.drop_last()[i] == m[i]);
    }
}

/// Splitter round trip: every source bit can be read back from its arm at
/// its recorded position, so re-concatenating the arms by recorded bit
/// order reconstructs the input exactly.
pub proof fn lemma_splitter_round_trip(s: Seq<bool>, m: Seq<usize>)
    requires
        s.len() == m.len(),
    ensures
        forall|i: int|
            0 <= i < s.len() ==> arm_of(s, m, #[trigger] m[i] as int)[count_arm(
                m.take(i),
                m[i] as int,
            ) as int] == s[i],
    decreases s.len(),
{
    if s.len() > 0 {
        lemma_splitter_round_trip(s.drop_last(), m.drop_last());
        assert forall|i: int|
            0 <= i < s.len() implies arm_of(s, m, #[trigger] m[i] as int)[count_arm(
            m.take(i),
            m[i] as int,
        ) as int] == s[i] by {
            let a = m[i] as int;
            let pos = count_arm(m.take(i), a) as int;
            lemma_arm_of_len(s.drop_last(), m.drop_last(), a);
            if i == m.len() - 1 {
                assert(m.take(i) =~= m.drop_last());
                assert(arm_of(s, m, a) == arm_of(s.drop_last(), m.drop_last(), a) + seq![s.last()]);
                assert(arm_of(s, m, a)[pos] == s[i]);
            } else {
                assert(m.drop_last().take(i) =~= m.take(i));
                assert(m.drop_last()[i] == m[i]);
                assert(s.drop_last()[i] == s[i]);
                assert(arm_of(s.drop_last(), m.drop_last(), a)[pos] == s[i]);
                lemma_count_arm_take_lt(m.drop_last(), i);
                assert(pos < count_arm(m.drop_last(), a));
                if m.last() == a {
                    assert(arm_of(s, m, a) == arm_of(s.drop_last(), m.drop_last(), a) + seq![
                        s.last()
                    ]);
                } else {
                    assert(arm_of(s, m, a) =~= arm_of(s.drop_last(), m.drop_last(), a));
                }
                assert(arm_of(s, m, a)[pos] == s[i]);
            }
        }
    }
}

/// What a register holds after a run of clock ticks: each tick either
/// latches that tick's data (when write-enable has any bit set) or keeps
/// the previous value.
pub open spec fn register_after(
    init: Option<Seq<bool>>,
    steps: Seq<(Option<Seq<bool>>, Option<Seq<bool>>)>,
) -> Option<Seq<bool>>
    decreases steps.len(),
{
    if steps.len() == 0 {
        init
    } else {
        if write_enabled(steps.last().0) {
            steps.last().1
        } else {
            register_after(init, steps.drop_last())
        }
    }
}

/// The index of the last tick whose write-enable had any bit set.
pub open spec fn last_enabled(steps: Seq<(Option<Seq<bool>>, Option<Seq<bool>>)>) -> int
    decreases steps.len(),
{
    if steps.len() == 0 {
        -1
    } else {
        if write_enabled(steps.last().0) {
            steps.len() - 1
        } else {
            last_enabled(steps.drop_last())
        }
    }
}

/// Register history law: after any sequence of (write-enable, data) ticks,
/// the output is the data most recently presented while write-enable had
/// any bit set, or the initial value if that never happened.  One tick of
/// [`crate::component::Register::tick_clock`] steps exactly this
/// transformer.
pub proof fn lemma_register_history(
    init: Option<Seq<bool>>,
    steps: Seq<(Option<Seq<bool>>, Option<Seq<bool>>)>,
)
    ensures
        (exists|k: int| 0 <= k < steps.len() && write_enabled((#[trigger] steps[k]).0))
            ==> register_after(init, steps) == steps[last_enabled(steps)].1 && 0 <= last_enabled(
            steps,
        ) < steps.len() && write_enabled(steps[last_enabled(steps)].0) && (forall|k: int|
            last_enabled(steps) < k < steps.len() ==> !write_enabled((#[trigger] steps[k]).0)),
        (forall|k: int| 0 <= k < steps.len() ==> !write_enabled((#[trigger] steps[k]).0))
            ==> register_after(init, steps) == init,
    decreases steps.len(),
{
    if steps.len() > 0 {
        lemma_register_history(init, steps.drop_last());
        if write_enabled(steps.last().0) {
            assert(steps[steps.len() - 1] == steps.last());
            assert(last_enabled(steps) == steps.len() - 1);
        } else {
            assert(steps[steps.len() - 1] == steps.last());
            if exists|k: int| 0 <= k < steps.len() && write_enabled((#[trigger] steps[k]).0) {
                let k = choose|k: int|
                    0 <= k < steps.len() && write_enabled((#[trigger] steps[k]).0);
                assert(k < steps.len() - 1);
                assert(steps.drop_last()[k] == steps[k]);
                assert(exists|k2: int|
                    0 <= k2 < steps.drop_last().len() && write_enabled(
                        (#[trigger] steps.drop_last()[k2]).0,
                    ));
                let le = last_enabled(steps.drop_last());
                assert(last_enabled(steps) == le);
                assert(steps.drop_last()[le] == steps[le]);
                assert(register_after(init, steps) == register_after(init, steps.drop_last()));
                assert forall|k3: int|
                    le < k3 < steps.len() implies !write_enabled((#[trigger] steps[k3]).0) by {
                    if k3 < steps.len() - 1 {
                        assert(steps.drop_last()[k3] == steps[k3]);
                    }
                }
            } else {
                assert(forall|k: int|
                    0 <= k < steps.drop_last().len() ==> (#[trigger] steps.drop_last()[k])
                        == steps[k]);
            }
        }
    }
}

/// Every vector view is no longer than the machine's address space.
proof fn lemma_vec_len_bound<T>(v: &Vec<T>)
    ensures
        v@.len() <= usize::MAX,
{
    assert(vstd::std_specs::vec::spec_vec_len(v) == v@.len());
}

/// Evaluating a component twice without changing its inputs in between
/// gives the same outputs as evaluating it once: combinational evaluation
/// is idempotent, so repeated propagation of an unchanged circuit cannot
/// change any signal.
pub proof fn lemma_eval_idempotent(c: CompKind, d: CompKind)
    requires
        c.wf(),
        d.wf(),
        d.same_shape(c),
        d.n_ins() == c.n_ins(),
        d.n_outs() == c.n_outs(),
        forall|i: usize|
            i < c.n_ins() ==> #[trigger] d.value_at(PinIndex::Input(i)) == c.value_at(
                PinIndex::Input(i),
            ),
        forall|i: usize|
            i < c.n_outs() ==> #[trigger] d.value_at(PinIndex::Output(i)) == eval_out(c, i as int),
    ensures
        forall|i: usize| i < c.n_outs() ==> #[trigger] eval_out(d, i as int) == eval_out(c, i as int),
{
    assert forall|i: usize| i < c.n_outs() implies #[trigger] eval_out(d, i as int) == eval_out(
        c,
        i as int,
    ) by {
        match (d, c) {
            (CompKind::Gate(x), CompKind::Gate(y)) => {
                lemma_vec_len_bound(&x.inputs);
                assert forall|k: int|
                    0 <= k < x.inputs@.len() implies pins_values(x.inputs@)[k] == pins_values(
                    y.inputs@,
                )[k] by {
                    assert(d.value_at(PinIndex::Input(k as usize)) == c.value_at(
                        PinIndex::Input(k as usize),
                    ));
                }
                assert(pins_values(x.inputs@) =~= pins_values(y.inputs@));
            },
            (CompKind::Mux(x), CompKind::Mux(y)) => {
                lemma_vec_len_bound(&x.inputs);
                assert(d.value_at(PinIndex::Input(0usize)) == c.value_at(PinIndex::Input(0usize)));
                assert forall|k: int|
                    0 <= k < x.inputs@.len() implies pins_values(x.inputs@)[k] == pins_values(
                    y.inputs@,
                )[k] by {
                    assert((k + 1) as usize as nat <= c.n_ins());
                    assert(d.value_at(PinIndex::Input((k + 1) as usize)) == c.value_at(
                        PinIndex::Input((k + 1) as usize),
                    ));
                }
                assert(pins_values(x.inputs@) =~= pins_values(y.inputs@));
            },
            (CompKind::Demux(x), CompKind::Demux(y)) => {
                assert(d.value_at(PinIndex::Input(0usize)) == c.value_at(PinIndex::Input(0usize)));
                assert(d.value_at(PinIndex::Input(1usize)) == c.value_at(PinIndex::Input(1usize)));
                assert(pin_value(x.selector) == pin_value(y.selector));
                assert(pin_value(x.input) == pin_value(y.input));
                match pin_value(y.selector) {
                    None => {
                        assert(eval_out(d, i as int) == pin_value(x.outputs@[i as int]));
                        assert(d.value_at(PinIndex::Output(i)) == eval_out(c, i as int));
                    },
                    Some(sv) => {
                        let idx = load_bits(sv) as int;
                        assert(d.value_at(PinIndex::Output(i)) == eval_out(c, i as int));
                        if i as int != idx {
                            assert(eval_out(d, i as int) == demux_cleared(
                                pin_value(x.outputs@[i as int]),
                            ));
                            assert(pin_value(x.outputs@[i as int]) == demux_cleared(
                                pin_value(y.outputs@[i as int]),
                            ));
                            assert(demux_cleared(demux_cleared(pin_value(y.outputs@[i as int])))
                                == demux_cleared(pin_value(y.outputs@[i as int]))) by {
                                match pin_value(y.outputs@[i as int]) {
                                    None => {},
                                    Some(o) => {
                                        assert(demux_cleared(demux_cleared(Some(o)))->0
                                            =~= demux_cleared(Some(o))->0);
                                    },
                                }
                            }
                        }
                    },
                }
            },
            (CompKind::Register(x), CompKind::Register(y)) => {
                assert(d.value_at(PinIndex::Output(0usize)) == eval_out(c, 0));
            },
            (CompKind::Input(x), CompKind::Input(y)) => {
                assert(d.value_at(PinIndex::Output(0usize)) == eval_out(c, 0));
            },
            (CompKind::Output(x), CompKind::Output(y)) => {},
            (CompKind::Splitter(x), CompKind::Splitter(y)) => {
                assert(d.value_at(PinIndex::Input(0usize)) == c.value_at(PinIndex::Input(0usize)));
                assert(pin_value(x.input) == pin_value(y.input));
            },
            (CompKind::Tunnel(x), CompKind::Tunnel(y)) => {
                assert(d.value_at(PinIndex::Output(i)) == eval_out(c, i as int));
            },
            _ => {},
        }
    }
}

} // verus!
