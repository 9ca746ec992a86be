//! Logic components and their combinational behaviour.
//!
//! Each component kind owns its pins as indexed signal slots.  A pin slot is
//! either absent (`None`, undriven/unknown) or present (`Some` bits), and
//! absence flows through evaluation according to each kind's policy.

use vstd::prelude::*;

verus! {

use crate::signal::Signal;
use crate::signal::signal_zeros;
use crate::signal::not_bits;
use crate::signal::or_bits;
use crate::signal::and_bits;
use crate::signal::any_bit;
use crate::signal::load_bits;
use crate::signal::bits_of_uint;
use crate::signal::lemma_load_bits_bound;
use crate::signal::lemma_load_bits_of_uint;
use vstd::arithmetic::power2::pow2;
use vstd::arithmetic::power2::lemma_pow2_strictly_increases;
use vstd::arithmetic::power2::lemma_pow2_pos;
use vstd::arithmetic::power2::lemma2_to64;

/// A reference into a component's pin set, independent of storage layout.
#[derive(Debug, PartialEq, Eq, Clone, Copy, Structural)]
pub enum PinIndex {
    Input(usize),
    Output(usize),
}

/// A pin: a width together with the signal currently stored on it, absent
/// when the pin is undriven.
pub struct Pin {
    pub bits: u8,
    pub signal: Option<Signal>,
}

/// The bit sequence a pin currently holds, if any.
pub open spec fn pin_value(p: Pin) -> Option<Seq<bool>> {
    match p.signal {
        Some(s) => Some(s@),
        None => None,
    }
}

/// A present pin signal has exactly the pin's declared width.
pub open spec fn pin_wf(p: Pin) -> bool {
    match p.signal {
        Some(s) => s@.len() == p.bits as nat,
        None => true,
    }
}

impl Pin {
    /// A fresh, undriven pin of the given width.
    pub fn new(bits: u8) -> (r: Pin)
        ensures
            r.bits == bits,
            r.signal is None,
            pin_wf(r),
    {
        Pin { bits, signal: None }
    }

    /// The stored signal.
    pub fn get(&self) -> (r: &Option<Signal>)
        ensures
            *r == self.signal,
    {
        &self.signal
    }

    /// Replaces the stored signal; the declared width is kept.
    pub fn set(&mut self, value: Option<Signal>)
        ensures
            final(self).bits == old(self).bits,
            final(self).signal == value,
    {
        self.signal = value;
    }
}

/// Copies an optional signal value.
pub fn copy_signal(v: &Option<Signal>) -> (r: Option<Signal>)
    ensures
        r is Some <==> v is Some,
        r matches Some(s) ==> v matches Some(t) && s@ == t@,
{
    match v {
        None => None,
        Some(s) => Some(s.duplicate()),
    }
}

/// The operation a gate performs.
#[derive(Debug, PartialEq, Eq, Clone, Copy, Structural)]
pub enum GateOp {
    Not,
    Or,
    And,
}

/// A logic gate: one output, one or more inputs of a shared width.
pub struct Gate {
    pub op: GateOp,
    pub data_bits: u8,
    pub inputs: Vec<Pin>,
    pub output: Pin,
}

/// The values currently stored on a pin vector, in pin order.
pub open spec fn pins_values(pins: Seq<Pin>) -> Seq<Option<Seq<bool>>> {
    Seq::new(pins.len(), |k: int| pin_value(pins[k]))
}

/// What a gate's output becomes, given the values on its input pins.
///
/// The result is absent iff at least one input is absent; otherwise OR and
/// AND combine all inputs pointwise and NOT negates its single input.
pub open spec fn gate_output(op: GateOp, width: nat, ins: Seq<Option<Seq<bool>>>) -> Option<
    Seq<bool>,
> {
    if exists|k: int| 0 <= k < ins.len() && ins[k] is None {
        None
    } else {
        match op {
            GateOp::Not => Some(not_bits(ins[0]->0)),
            GateOp::Or => Some(
                Seq::new(width, |j: int| exists|k: int| 0 <= k < ins.len() && ins[k]->0[j]),
            ),
            GateOp::And => Some(
                Seq::new(width, |j: int| forall|k: int| 0 <= k < ins.len() ==> ins[k]->0[j]),
            ),
        }
    }
}

impl Gate {
    /// Structural well-formedness: pin widths agree with the configured
    /// width, NOT has exactly one input, and stored signals fit their pins.
    pub open spec fn wf(self) -> bool {
        &&& 1 <= self.data_bits <= 32
        &&& self.inputs@.len() >= 1
        &&& (self.op is Not ==> self.inputs@.len() == 1)
        &&& forall|i: int|
            0 <= i < self.inputs@.len() ==> (#[trigger] self.inputs@[i]).bits == self.data_bits
                && pin_wf(self.inputs@[i])
        &&& self.output.bits == self.data_bits
        &&& pin_wf(self.output)
    }

    /// A gate with undriven pins.
    pub fn new(op: GateOp, data_bits: u8, n_inputs: usize) -> (r: Gate)
        requires
            1 <= data_bits <= 32,
            n_inputs >= 1,
            op is Not ==> n_inputs == 1,
        ensures
            r.wf(),
            r.op == op,
            r.data_bits == data_bits,
            r.inputs@.len() == n_inputs,
            forall|i: int| 0 <= i < n_inputs ==> pin_value(#[trigger] r.inputs@[i]) is None,
            pin_value(r.output) is None,
    {
        let mut inputs: Vec<Pin> = Vec::new();
        let mut k: usize = 0;
        while k < n_inputs
            invariant
                k <= n_inputs,
                inputs@.len() == k as nat,
                forall|i: int|
                    0 <= i < k as int ==> (#[trigger] inputs@[i]).bits == data_bits && inputs@[i].signal
                        is None,
            decreases n_inputs - k,
        {
            inputs.push(Pin::new(data_bits));
            k += 1;
        }
        Gate { op, data_bits, inputs, output: Pin::new(data_bits) }
    }

    /// The default gate of the given operation: width 1, NOT with one input,
    /// OR and AND with two.
    pub fn default_of_kind(op: GateOp) -> (r: Gate)
        ensures
            r.wf(),
            r.op == op,
            r.data_bits == 1,
            op is Not ==> r.inputs@.len() == 1,
            !(op is Not) ==> r.inputs@.len() == 2,
    {
        match op {
            GateOp::Not => Gate::new(op, 1, 1),
            GateOp::Or => Gate::new(op, 1, 2),
            GateOp::And => Gate::new(op, 1, 2),
        }
    }

    /// Computes the output pin from the input pins.
    pub fn do_logic(&mut self)
        requires
            old(self).wf(),
        ensures
            final(self).wf(),
            final(self).op == old(self).op,
            final(self).data_bits == old(self).data_bits,
            final(self).inputs == old(self).inputs,
            final(self).output.bits == old(self).output.bits,
            pin_value(final(self).output) == gate_output(
                old(self).op,
                old(self).data_bits as nat,
                pins_values(old(self).inputs@),
            ),
    {
        let ghost ins = pins_values(self.inputs@);
        let width = self.data_bits;
        match self.op {
            GateOp::Not => {
                match &self.inputs[0].signal {
                    None => {
                        self.output.signal = None;
                    },
                    Some(s) => {
                        self.output.signal = Some(s.not());
                        proof {
                            assert(forall|k: int| 0 <= k < ins.len() ==> ins[k] is Some);
                        }
                    },
                }
            },
            GateOp::Or => {
                let mut acc = signal_zeros(width);
                let n = self.inputs.len();
                let mut k: usize = 0;
                while k < n
                    invariant
                        k <= n,
                        n == self.inputs@.len(),
                        self.wf(),
                        self == old(self),
                        width == self.data_bits,
                        ins == pins_values(self.inputs@),
                        acc@.len() == width as nat,
                        forall|j: int|
                            0 <= j < width as int ==> (#[trigger] acc@[j] <==> exists|m: int|
                                0 <= m < k as int && ins[m]->0[j]),
                        forall|m: int| 0 <= m < k as int ==> ins[m] is Some,
                    decreases n - k,
                {
                    match &self.inputs[k].signal {
                        None => {
                            self.output.signal = None;
                            proof {
                                assert(ins[k as int] is None);
                            }
                            return ;
                        },
                        Some(s) => {
                            acc = acc.or(s);
                        },
                    }
                    k += 1;
                }
                self.output.signal = Some(acc);
                proof {
                    let out = gate_output(self.op, width as nat, ins);
                    assert(out matches Some(o) && acc@ =~= o);
                }
            },
            GateOp::And => {
                let mut acc = signal_zeros(width).not();
                let n = self.inputs.len();
                let mut k: usize = 0;
                while k < n
                    invariant
                        k <= n,
                        n == self.inputs@.len(),
                        self.wf(),
                        self == old(self),
                        width == self.data_bits,
                        ins == pins_values(self.inputs@),
                        acc@.len() == width as nat,
                        forall|j: int|
                            0 <= j < width as int ==> (#[trigger] acc@[j] <==> forall|m: int|
                                0 <= m < k as int ==> ins[m]->0[j]),
                        forall|m: int| 0 <= m < k as int ==> ins[m] is Some,
                    decreases n - k,
                {
                    match &self.inputs[k].signal {
                        None => {
                            self.output.signal = None;
                            proof {
                                assert(ins[k as int] is None);
                            }
                            return ;
                        },
                        Some(s) => {
                            acc = acc.and(s);
                        },
                    }
                    k += 1;
                }
                self.output.signal = Some(acc);
                proof {
                    let out = gate_output(self.op, width as nat, ins);
                    assert(out matches Some(o) && acc@ =~= o);
                }
            },
        }
    }
}

/// What a multiplexer's output becomes: absent when the selector is absent,
/// otherwise the value on the selected data input (which may itself be
/// absent).
pub open spec fn mux_output(sel: Option<Seq<bool>>, ins: Seq<Option<Seq<bool>>>) -> Option<
    Seq<bool>,
> {
    match sel {
        None => None,
        Some(s) => ins[load_bits(s) as int],
    }
}

/// A multiplexer: a selector pin of width `sel_bits`, `2^sel_bits` data
/// inputs and one output.
pub struct Mux {
    pub sel_bits: u8,
    pub data_bits: u8,
    pub inputs: Vec<Pin>,
    pub output: Pin,
    pub selector: Pin,
}

impl Mux {
    /// Structural well-formedness: the data input count matches the selector
    /// width and every pin's stored signal fits its declared width.
    pub open spec fn wf(self) -> bool {
        &&& 1 <= self.sel_bits <= 6
        &&& 1 <= self.data_bits <= 32
        &&& self.inputs@.len() == pow2(self.sel_bits as nat)
        &&& forall|i: int|
            0 <= i < self.inputs@.len() ==> (#[trigger] self.inputs@[i]).bits == self.data_bits
                && pin_wf(self.inputs@[i])
        &&& self.selector.bits == self.sel_bits
        &&& pin_wf(self.selector)
        &&& self.output.bits == self.data_bits
        &&& pin_wf(self.output)
    }

    /// A multiplexer with undriven pins.
    pub fn new(sel_bits: u8, data_bits: u8) -> (r: Mux)
        requires
            1 <= sel_bits <= 6,
            1 <= data_bits <= 32,
        ensures
            r.wf(),
            r.sel_bits == sel_bits,
            r.data_bits == data_bits,
            forall|i: int| 0 <= i < r.inputs@.len() ==> pin_value(#[trigger] r.inputs@[i]) is None,
            pin_value(r.selector) is None,
            pin_value(r.output) is None,
    {
        let n = pow2_small(sel_bits);
        let mut inputs: Vec<Pin> = Vec::new();
        let mut k: usize = 0;
        while k < n
            invariant
                k <= n,
                inputs@.len() == k as nat,
                forall|i: int|
                    0 <= i < k as int ==> (#[trigger] inputs@[i]).bits == data_bits && inputs@[i].signal
                        is None,
            decreases n - k,
        {
            inputs.push(Pin::new(data_bits));
            k += 1;
        }
        Mux { sel_bits, data_bits, inputs, output: Pin::new(data_bits), selector: Pin::new(sel_bits) }
    }

    /// Routes the selected data input to the output.
    pub fn do_logic(&mut self)
        requires
            old(self).wf(),
        ensures
            final(self).wf(),
            final(self).sel_bits == old(self).sel_bits,
            final(self).data_bits == old(self).data_bits,
            final(self).inputs == old(self).inputs,
            final(self).selector == old(self).selector,
            final(self).output.bits == old(self).output.bits,
            pin_value(final(self).output) == mux_output(
                pin_value(old(self).selector),
                pins_values(old(self).inputs@),
            ),
    {
        let v = match &self.selector.signal {
            None => None,
            Some(s) => {
                proof {
                    lemma_load_bits_bound(s@);
                    lemma2_to64();
                    if s@.len() < 6 {
                        lemma_pow2_strictly_increases(s@.len(), 6);
                    }
                }
                let idx = s.load_u64() as usize;
                proof {
                    assert(idx as nat == load_bits(s@));
                }
                copy_signal(&self.inputs[idx].signal)
            },
        };
        self.output.signal = v;
        proof {
            let out = mux_output(pin_value(old(self).selector), pins_values(old(self).inputs@));
            if out is Some {
                assert(pin_value(self.output) matches Some(x) && x == out->0);
            }
            assert(pin_value(self.output) == out);
        }
    }
}

/// What one demultiplexer output becomes when a selection is made and the
/// output is not the selected one: an absent output stays absent and a
/// present one is zeroed, keeping its width.
pub open spec fn demux_cleared(v: Option<Seq<bool>>) -> Option<Seq<bool>> {
    match v {
        None => None,
        Some(s) => Some(Seq::new(s.len(), |i: int| false)),
    }
}

/// A demultiplexer: a selector pin, one data input and `2^sel_bits` outputs.
pub struct Demux {
    pub sel_bits: u8,
    pub data_bits: u8,
    pub input: Pin,
    pub outputs: Vec<Pin>,
    pub selector: Pin,
}

impl Demux {
    /// Structural well-formedness, mirroring [`Mux::wf`].
    pub open spec fn wf(self) -> bool {
        &&& 1 <= self.sel_bits <= 6
        &&& 1 <= self.data_bits <= 32
        &&& self.outputs@.len() == pow2(self.sel_bits as nat)
        &&& forall|i: int|
            0 <= i < self.outputs@.len() ==> (#[trigger] self.outputs@[i]).bits == self.data_bits
                && pin_wf(self.outputs@[i])
        &&& self.selector.bits == self.sel_bits
        &&& pin_wf(self.selector)
        &&& self.input.bits == self.data_bits
        &&& pin_wf(self.input)
    }

    /// A demultiplexer with undriven pins.
    pub fn new(sel_bits: u8, data_bits: u8) -> (r: Demux)
        requires
            1 <= sel_bits <= 6,
            1 <= data_bits <= 32,
        ensures
            r.wf(),
            r.sel_bits == sel_bits,
            r.data_bits == data_bits,
            forall|i: int| 0 <= i < r.outputs@.len() ==> pin_value(#[trigger] r.outputs@[i]) is None,
            pin_value(r.selector) is None,
            pin_value(r.input) is None,
    {
        let n = pow2_small(sel_bits);
        let mut outputs: Vec<Pin> = Vec::new();
        let mut k: usize = 0;
        while k < n
            invariant
                k <= n,
                outputs@.len() == k as nat,
                forall|i: int|
                    0 <= i < k as int ==> (#[trigger] outputs@[i]).bits == data_bits
                        && outputs@[i].signal is None,
            decreases n - k,
        {
            outputs.push(Pin::new(data_bits));
            k += 1;
        }
        Demux { sel_bits, data_bits, input: Pin::new(data_bits), outputs, selector: Pin::new(sel_bits) }
    }

    /// Routes the data input to the selected output.
    ///
    /// When the selector is absent nothing changes at all, so previously
    /// written outputs persist; when the selector is present every other
    /// present output is zeroed and the selected output takes the input's
    /// value, present or absent.
    pub fn do_logic(&mut self)
        requires
            old(self).wf(),
        ensures
            final(self).wf(),
            final(self).sel_bits == old(self).sel_bits,
            final(self).data_bits == old(self).data_bits,
            final(self).input == old(self).input,
            final(self).selector == old(self).selector,
            pin_value(old(self).selector) is None ==> *final(self) == *old(self),
            pin_value(old(self).selector) matches Some(s) ==> {
                let idx = load_bits(s) as int;
                &&& final(self).outputs@.len() == old(self).outputs@.len()
                &&& forall|k: int|
                    0 <= k < old(self).outputs@.len() ==> (#[trigger] final(self).outputs@[k]).bits
                        == old(self).outputs@[k].bits
                &&& forall|k: int|
                    0 <= k < old(self).outputs@.len() && k != idx ==> pin_value(
                        #[trigger] final(self).outputs@[k],
                    ) == demux_cleared(pin_value(old(self).outputs@[k]))
                &&& pin_value(final(self).outputs@[idx]) == pin_value(old(self).input)
            },
    {
        let has_sel = match &self.selector.signal {
            None => false,
            Some(_) => true,
        };
        if !has_sel {
            return ;
        }
        let idx = match &self.selector.signal {
            None => 0,
            Some(s) => {
                proof {
                    lemma_load_bits_bound(s@);
                }
                s.load_u64() as usize
            },
        };
        let n = self.outputs.len();
        let mut k: usize = 0;
        while k < n
            invariant
                k <= n,
                n == self.outputs@.len(),
                self.wf(),
                self.sel_bits == old(self).sel_bits,
                self.data_bits == old(self).data_bits,
                self.input == old(self).input,
                self.selector == old(self).selector,
                self.outputs@.len() == old(self).outputs@.len(),
                forall|i: int|
                    0 <= i < k as int ==> pin_value(#[trigger] self.outputs@[i]) == demux_cleared(
                        pin_value(old(self).outputs@[i]),
                    ),
                forall|i: int|
                    k as int <= i < n as int ==> #[trigger] self.outputs@[i] == old(self).outputs@[i],
                forall|i: int|
                    0 <= i < n as int ==> (#[trigger] self.outputs@[i]).bits == old(self).outputs@[i].bits,
            decreases n - k,
        {
            let zero = match &self.outputs[k].signal {
                None => false,
                Some(_) => true,
            };
            if zero {
                self.outputs[k].signal = Some(signal_zeros(self.data_bits));
                proof {
                    assert(pin_value(self.outputs@[k as int]) matches Some(z) && demux_cleared(
                        pin_value(old(self).outputs@[k as int]),
                    ) matches Some(c) && z =~= c);
                }
            }
            k += 1;
        }
        let v = copy_signal(&self.input.signal);
        self.outputs[idx].signal = v;
    }
}

/// A register: a one-bit write-enable pin, a data input and an output that
/// persists across combinational passes and changes only on a clock tick.
pub struct Register {
    pub data_bits: u8,
    pub write_enable: Pin,
    pub input: Pin,
    pub output: Pin,
}

/// Whether a write-enable pin value commands a write: it must be present
/// with at least one bit set.
pub open spec fn write_enabled(we: Option<Seq<bool>>) -> bool {
    match we {
        None => false,
        Some(s) => any_bit(s),
    }
}

impl Register {
    /// Structural well-formedness.
    pub open spec fn wf(self) -> bool {
        &&& 1 <= self.data_bits <= 32
        &&& self.write_enable.bits == 1
        &&& pin_wf(self.write_enable)
        &&& self.input.bits == self.data_bits
        &&& pin_wf(self.input)
        &&& self.output.bits == self.data_bits
        &&& pin_wf(self.output)
    }

    /// A register holding all zeros, with undriven write-enable and data
    /// input pins.
    pub fn new(data_bits: u8) -> (r: Register)
        requires
            1 <= data_bits <= 32,
        ensures
            r.wf(),
            r.data_bits == data_bits,
            pin_value(r.write_enable) is None,
            pin_value(r.input) is None,
            pin_value(r.output) matches Some(s) && s.len() == data_bits as nat && forall|i: int|
                0 <= i < s.len() ==> !s[i],
    {
        Register {
            data_bits,
            write_enable: Pin::new(1),
            input: Pin::new(data_bits),
            output: Pin { bits: data_bits, signal: Some(signal_zeros(data_bits)) },
        }
    }

    /// One clock tick: when write-enable is present with any bit set, the
    /// data input's value (present or absent) is copied to the output;
    /// otherwise the output is unchanged.  An undriven write-enable means
    /// "do not write".
    pub fn tick_clock(&mut self)
        requires
            old(self).wf(),
        ensures
            final(self).wf(),
            final(self).data_bits == old(self).data_bits,
            final(self).write_enable == old(self).write_enable,
            final(self).input == old(self).input,
            final(self).output.bits == old(self).output.bits,
            pin_value(final(self).output) == if write_enabled(pin_value(old(self).write_enable)) {
                pin_value(old(self).input)
            } else {
                pin_value(old(self).output)
            },
    {
        let enabled = match &self.write_enable.signal {
            None => false,
            Some(s) => s.any(),
        };
        if enabled {
            let v = copy_signal(&self.input.signal);
            self.output.signal = v;
        }
    }
}

/// An interactive input: no input pins, one output pin whose value is held
/// and mutated only by [`Input::interact`] or an external set.
pub struct Input {
    pub data_bits: u8,
    pub value: Pin,
}

impl Input {
    /// Structural well-formedness.
    pub open spec fn wf(self) -> bool {
        &&& 1 <= self.data_bits <= 32
        &&& self.value.bits == self.data_bits
        &&& pin_wf(self.value)
    }

    /// An input holding all zeros.
    pub fn new(data_bits: u8) -> (r: Input)
        requires
            1 <= data_bits <= 32,
        ensures
            r.wf(),
            r.data_bits == data_bits,
            pin_value(r.value) matches Some(s) && s.len() == data_bits as nat && forall|i: int|
                0 <= i < s.len() ==> !s[i],
    {
        Input { data_bits, value: Pin { bits: data_bits, signal: Some(signal_zeros(data_bits)) } }
    }

    /// One user interaction: increments the held value as an unsigned
    /// integer, wrapping within the bit width.  Always reports a change.
    pub fn interact(&mut self) -> (changed: bool)
        requires
            old(self).wf(),
        ensures
            changed,
            final(self).wf(),
            final(self).data_bits == old(self).data_bits,
            final(self).value.bits == old(self).value.bits,
            pin_value(old(self).value) is None ==> *final(self) == *old(self),
            pin_value(old(self).value) matches Some(s) ==> pin_value(final(self).value) matches Some(
                t,
            ) && t.len() == s.len() && load_bits(t) == (load_bits(s) + 1) % pow2(s.len()),
    {
        let next = match &self.value.signal {
            None => None,
            Some(s) => {
                proof {
                    lemma_load_bits_bound(s@);
                    lemma2_to64();
                    if s@.len() < 64 {
                        lemma_pow2_strictly_increases(s@.len(), 64);
                    }
                }
                let v = s.load_u64();
                let r = Signal::from_u64(v + 1, self.data_bits);
                proof {
                    lemma_load_bits_of_uint((v + 1) as nat, self.data_bits as nat);
                    lemma_bits_of_uint_len((v + 1) as nat, self.data_bits as nat);
                    lemma_pow2_pos(self.data_bits as nat);
                }
                Some(r)
            },
        };
        match next {
            None => {},
            Some(r) => {
                self.value.signal = Some(r);
            },
        }
        true
    }
}

/// An output sink: one input pin, no output pins; its held value is whatever
/// drives it, visualised by the shell.
pub struct Output {
    pub data_bits: u8,
    pub value: Pin,
}

impl Output {
    /// Structural well-formedness.
    pub open spec fn wf(self) -> bool {
        &&& 1 <= self.data_bits <= 32
        &&& self.value.bits == self.data_bits
        &&& pin_wf(self.value)
    }

    /// An undriven output sink.
    pub fn new(data_bits: u8) -> (r: Output)
        requires
            1 <= data_bits <= 32,
        ensures
            r.wf(),
            r.data_bits == data_bits,
            pin_value(r.value) is None,
    {
        Output { data_bits, value: Pin::new(data_bits) }
    }
}

/// How many bits of a bit-to-arm mapping are assigned to arm `a`.
pub open spec fn count_arm(m: Seq<usize>, a: int) -> nat
    decreases m.len(),
{
    if m.len() == 0 {
        0
    } else {
        count_arm(m.drop_last(), a) + if m.last() == a {
            1nat
        } else {
            0nat
        }
    }
}

/// The bits of input `s` assigned to arm `a` by mapping `m`, in increasing
/// source-bit order.
pub open spec fn arm_of(s: Seq<bool>, m: Seq<usize>, a: int) -> Seq<bool>
    decreases m.len(),
{
    if m.len() == 0 {
        Seq::empty()
    } else {
        arm_of(s.drop_last(), m.drop_last(), a) + if m.last() == a {
            seq![s.last()]
        } else {
            Seq::empty()
        }
    }
}

/// An arm receives exactly as many bits as the mapping assigns to it.
pub proof fn lemma_arm_of_len(s: Seq<bool>, m: Seq<usize>, a: int)
    requires
        s.len() == m.len(),
    ensures
        arm_of(s, m, a).len() == count_arm(m, a),
    decreases m.len(),
{
    if m.len() > 0 {
        lemma_arm_of_len(s.drop_last(), m.drop_last(), a);
    }
}

/// No arm is assigned more bits than the mapping has entries.
pub proof fn lemma_count_arm_le(m: Seq<usize>, a: int)
    ensures
        count_arm(m, a) <= m.len(),
    decreases m.len(),
{
    if m.len() > 0 {
        lemma_count_arm_le(m.drop_last(), a);
    }
}

/// A splitter: one input of width `data_bits_in`, and arms whose widths sum
/// to the input width; `mapping[i]` names the arm that receives input bit
/// `i`, and each arm keeps its bits in increasing source-bit order.
pub struct Splitter {
    pub input: Pin,
    pub outputs: Vec<Pin>,
    pub data_bits_in: u8,
    pub data_bits_out: Vec<u8>,
    pub mapping: Vec<usize>,
}

impl Splitter {
    /// Structural well-formedness: the mapping covers every input bit, names
    /// only existing arms, and each arm's declared width is the number of
    /// bits mapped to it.
    pub open spec fn wf(self) -> bool {
        &&& 1 <= self.data_bits_in <= 32
        &&& self.outputs@.len() == self.data_bits_out@.len()
        &&& self.outputs@.len() >= 1
        &&& self.mapping@.len() == self.data_bits_in as nat
        &&& forall|i: int| 0 <= i < self.mapping@.len() ==> (#[trigger] self.mapping@[i]) < self.outputs@.len()
        &&& forall|a: int|
            0 <= a < self.outputs@.len() ==> (#[trigger] self.outputs@[a]).bits
                == self.data_bits_out@[a] && pin_wf(self.outputs@[a])
        &&& forall|a: int|
            0 <= a < self.outputs@.len() ==> (#[trigger] self.data_bits_out@[a]) as nat == count_arm(
                self.mapping@,
                a,
            )
        &&& self.input.bits == self.data_bits_in
        &&& pin_wf(self.input)
    }

    /// A splitter with undriven pins; arm widths are derived from the
    /// mapping.
    pub fn new(data_bits_in: u8, n_arms: usize, mapping: Vec<usize>) -> (r: Splitter)
        requires
            1 <= data_bits_in <= 32,
            n_arms >= 1,
            mapping@.len() == data_bits_in as nat,
            forall|i: int| 0 <= i < mapping@.len() ==> (#[trigger] mapping@[i]) < n_arms,
        ensures
            r.wf(),
            r.data_bits_in == data_bits_in,
            r.mapping == mapping,
            r.outputs@.len() == n_arms,
            pin_value(r.input) is None,
            forall|a: int| 0 <= a < n_arms ==> pin_value(#[trigger] r.outputs@[a]) is None,
    {
        let mut widths: Vec<u8> = Vec::new();
        let mut k: usize = 0;
        while k < n_arms
            invariant
                k <= n_arms,
                widths@.len() == k as nat,
                forall|a: int| 0 <= a < k as int ==> (#[trigger] widths@[a]) == 0,
            decreases n_arms - k,
        {
            widths.push(0);
            k += 1;
        }
        proof {
            assert(forall|a: int|
                0 <= a < n_arms ==> count_arm(mapping@.take(0), a) == 0);
        }
        let mut i: usize = 0;
        while i < mapping.len()
            invariant
                i <= mapping@.len(),
                mapping@.len() == data_bits_in as nat,
                data_bits_in <= 32,
                widths@.len() == n_arms as nat,
                forall|j: int| 0 <= j < mapping@.len() ==> (#[trigger] mapping@[j]) < n_arms,
                forall|a: int|
                    0 <= a < n_arms ==> (#[trigger] widths@[a]) as nat == count_arm(
                        mapping@.take(i as int),
                        a,
                    ),
            decreases mapping@.len() - i,
        {
            let a = mapping[i];
            proof {
                lemma_count_arm_le(mapping@.take(i as int), a as int);
                assert(mapping@.take(i as int + 1).drop_last() =~= mapping@.take(i as int));
                assert(forall|b: int|
                    0 <= b < n_arms ==> #[trigger] count_arm(mapping@.take(i as int + 1), b)
                        == count_arm(mapping@.take(i as int), b) + (if mapping@[i as int] == b {
                        1nat
                    } else {
                        0nat
                    }));
            }
            let w = widths[a];
            widths[a] = w + 1;
            i += 1;
        }
        proof {
            assert(mapping@.take(mapping@.len() as int) =~= mapping@);
        }
        let mut outputs: Vec<Pin> = Vec::new();
        let mut k2: usize = 0;
        while k2 < n_arms
            invariant
                k2 <= n_arms,
                widths@.len() == n_arms as nat,
                outputs@.len() == k2 as nat,
                forall|a: int|
                    0 <= a < k2 as int ==> (#[trigger] outputs@[a]).bits == widths@[a]
                        && outputs@[a].signal is None,
            decreases n_arms - k2,
        {
            outputs.push(Pin::new(widths[k2]));
            k2 += 1;
        }
        Splitter { input: Pin::new(data_bits_in), outputs, data_bits_in, data_bits_out: widths, mapping }
    }

    /// Distributes the input's bits over the arms.
    ///
    /// When the input is absent every arm becomes absent; otherwise each arm
    /// holds exactly the input bits mapped to it, in increasing source-bit
    /// order, and an arm with no assigned bits holds a zero-width signal.
    pub fn do_logic(&mut self)
        requires
            old(self).wf(),
        ensures
            final(self).wf(),
            final(self).input == old(self).input,
            final(self).data_bits_in == old(self).data_bits_in,
            final(self).data_bits_out == old(self).data_bits_out,
            final(self).mapping == old(self).mapping,
            final(self).outputs@.len() == old(self).outputs@.len(),
            forall|a: int|
                0 <= a < old(self).outputs@.len() ==> (#[trigger] final(self).outputs@[a]).bits
                    == old(self).outputs@[a].bits,
            pin_value(old(self).input) is None ==> forall|a: int|
                0 <= a < old(self).outputs@.len() ==> pin_value(
                    #[trigger] final(self).outputs@[a],
                ) is None,
            pin_value(old(self).input) matches Some(s) ==> forall|a: int|
                0 <= a < old(self).outputs@.len() ==> pin_value(#[trigger] final(self).outputs@[a])
                    == Some(arm_of(s, old(self).mapping@, a)),
    {
        let present = match &self.input.signal {
            None => false,
            Some(_) => true,
        };
        let n = self.outputs.len();
        if !present {
            let mut k: usize = 0;
            while k < n
                invariant
                    k <= n,
                    n == self.outputs@.len(),
                    self.wf(),
                    self.input == old(self).input,
                    self.data_bits_in == old(self).data_bits_in,
                    self.data_bits_out == old(self).data_bits_out,
                    self.mapping == old(self).mapping,
                    self.outputs@.len() == old(self).outputs@.len(),
                    forall|a: int|
                        0 <= a < n as int ==> (#[trigger] self.outputs@[a]).bits == old(
                            self,
                        ).outputs@[a].bits,
                    forall|a: int|
                        0 <= a < k as int ==> pin_value(#[trigger] self.outputs@[a]) is None,
                decreases n - k,
            {
                self.outputs[k].signal = None;
                k += 1;
            }
            return ;
        }
        let mut a: usize = 0;
        while a < n
            invariant
                a <= n,
                n == self.outputs@.len(),
                self.wf(),
                self.input == old(self).input,
                pin_value(self.input) is Some,
                self.data_bits_in == old(self).data_bits_in,
                self.data_bits_out == old(self).data_bits_out,
                self.mapping == old(self).mapping,
                self.outputs@.len() == old(self).outputs@.len(),
                forall|b: int|
                    0 <= b < n as int ==> (#[trigger] self.outputs@[b]).bits == old(self).outputs@[b].bits,
                forall|b: int|
                    0 <= b < a as int ==> pin_value(#[trigger] self.outputs@[b]) == Some(
                        arm_of(pin_value(old(self).input)->0, old(self).mapping@, b),
                    ),
            decreases n - a,
        {
            let mut arm = Signal::empty();
            let width = self.mapping.len();
            let mut i: usize = 0;
            while i < width
                invariant
                    i <= width,
                    width == self.mapping@.len(),
                    self.wf(),
                    a < self.outputs@.len(),
                    pin_value(self.input) is Some,
                    self.mapping@.len() <= pin_value(self.input)->0.len(),
                    arm@ == arm_of(
                        pin_value(self.input)->0.take(i as int),
                        self.mapping@.take(i as int),
                        a as int,
                    ),
                decreases width - i,
            {
                let ghost s_full = pin_value(self.input)->0;
                let bit_here = match &self.input.signal {
                    None => false,
                    Some(s) => s.get_bit(i),
                };
                proof {
                    assert(s_full.take(i as int + 1).drop_last() =~= s_full.take(i as int));
                    assert(self.mapping@.take(i as int + 1).drop_last() =~= self.mapping@.take(
                        i as int,
                    ));
                }
                if self.mapping[i] == a {
                    arm.push_bit(bit_here);
                    proof {
                        assert(arm@ =~= arm_of(
                            s_full.take(i as int + 1),
                            self.mapping@.take(i as int + 1),
                            a as int,
                        ));
                    }
                } else {
                    proof {
                        assert(arm@ =~= arm_of(
                            s_full.take(i as int + 1),
                            self.mapping@.take(i as int + 1),
                            a as int,
                        ));
                    }
                }
                i += 1;
            }
            proof {
                let s_full = pin_value(self.input)->0;
                assert(s_full.take(self.mapping@.len() as int) =~= s_full);
                assert(self.mapping@.take(self.mapping@.len() as int) =~= self.mapping@);
                lemma_arm_of_len(s_full, self.mapping@, a as int);
            }
            self.outputs[a].signal = Some(arm);
            a += 1;
        }
    }
}

impl Splitter {
    /// A splitter reconfigured to a new input width, with undriven pins.
    ///
    /// Extra input bits are all assigned to the last arm; when the width
    /// shrinks, the surplus mapping entries are dropped.  Arm widths are
    /// recomputed from the mapping either way.
    pub fn with_input_width(&self, new_width: u8) -> (r: Splitter)
        requires
            self.wf(),
            1 <= new_width <= 32,
        ensures
            r.wf(),
            r.data_bits_in == new_width,
            r.outputs@.len() == self.outputs@.len(),
            r.mapping@.len() == new_width as nat,
            forall|i: int|
                0 <= i < r.mapping@.len() ==> (#[trigger] r.mapping@[i]) == (if i
                    < self.mapping@.len() {
                    self.mapping@[i]
                } else {
                    (self.outputs@.len() - 1) as usize
                }),
    {
        let n_arms = self.outputs.len();
        let mut mapping: Vec<usize> = Vec::new();
        let mut i: usize = 0;
        while i < new_width as usize
            invariant
                i <= new_width as usize,
                self.wf(),
                n_arms == self.outputs@.len(),
                mapping@.len() == i as nat,
                forall|j: int|
                    0 <= j < i as int ==> (#[trigger] mapping@[j]) == (if j < self.mapping@.len() {
                        self.mapping@[j]
                    } else {
                        (n_arms - 1) as usize
                    }),
                forall|j: int| 0 <= j < i as int ==> (#[trigger] mapping@[j]) < n_arms,
            decreases new_width as usize - i,
        {
            if i < self.mapping.len() {
                mapping.push(self.mapping[i]);
            } else {
                mapping.push(n_arms - 1);
            }
            i += 1;
        }
        Splitter::new(new_width, n_arms, mapping)
    }

    /// A splitter reconfigured to a new number of arms, with undriven pins.
    ///
    /// New arms start empty; when arms are removed, bits mapped to a
    /// removed arm move to the last remaining one.  Arm widths are
    /// recomputed from the mapping.
    pub fn with_arm_count(&self, new_arms: usize) -> (r: Splitter)
        requires
            self.wf(),
            new_arms >= 1,
        ensures
            r.wf(),
            r.data_bits_in == self.data_bits_in,
            r.outputs@.len() == new_arms,
            r.mapping@.len() == self.mapping@.len(),
            forall|i: int|
                0 <= i < r.mapping@.len() ==> (#[trigger] r.mapping@[i]) == (if self.mapping@[i]
                    < new_arms {
                    self.mapping@[i]
                } else {
                    (new_arms - 1) as usize
                }),
    {
        let mut mapping: Vec<usize> = Vec::new();
        let n = self.mapping.len();
        let mut i: usize = 0;
        while i < n
            invariant
                i <= n,
                self.wf(),
                new_arms >= 1,
                n == self.mapping@.len(),
                mapping@.len() == i as nat,
                forall|j: int|
                    0 <= j < i as int ==> (#[trigger] mapping@[j]) == (if self.mapping@[j]
                        < new_arms {
                        self.mapping@[j]
                    } else {
                        (new_arms - 1) as usize
                    }),
                forall|j: int| 0 <= j < i as int ==> (#[trigger] mapping@[j]) < new_arms,
            decreases n - i,
        {
            let b = self.mapping[i];
            if b >= new_arms {
                mapping.push(new_arms - 1);
            } else {
                mapping.push(b);
            }
            i += 1;
        }
        Splitter::new(self.data_bits_in, new_arms, mapping)
    }

    /// A splitter with one source bit reassigned to another arm, with
    /// undriven pins; arm widths are recomputed from the mapping.
    pub fn with_bit_arm(&self, bit: usize, arm: usize) -> (r: Splitter)
        requires
            self.wf(),
            bit < self.mapping@.len(),
            arm < self.outputs@.len(),
        ensures
            r.wf(),
            r.data_bits_in == self.data_bits_in,
            r.outputs@.len() == self.outputs@.len(),
            r.mapping@ == self.mapping@.update(bit as int, arm),
    {
        let n_arms = self.outputs.len();
        let mut mapping: Vec<usize> = Vec::new();
        let n = self.mapping.len();
        let mut i: usize = 0;
        while i < n
            invariant
                i <= n,
                self.wf(),
                bit < n,
                arm < self.outputs@.len(),
                n_arms == self.outputs@.len(),
                n == self.mapping@.len(),
                mapping@.len() == i as nat,
                forall|j: int|
                    0 <= j < i as int ==> (#[trigger] mapping@[j]) == (if j == bit as int {
                        arm
                    } else {
                        self.mapping@[j]
                    }),
                forall|j: int| 0 <= j < i as int ==> (#[trigger] mapping@[j]) < n_arms,
            decreases n - i,
        {
            if i == bit {
                mapping.push(arm);
            } else {
                mapping.push(self.mapping[i]);
            }
            i += 1;
        }
        let r = Splitter::new(self.data_bits_in, n_arms, mapping);
        proof {
            assert(r.mapping@ =~= self.mapping@.update(bit as int, arm));
        }
        r
    }
}

/// How a signal value is rendered: driven with some bit set, driven all
/// zero, or undriven.
#[derive(Debug, PartialEq, Eq, Clone, Copy, Structural)]
pub enum SignalState {
    Active,
    Inactive,
    Undriven,
}

/// Classifies a pin or wire value for rendering: absent values are
/// undriven, present values are active exactly when some bit is set.
pub fn signal_state(sig: &Option<Signal>) -> (r: SignalState)
    ensures
        r == (match sig_opt_view(*sig) {
            None => SignalState::Undriven,
            Some(s) => if any_bit(s) {
                SignalState::Active
            } else {
                SignalState::Inactive
            },
        }),
{
    match sig {
        None => SignalState::Undriven,
        Some(s) => {
            if s.any() {
                SignalState::Active
            } else {
                SignalState::Inactive
            }
        },
    }
}

/// Whether a tunnel feeds its net or reads from it.
#[derive(Debug, PartialEq, Eq, Clone, Copy, Structural)]
pub enum TunnelKind {
    Sender,
    Receiver,
}

/// A structural change a component undergoes in the circuit.
#[derive(Debug, PartialEq, Eq, Clone, Copy, Structural)]
pub enum CompEvent {
    Added,
    Removed,
}

/// A tunnel: a single pin that joins the named net of its label without an
/// explicit wire.  A sender's pin is the net's input, a receiver's pin its
/// output.
pub struct Tunnel {
    pub kind: TunnelKind,
    pub label: String,
    pub data_bits: u8,
    pub value: Pin,
}

impl Tunnel {
    /// Structural well-formedness.
    pub open spec fn wf(self) -> bool {
        &&& 1 <= self.data_bits <= 32
        &&& self.value.bits == self.data_bits
        &&& pin_wf(self.value)
    }

    /// A tunnel with an undriven pin.
    pub fn new(kind: TunnelKind, label: String, data_bits: u8) -> (r: Tunnel)
        requires
            1 <= data_bits <= 32,
        ensures
            r.wf(),
            r.kind == kind,
            r.label@ == label@,
            r.data_bits == data_bits,
            pin_value(r.value) is None,
    {
        Tunnel { kind, label, data_bits, value: Pin::new(data_bits) }
    }
}

/// The view of an optional signal value.
pub open spec fn sig_opt_view(v: Option<Signal>) -> Option<Seq<bool>> {
    match v {
        Some(s) => Some(s@),
        None => None,
    }
}

/// One of the closed set of logic units, as a tagged union with a single
/// dispatcher per operation.
pub enum CompKind {
    Gate(Gate),
    Mux(Mux),
    Demux(Demux),
    Register(Register),
    Input(Input),
    Output(Output),
    Splitter(Splitter),
    Tunnel(Tunnel),
}

impl CompKind {
    /// Structural well-formedness of the wrapped unit.
    pub open spec fn wf(self) -> bool {
        match self {
            CompKind::Gate(x) => x.wf(),
            CompKind::Mux(x) => x.wf(),
            CompKind::Demux(x) => x.wf(),
            CompKind::Register(x) => x.wf(),
            CompKind::Input(x) => x.wf(),
            CompKind::Output(x) => x.wf(),
            CompKind::Splitter(x) => x.wf(),
            CompKind::Tunnel(x) => x.wf(),
        }
    }

    /// How many input pins the component exposes.
    pub open spec fn n_ins(self) -> nat {
        match self {
            CompKind::Gate(x) => x.inputs@.len(),
            CompKind::Mux(x) => x.inputs@.len() + 1,
            CompKind::Demux(x) => 2,
            CompKind::Register(x) => 2,
            CompKind::Input(x) => 0,
            CompKind::Output(x) => 1,
            CompKind::Splitter(x) => 1,
            CompKind::Tunnel(x) => match x.kind {
                TunnelKind::Sender => 1,
                TunnelKind::Receiver => 0,
            },
        }
    }

    /// How many output pins the component exposes.
    pub open spec fn n_outs(self) -> nat {
        match self {
            CompKind::Gate(x) => 1,
            CompKind::Mux(x) => 1,
            CompKind::Demux(x) => x.outputs@.len(),
            CompKind::Register(x) => 1,
            CompKind::Input(x) => 1,
            CompKind::Output(x) => 0,
            CompKind::Splitter(x) => x.outputs@.len(),
            CompKind::Tunnel(x) => match x.kind {
                TunnelKind::Sender => 0,
                TunnelKind::Receiver => 1,
            },
        }
    }

    /// The pin a [`PinIndex`] refers to.  A tunnel's single pin answers to
    /// both `Input(0)` and `Output(0)`, whichever role the tunnel has.
    pub open spec fn pin_at(self, px: PinIndex) -> Pin {
        match self {
            CompKind::Gate(x) => match px {
                PinIndex::Input(i) => x.inputs@[i as int],
                PinIndex::Output(i) => x.output,
            },
            CompKind::Mux(x) => match px {
                PinIndex::Input(i) => if i == 0 {
                    x.selector
                } else {
                    x.inputs@[i as int - 1]
                },
                PinIndex::Output(i) => x.output,
            },
            CompKind::Demux(x) => match px {
                PinIndex::Input(i) => if i == 0 {
                    x.selector
                } else {
                    x.input
                },
                PinIndex::Output(i) => x.outputs@[i as int],
            },
            CompKind::Register(x) => match px {
                PinIndex::Input(i) => if i == 0 {
                    x.write_enable
                } else {
                    x.input
                },
                PinIndex::Output(i) => x.output,
            },
            CompKind::Input(x) => x.value,
            CompKind::Output(x) => x.value,
            CompKind::Splitter(x) => match px {
                PinIndex::Input(i) => x.input,
                PinIndex::Output(i) => x.outputs@[i as int],
            },
            CompKind::Tunnel(x) => x.value,
        }
    }

    /// Whether a [`PinIndex`] refers to one of this component's pins.
    pub open spec fn pin_ok(self, px: PinIndex) -> bool {
        match self {
            CompKind::Tunnel(x) => px == PinIndex::Input(0usize) || px == PinIndex::Output(0usize),
            _ => match px {
                PinIndex::Input(i) => (i as nat) < self.n_ins(),
                PinIndex::Output(i) => (i as nat) < self.n_outs(),
            },
        }
    }

    /// The value currently stored on the pin `px` refers to.
    pub open spec fn value_at(self, px: PinIndex) -> Option<Seq<bool>> {
        pin_value(self.pin_at(px))
    }

    /// The declared width of the pin `px` refers to.
    pub open spec fn width_at(self, px: PinIndex) -> nat {
        self.pin_at(px).bits as nat
    }

    /// Whether two pin references name the same physical pin of this
    /// component; a tunnel's `Input(0)` and `Output(0)` alias.
    pub open spec fn same_pin(self, a: PinIndex, b: PinIndex) -> bool {
        a == b || (self is Tunnel && self.pin_ok(a) && self.pin_ok(b))
    }

    /// Whether this component reacts to clock ticks rather than to
    /// combinational evaluation.
    pub open spec fn clocked(self) -> bool {
        self is Register
    }

    /// Configuration equality: same variant, same widths and counts, same
    /// mapping and label; only the stored pin signals may differ.
    pub open spec fn same_shape(self, other: CompKind) -> bool {
        match (self, other) {
            (CompKind::Gate(a), CompKind::Gate(b)) => a.op == b.op && a.data_bits == b.data_bits
                && a.inputs@.len() == b.inputs@.len(),
            (CompKind::Mux(a), CompKind::Mux(b)) => a.sel_bits == b.sel_bits && a.data_bits
                == b.data_bits,
            (CompKind::Demux(a), CompKind::Demux(b)) => a.sel_bits == b.sel_bits && a.data_bits
                == b.data_bits,
            (CompKind::Register(a), CompKind::Register(b)) => a.data_bits == b.data_bits,
            (CompKind::Input(a), CompKind::Input(b)) => a.data_bits == b.data_bits,
            (CompKind::Output(a), CompKind::Output(b)) => a.data_bits == b.data_bits,
            (CompKind::Splitter(a), CompKind::Splitter(b)) => a.data_bits_in == b.data_bits_in
                && a.data_bits_out@ == b.data_bits_out@ && a.mapping@ == b.mapping@
                && a.outputs@.len() == b.outputs@.len(),
            (CompKind::Tunnel(a), CompKind::Tunnel(b)) => a.kind == b.kind && a.label@ == b.label@
                && a.data_bits == b.data_bits,
            _ => false,
        }
    }

    /// The display name of the component kind.
    pub open spec fn name_spec(self) -> Seq<char> {
        match self {
            CompKind::Gate(x) => match x.op {
                GateOp::Not => "Gate: NOT"@,
                GateOp::Or => "Gate: OR"@,
                GateOp::And => "Gate: AND"@,
            },
            CompKind::Mux(x) => "Multiplexer"@,
            CompKind::Demux(x) => "Demultiplexer"@,
            CompKind::Register(x) => "Register"@,
            CompKind::Input(x) => "Input"@,
            CompKind::Output(x) => "Output"@,
            CompKind::Splitter(x) => "Splitter"@,
            CompKind::Tunnel(x) => "Tunnel"@,
        }
    }

    /// The display name.
    pub fn name(&self) -> (r: &'static str)
        ensures
            r@ == self.name_spec(),
    {
        match self {
            CompKind::Gate(x) => match x.op {
                GateOp::Not => "Gate: NOT",
                GateOp::Or => "Gate: OR",
                GateOp::And => "Gate: AND",
            },
            CompKind::Mux(x) => "Multiplexer",
            CompKind::Demux(x) => "Demultiplexer",
            CompKind::Register(x) => "Register",
            CompKind::Input(x) => "Input",
            CompKind::Output(x) => "Output",
            CompKind::Splitter(x) => "Splitter",
            CompKind::Tunnel(x) => "Tunnel",
        }
    }

    /// The number of input pins.
    pub fn n_in_pins(&self) -> (r: usize)
        requires
            self.wf(),
        ensures
            r as nat == self.n_ins(),
    {
        match self {
            CompKind::Gate(x) => x.inputs.len(),
            CompKind::Mux(x) => {
                proof {
                    lemma2_to64();
                    if (x.sel_bits as nat) < 6 {
                        lemma_pow2_strictly_increases(x.sel_bits as nat, 6);
                    }
                }
                x.inputs.len() + 1
            },
            CompKind::Demux(x) => 2,
            CompKind::Register(x) => 2,
            CompKind::Input(x) => 0,
            CompKind::Output(x) => 1,
            CompKind::Splitter(x) => 1,
            CompKind::Tunnel(x) => match x.kind {
                TunnelKind::Sender => 1,
                TunnelKind::Receiver => 0,
            },
        }
    }

    /// The number of output pins.
    pub fn n_out_pins(&self) -> (r: usize)
        requires
            self.wf(),
        ensures
            r as nat == self.n_outs(),
    {
        match self {
            CompKind::Gate(x) => 1,
            CompKind::Mux(x) => 1,
            CompKind::Demux(x) => x.outputs.len(),
            CompKind::Register(x) => 1,
            CompKind::Input(x) => 1,
            CompKind::Output(x) => 0,
            CompKind::Splitter(x) => x.outputs.len(),
            CompKind::Tunnel(x) => match x.kind {
                TunnelKind::Sender => 0,
                TunnelKind::Receiver => 1,
            },
        }
    }

    /// Whether the component is clocked.
    pub fn is_clocked(&self) -> (r: bool)
        ensures
            r == self.clocked(),
    {
        match self {
            CompKind::Register(x) => true,
            _ => false,
        }
    }

    /// Whether `px` refers to one of this component's pins.
    pub fn pin_in_range(&self, px: PinIndex) -> (r: bool)
        requires
            self.wf(),
        ensures
            r == self.pin_ok(px),
    {
        match self {
            CompKind::Tunnel(x) => match px {
                PinIndex::Input(i) => i == 0,
                PinIndex::Output(i) => i == 0,
            },
            _ => match px {
                PinIndex::Input(i) => i < self.n_in_pins(),
                PinIndex::Output(i) => i < self.n_out_pins(),
            },
        }
    }

    /// The declared width of the pin `px` refers to.
    pub fn get_pin_width(&self, px: PinIndex) -> (r: u8)
        requires
            self.wf(),
            self.pin_ok(px),
        ensures
            r as nat == self.width_at(px),
    {
        match self {
            CompKind::Gate(x) => match px {
                PinIndex::Input(i) => x.inputs[i].bits,
                PinIndex::Output(_) => x.output.bits,
            },
            CompKind::Mux(x) => match px {
                PinIndex::Input(i) => if i == 0 {
                    x.selector.bits
                } else {
                    x.inputs[i - 1].bits
                },
                PinIndex::Output(_) => x.output.bits,
            },
            CompKind::Demux(x) => match px {
                PinIndex::Input(i) => if i == 0 {
                    x.selector.bits
                } else {
                    x.input.bits
                },
                PinIndex::Output(i) => x.outputs[i].bits,
            },
            CompKind::Register(x) => match px {
                PinIndex::Input(i) => if i == 0 {
                    x.write_enable.bits
                } else {
                    x.input.bits
                },
                PinIndex::Output(_) => x.output.bits,
            },
            CompKind::Input(x) => x.value.bits,
            CompKind::Output(x) => x.value.bits,
            CompKind::Splitter(x) => match px {
                PinIndex::Input(_) => x.input.bits,
                PinIndex::Output(i) => x.outputs[i].bits,
            },
            CompKind::Tunnel(x) => x.value.bits,
        }
    }

    /// A copy of the value stored on the pin `px` refers to.
    pub fn get_pin_value(&self, px: PinIndex) -> (r: Option<Signal>)
        requires
            self.wf(),
            self.pin_ok(px),
        ensures
            sig_opt_view(r) == self.value_at(px),
    {
        match self {
            CompKind::Gate(x) => match px {
                PinIndex::Input(i) => copy_signal(&x.inputs[i].signal),
                PinIndex::Output(_) => copy_signal(&x.output.signal),
            },
            CompKind::Mux(x) => match px {
                PinIndex::Input(i) => if i == 0 {
                    copy_signal(&x.selector.signal)
                } else {
                    copy_signal(&x.inputs[i - 1].signal)
                },
                PinIndex::Output(_) => copy_signal(&x.output.signal),
            },
            CompKind::Demux(x) => match px {
                PinIndex::Input(i) => if i == 0 {
                    copy_signal(&x.selector.signal)
                } else {
                    copy_signal(&x.input.signal)
                },
                PinIndex::Output(i) => copy_signal(&x.outputs[i].signal),
            },
            CompKind::Register(x) => match px {
                PinIndex::Input(i) => if i == 0 {
                    copy_signal(&x.write_enable.signal)
                } else {
                    copy_signal(&x.input.signal)
                },
                PinIndex::Output(_) => copy_signal(&x.output.signal),
            },
            CompKind::Input(x) => copy_signal(&x.value.signal),
            CompKind::Output(x) => copy_signal(&x.value.signal),
            CompKind::Splitter(x) => match px {
                PinIndex::Input(_) => copy_signal(&x.input.signal),
                PinIndex::Output(i) => copy_signal(&x.outputs[i].signal),
            },
            CompKind::Tunnel(x) => copy_signal(&x.value.signal),
        }
    }

    /// Stores a value on the pin `px` refers to.  The caller hands a value
    /// of the pin's width, or an absent value; widths are checked
    /// structurally upstream.
    pub fn set_pin_value(&mut self, px: PinIndex, value: Option<Signal>)
        requires
            old(self).wf(),
            old(self).pin_ok(px),
            value matches Some(s) ==> s@.len() == old(self).width_at(px),
        ensures
            final(self).wf(),
            final(self).same_shape(*old(self)),
            final(self).value_at(px) == sig_opt_view(value),
            forall|px2: PinIndex|
                old(self).pin_ok(px2) && !old(self).same_pin(px, px2) ==> final(self).value_at(px2)
                    == old(self).value_at(px2),
            forall|px2: PinIndex|
                old(self).pin_ok(px2) ==> final(self).pin_ok(px2) && final(self).width_at(px2)
                    == old(self).width_at(px2),
            final(self).n_ins() == old(self).n_ins(),
            final(self).n_outs() == old(self).n_outs(),
    {
        match self {
            CompKind::Gate(x) => match px {
                PinIndex::Input(i) => x.inputs[i].set(value),
                PinIndex::Output(_) => x.output.set(value),
            },
            CompKind::Mux(x) => match px {
                PinIndex::Input(i) => if i == 0 {
                    x.selector.set(value)
                } else {
                    x.inputs[i - 1].set(value)
                },
                PinIndex::Output(_) => x.output.set(value),
            },
            CompKind::Demux(x) => match px {
                PinIndex::Input(i) => if i == 0 {
                    x.selector.set(value)
                } else {
                    x.input.set(value)
                },
                PinIndex::Output(i) => x.outputs[i].set(value),
            },
            CompKind::Register(x) => match px {
                PinIndex::Input(i) => if i == 0 {
                    x.write_enable.set(value)
                } else {
                    x.input.set(value)
                },
                PinIndex::Output(_) => x.output.set(value),
            },
            CompKind::Input(x) => x.value.set(value),
            CompKind::Output(x) => x.value.set(value),
            CompKind::Splitter(x) => match px {
                PinIndex::Input(_) => x.input.set(value),
                PinIndex::Output(i) => x.outputs[i].set(value),
            },
            CompKind::Tunnel(x) => x.value.set(value),
        }
    }
}

/// What output pin `i` holds after one combinational evaluation of `c`.
///
/// Clocked and stateful kinds (register, input, output, tunnel) do not react
/// combinationally: their outputs keep their stored values.
pub open spec fn eval_out(c: CompKind, i: int) -> Option<Seq<bool>> {
    match c {
        CompKind::Gate(x) => gate_output(x.op, x.data_bits as nat, pins_values(x.inputs@)),
        CompKind::Mux(x) => mux_output(pin_value(x.selector), pins_values(x.inputs@)),
        CompKind::Demux(x) => match pin_value(x.selector) {
            None => pin_value(x.outputs@[i]),
            Some(s) => if i == load_bits(s) as int {
                pin_value(x.input)
            } else {
                demux_cleared(pin_value(x.outputs@[i]))
            },
        },
        CompKind::Register(x) => pin_value(x.output),
        CompKind::Input(x) => pin_value(x.value),
        CompKind::Output(x) => None,
        CompKind::Splitter(x) => match pin_value(x.input) {
            None => None,
            Some(s) => Some(arm_of(s, x.mapping@, i)),
        },
        CompKind::Tunnel(x) => pin_value(x.value),
    }
}

impl CompKind {
    /// One combinational evaluation: reads the stored input pins and writes
    /// the output pins as [`eval_out`] describes.  Input pins are never
    /// written.
    pub fn do_logic(&mut self)
        requires
            old(self).wf(),
        ensures
            final(self).wf(),
            final(self).same_shape(*old(self)),
            final(self).n_ins() == old(self).n_ins(),
            final(self).n_outs() == old(self).n_outs(),
            forall|px: PinIndex|
                old(self).pin_ok(px) ==> final(self).pin_ok(px) && final(self).width_at(px) == old(self).width_at(px),
            forall|i: usize|
                i < old(self).n_ins() ==> #[trigger] final(self).value_at(PinIndex::Input(i))
                    == old(self).value_at(PinIndex::Input(i)),
            forall|i: usize|
                i < old(self).n_outs() ==> #[trigger] final(self).value_at(PinIndex::Output(i))
                    == eval_out(*old(self), i as int),
    {
        match self {
            CompKind::Gate(x) => x.do_logic(),
            CompKind::Mux(x) => x.do_logic(),
            CompKind::Demux(x) => x.do_logic(),
            CompKind::Register(x) => {},
            CompKind::Input(x) => {},
            CompKind::Output(x) => {},
            CompKind::Splitter(x) => x.do_logic(),
            CompKind::Tunnel(x) => {},
        }
        proof {
            assert forall|i: usize|
                i < old(self).n_outs() implies #[trigger] self.value_at(PinIndex::Output(i))
                == eval_out(*old(self), i as int) by {
                if *old(self) is Demux {
                    let d0 = old(self)->Demux_0;
                    let d1 = self->Demux_0;
                    assert(self.pin_at(PinIndex::Output(i)) == d1.outputs@[i as int]);
                    let sv = pin_value(d0.selector);
                    if sv is Some {
                        lemma_load_bits_bound(sv->0);
                        let idx = load_bits(sv->0) as int;
                        if i as int == idx {
                            assert(pin_value(d1.outputs@[i as int]) == pin_value(d0.input));
                        } else {
                            assert(pin_value(d1.outputs@[i as int]) == demux_cleared(
                                pin_value(d0.outputs@[i as int]),
                            ));
                        }
                    } else {
                        assert(d1 == d0);
                    }
                }
                if *old(self) is Splitter {
                    let p0 = old(self)->Splitter_0;
                    let p1 = self->Splitter_0;
                    assert(self.pin_at(PinIndex::Output(i)) == p1.outputs@[i as int]);
                    let iv = pin_value(p0.input);
                    if iv is Some {
                        assert(pin_value(p1.outputs@[i as int]) == Some(
                            arm_of(iv->0, p0.mapping@, i as int),
                        ));
                    } else {
                        assert(pin_value(p1.outputs@[i as int]) is None);
                    }
                }
            }
        }
    }

    /// One clock tick.  Only the register reacts: when its write-enable is
    /// present with any bit set it copies its data input to its output;
    /// every other kind is left untouched.
    pub fn tick_clock(&mut self)
        requires
            old(self).wf(),
        ensures
            final(self).wf(),
            final(self).same_shape(*old(self)),
            final(self).n_ins() == old(self).n_ins(),
            final(self).n_outs() == old(self).n_outs(),
            forall|px: PinIndex|
                old(self).pin_ok(px) ==> final(self).pin_ok(px) && final(self).width_at(px) == old(self).width_at(px),
            !old(self).clocked() ==> *final(self) == *old(self),
            forall|i: usize|
                i < old(self).n_ins() ==> #[trigger] final(self).value_at(PinIndex::Input(i))
                    == old(self).value_at(PinIndex::Input(i)),
            old(self).clocked() ==> final(self).value_at(PinIndex::Output(0usize)) == (
            if write_enabled(old(self).value_at(PinIndex::Input(0usize))) {
                old(self).value_at(PinIndex::Input(1usize))
            } else {
                old(self).value_at(PinIndex::Output(0usize))
            }),
    {
        match self {
            CompKind::Register(x) => x.tick_clock(),
            _ => {},
        }
    }

    /// One user interaction.  Only the interactive input reacts, by
    /// incrementing its held value; the result says whether anything
    /// changed, so the caller knows to re-propagate.
    pub fn interact(&mut self) -> (changed: bool)
        requires
            old(self).wf(),
        ensures
            final(self).wf(),
            final(self).same_shape(*old(self)),
            changed == (*old(self) is Input),
            !(*old(self) is Input) ==> *final(self) == *old(self),
            *old(self) matches CompKind::Input(x) ==> {
                &&& pin_value(x.value) is None ==> *final(self) == *old(self)
                &&& pin_value(x.value) matches Some(s) ==> final(self).value_at(
                    PinIndex::Output(0usize),
                ) matches Some(t) && t.len() == s.len() && load_bits(t) == (load_bits(s) + 1) % pow2(
                    s.len(),
                )
            },
    {
        match self {
            CompKind::Input(x) => x.interact(),
            _ => false,
        }
    }

    /// The context event a structural change of this component requires:
    /// only tunnels take part in net membership.
    pub fn get_ctx_event(&self, event: CompEvent) -> (r: Option<crate::context::CtxEvent>)
        ensures
            !(*self is Tunnel) ==> r is None,
            *self matches CompKind::Tunnel(t) ==> r matches Some(
                crate::context::CtxEvent::TunnelUpdate(u),
            ) && u.label@ == t.label@ && u.tunnel_kind == t.kind && (match event {
                CompEvent::Added => u.update_kind is Add,
                CompEvent::Removed => u.update_kind is Remove,
            }),
    {
        match self {
            CompKind::Tunnel(t) => {
                let update_kind = match event {
                    CompEvent::Added => crate::context::TunnelUpdateKind::Add,
                    CompEvent::Removed => crate::context::TunnelUpdateKind::Remove,
                };
                Some(
                    crate::context::CtxEvent::TunnelUpdate(
                        crate::context::TunnelUpdate {
                            label: t.label.clone(),
                            tunnel_kind: t.kind,
                            update_kind,
                        },
                    ),
                )
            },
            _ => None,
        }
    }
}

/// A placed logic unit.  Placement geometry is owned by the presentation
/// shell; the engine's component is its logic unit alone.
pub struct Component {
    pub kind: CompKind,
}

impl Component {
    /// Structural well-formedness of the wrapped unit.
    pub open spec fn wf(self) -> bool {
        self.kind.wf()
    }

    /// Wraps a logic unit as a circuit component.
    pub fn new(kind: CompKind) -> (r: Component)
        ensures
            r.kind == kind,
    {
        Component { kind }
    }

    /// One combinational evaluation; see [`CompKind::do_logic`].
    pub fn do_logic(&mut self)
        requires
            old(self).wf(),
        ensures
            final(self).wf(),
            final(self).kind.same_shape(old(self).kind),
            final(self).kind.n_ins() == old(self).kind.n_ins(),
            final(self).kind.n_outs() == old(self).kind.n_outs(),
            forall|px: PinIndex|
                old(self).kind.pin_ok(px) ==> final(self).kind.pin_ok(px) && final(self).kind.width_at(px) == old(self).kind.width_at(px),
            forall|i: usize|
                i < old(self).kind.n_ins() ==> #[trigger] final(self).kind.value_at(
                    PinIndex::Input(i),
                ) == old(self).kind.value_at(PinIndex::Input(i)),
            forall|i: usize|
                i < old(self).kind.n_outs() ==> #[trigger] final(self).kind.value_at(
                    PinIndex::Output(i),
                ) == eval_out(old(self).kind, i as int),
    {
        self.kind.do_logic();
    }

    /// Ticks the clock when the component is clocked; see
    /// [`CompKind::tick_clock`].
    pub fn clock_update(&mut self)
        requires
            old(self).wf(),
        ensures
            final(self).wf(),
            final(self).kind.same_shape(old(self).kind),
            !old(self).kind.clocked() ==> *final(self) == *old(self),
            forall|px: PinIndex|
                old(self).kind.pin_ok(px) ==> final(self).kind.pin_ok(px) && final(self).kind.width_at(px) == old(self).kind.width_at(px),
            forall|i: usize|
                i < old(self).kind.n_ins() ==> #[trigger] final(self).kind.value_at(
                    PinIndex::Input(i),
                ) == old(self).kind.value_at(PinIndex::Input(i)),
            old(self).kind.clocked() ==> final(self).kind.value_at(PinIndex::Output(0usize)) == (
            if write_enabled(old(self).kind.value_at(PinIndex::Input(0usize))) {
                old(self).kind.value_at(PinIndex::Input(1usize))
            } else {
                old(self).kind.value_at(PinIndex::Output(0usize))
            }),
    {
        if self.kind.is_clocked() {
            self.kind.tick_clock();
        }
    }
}

/// Whether two string slices hold the same characters.
fn str_eq(a: &str, b: &str) -> (r: bool)
    ensures
        r == (a@ == b@),
{
    let x = a.to_owned();
    let y = b.to_owned();
    x == y
}

/// Builds the default component for a type-name token, or nothing for an
/// unrecognised token.
pub fn default_comp_from_name(comp_name: &str) -> (r: Option<Component>)
    ensures
        comp_name@ == "NOT"@ ==> ({
            &&& r matches Some(c)
            &&& c.kind matches CompKind::Gate(g)
            &&& g.wf()
            &&& g.op is Not
            &&& g.data_bits == 1
            &&& g.inputs@.len() == 1
        }),
        comp_name@ == "AND"@ ==> ({
            &&& r matches Some(c)
            &&& c.kind matches CompKind::Gate(g)
            &&& g.wf()
            &&& g.op is And
            &&& g.data_bits == 1
            &&& g.inputs@.len() == 2
        }),
        comp_name@ == "OR"@ ==> ({
            &&& r matches Some(c)
            &&& c.kind matches CompKind::Gate(g)
            &&& g.wf()
            &&& g.op is Or
            &&& g.data_bits == 1
            &&& g.inputs@.len() == 2
        }),
        comp_name@ == "Input"@ ==> ({
            &&& r matches Some(c)
            &&& c.kind matches CompKind::Input(x)
            &&& x.wf()
            &&& x.data_bits == 1
            &&& pin_value(x.value) matches Some(s) && s.len() == 1 && !s[0]
        }),
        comp_name@ == "Output"@ ==> ({
            &&& r matches Some(c)
            &&& c.kind matches CompKind::Output(x)
            &&& x.wf()
            &&& x.data_bits == 1
        }),
        comp_name@ == "Register"@ ==> ({
            &&& r matches Some(c)
            &&& c.kind matches CompKind::Register(x)
            &&& x.wf()
            &&& x.data_bits == 1
            &&& pin_value(x.output) matches Some(s) && s.len() == 1 && !s[0]
            &&& pin_value(x.write_enable) is None
            &&& pin_value(x.input) is None
        }),
        comp_name@ == "Mux"@ ==> ({
            &&& r matches Some(c)
            &&& c.kind matches CompKind::Mux(x)
            &&& x.wf()
            &&& x.sel_bits == 1
            &&& x.data_bits == 1
        }),
        comp_name@ == "Demux"@ ==> ({
            &&& r matches Some(c)
            &&& c.kind matches CompKind::Demux(x)
            &&& x.wf()
            &&& x.sel_bits == 1
            &&& x.data_bits == 1
        }),
        comp_name@ == "Splitter"@ ==> ({
            &&& r matches Some(c)
            &&& c.kind matches CompKind::Splitter(x)
            &&& x.wf()
            &&& x.data_bits_in == 2
            &&& x.outputs@.len() == 2
            &&& x.mapping@ == seq![0usize, 1usize]
        }),
        comp_name@ == "Tunnel"@ ==> ({
            &&& r matches Some(c)
            &&& c.kind matches CompKind::Tunnel(x)
            &&& x.wf()
            &&& x.kind is Sender
            &&& x.label@ == Seq::<char>::empty()
            &&& x.data_bits == 1
        }),
        r is None <==> !(comp_name@ == "NOT"@ || comp_name@ == "AND"@ || comp_name@ == "OR"@
            || comp_name@ == "Input"@ || comp_name@ == "Output"@ || comp_name@ == "Register"@
            || comp_name@ == "Mux"@ || comp_name@ == "Demux"@ || comp_name@ == "Splitter"@
            || comp_name@ == "Tunnel"@),
        r matches Some(c) ==> c.wf(),
{
    proof {
        reveal_strlit("NOT");
        reveal_strlit("AND");
        reveal_strlit("OR");
        reveal_strlit("Input");
        reveal_strlit("Output");
        reveal_strlit("Register");
        reveal_strlit("Mux");
        reveal_strlit("Demux");
        reveal_strlit("Splitter");
        reveal_strlit("Tunnel");
        assert("AND"@ != "NOT"@) by { assert("AND"@[0] == 'A'); assert("NOT"@[0] == 'N'); }
        assert("OR"@ != "NOT"@) by { assert("OR"@.len() == 2); assert("NOT"@.len() == 3); }
        assert("OR"@ != "AND"@) by { assert("OR"@.len() == 2); assert("AND"@.len() == 3); }
        assert("Input"@ != "NOT"@) by { assert("Input"@.len() == 5); assert("NOT"@.len() == 3); }
        assert("Input"@ != "AND"@) by { assert("Input"@.len() == 5); assert("AND"@.len() == 3); }
        assert("Input"@ != "OR"@) by { assert("Input"@.len() == 5); assert("OR"@.len() == 2); }
        assert("Output"@ != "NOT"@) by { assert("Output"@.len() == 6); assert("NOT"@.len() == 3); }
        assert("Output"@ != "AND"@) by { assert("Output"@.len() == 6); assert("AND"@.len() == 3); }
        assert("Output"@ != "OR"@) by { assert("Output"@.len() == 6); assert("OR"@.len() == 2); }
        assert("Output"@ != "Input"@) by { assert("Output"@.len() == 6); assert("Input"@.len() == 5); }
        assert("Register"@ != "NOT"@) by { assert("Register"@.len() == 8); assert("NOT"@.len() == 3); }
        assert("Register"@ != "AND"@) by { assert("Register"@.len() == 8); assert("AND"@.len() == 3); }
        assert("Register"@ != "OR"@) by { assert("Register"@.len() == 8); assert("OR"@.len() == 2); }
        assert("Register"@ != "Input"@) by { assert("Register"@.len() == 8); assert("Input"@.len() == 5); }
        assert("Register"@ != "Output"@) by { assert("Register"@.len() == 8); assert("Output"@.len() == 6); }
        assert("Mux"@ != "NOT"@) by { assert("Mux"@[0] == 'M'); assert("NOT"@[0] == 'N'); }
        assert("Mux"@ != "AND"@) by { assert("Mux"@[0] == 'M'); assert("AND"@[0] == 'A'); }
        assert("Mux"@ != "OR"@) by { assert("Mux"@.len() == 3); assert("OR"@.len() == 2); }
        assert("Mux"@ != "Input"@) by { assert("Mux"@.len() == 3); assert("Input"@.len() == 5); }
        assert("Mux"@ != "Output"@) by { assert("Mux"@.len() == 3); assert("Output"@.len() == 6); }
        assert("Mux"@ != "Register"@) by { assert("Mux"@.len() == 3); assert("Register"@.len() == 8); }
        assert("Demux"@ != "NOT"@) by { assert("Demux"@.len() == 5); assert("NOT"@.len() == 3); }
        assert("Demux"@ != "AND"@) by { assert("Demux"@.len() == 5); assert("AND"@.len() == 3); }
        assert("Demux"@ != "OR"@) by { assert("Demux"@.len() == 5); assert("OR"@.len() == 2); }
        assert("Demux"@ != "Input"@) by { assert("Demux"@[0] == 'D'); assert("Input"@[0] == 'I'); }
        assert("Demux"@ != "Output"@) by { assert("Demux"@.len() == 5); assert("Output"@.len() == 6); }
        assert("Demux"@ != "Register"@) by { assert("Demux"@.len() == 5); assert("Register"@.len() == 8); }
        assert("Demux"@ != "Mux"@) by { assert("Demux"@.len() == 5); assert("Mux"@.len() == 3); }
        assert("Splitter"@ != "NOT"@) by { assert("Splitter"@.len() == 8); assert("NOT"@.len() == 3); }
        assert("Splitter"@ != "AND"@) by { assert("Splitter"@.len() == 8); assert("AND"@.len() == 3); }
        assert("Splitter"@ != "OR"@) by { assert("Splitter"@.len() == 8); assert("OR"@.len() == 2); }
        assert("Splitter"@ != "Input"@) by { assert("Splitter"@.len() == 8); assert("Input"@.len() == 5); }
        assert("Splitter"@ != "Output"@) by { assert("Splitter"@.len() == 8); assert("Output"@.len() == 6); }
        assert("Splitter"@ != "Register"@) by { assert("Splitter"@[0] == 'S'); assert("Register"@[0] == 'R'); }
        assert("Splitter"@ != "Mux"@) by { assert("Splitter"@.len() == 8); assert("Mux"@.len() == 3); }
        assert("Splitter"@ != "Demux"@) by { assert("Splitter"@.len() == 8); assert("Demux"@.len() == 5); }
        assert("Tunnel"@ != "NOT"@) by { assert("Tunnel"@.len() == 6); assert("NOT"@.len() == 3); }
        assert("Tunnel"@ != "AND"@) by { assert("Tunnel"@.len() == 6); assert("AND"@.len() == 3); }
        assert("Tunnel"@ != "OR"@) by { assert("Tunnel"@.len() == 6); assert("OR"@.len() == 2); }
        assert("Tunnel"@ != "Input"@) by { assert("Tunnel"@.len() == 6); assert("Input"@.len() == 5); }
        assert("Tunnel"@ != "Output"@) by { assert("Tunnel"@[0] == 'T'); assert("Output"@[0] == 'O'); }
        assert("Tunnel"@ != "Register"@) by { assert("Tunnel"@.len() == 6); assert("Register"@.len() == 8); }
        assert("Tunnel"@ != "Mux"@) by { assert("Tunnel"@.len() == 6); assert("Mux"@.len() == 3); }
        assert("Tunnel"@ != "Demux"@) by { assert("Tunnel"@.len() == 6); assert("Demux"@.len() == 5); }
        assert("Tunnel"@ != "Splitter"@) by { assert("Tunnel"@.len() == 6); assert("Splitter"@.len() == 8); }
    }
    let kind: CompKind = if str_eq(comp_name, "NOT") {
        CompKind::Gate(Gate::default_of_kind(GateOp::Not))
    } else if str_eq(comp_name, "AND") {
        CompKind::Gate(Gate::default_of_kind(GateOp::And))
    } else if str_eq(comp_name, "OR") {
        CompKind::Gate(Gate::default_of_kind(GateOp::Or))
    } else if str_eq(comp_name, "Input") {
        CompKind::Input(Input::new(1))
    } else if str_eq(comp_name, "Output") {
        CompKind::Output(Output::new(1))
    } else if str_eq(comp_name, "Register") {
        CompKind::Register(Register::new(1))
    } else if str_eq(comp_name, "Mux") {
        CompKind::Mux(Mux::new(1, 1))
    } else if str_eq(comp_name, "Demux") {
        CompKind::Demux(Demux::new(1, 1))
    } else if str_eq(comp_name, "Splitter") {
        let mut mapping: Vec<usize> = Vec::new();
        mapping.push(0);
        mapping.push(1);
        proof {
            assert(mapping@ =~= seq![0usize, 1usize]);
        }
        CompKind::Splitter(Splitter::new(2, 2, mapping))
    } else if str_eq(comp_name, "Tunnel") {
        CompKind::Tunnel(Tunnel::new(TunnelKind::Sender, String::new(), 1))
    } else {
        return None;
    };
    Some(Component::new(kind))
}

/// The bit-width of the sequence of low bits is the requested width.
pub proof fn lemma_bits_of_uint_len(v: nat, w: nat)
    ensures
        bits_of_uint(v, w).len() == w,
    decreases w,
{
    if w > 0 {
        lemma_bits_of_uint_len(v / 2, (w - 1) as nat);
    }
}

/// Two to a small power, as a machine integer.
fn pow2_small(e: u8) -> (r: usize)
    requires
        e <= 16,
    ensures
        r as nat == pow2(e as nat),
        r >= 1,
{
    proof {
        lemma2_to64();
        if (e as nat) < 16 {
            lemma_pow2_strictly_increases(e as nat, 16);
        }
    }
    let mut r: usize = 1;
    let mut k: u8 = 0;
    while k < e
        invariant
            k <= e,
            e <= 16,
            r as nat == pow2(k as nat),
            pow2(e as nat) <= 0x10000,
        decreases e - k,
    {
        proof {
            vstd::arithmetic::power2::lemma_pow2_unfold(k as nat + 1);
            if ((k + 1) as nat) < e as nat {
                lemma_pow2_strictly_increases(k as nat + 1, e as nat);
            }
        }
        r = r * 2;
        k += 1;
    }
    r
}

} // verus!
