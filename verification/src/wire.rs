//! Multi-channel wires and the gates of the wiring diagram.

use vstd::prelude::*;
use crate::entities::EntityKey;

verus! {

/// A key into the wiring diagram's wire table.
pub type WireKey = usize;

pub type WireData = u32;

/// A bundle of boolean channels carried as one word.
#[derive(Clone, Copy, PartialEq, Eq, Structural, Debug)]
pub struct Wire {
    pub data: WireData,
}

impl Wire {
    pub fn default() -> (r: Wire)
        ensures
            r.data == 0,
    {
        Wire { data: 0 }
    }

    /// Set or clear one channel bit.
    pub fn set_channel(&mut self, channel: u8, value: bool)
        requires
            channel < 32,
        ensures
            value ==> final(self).data == old(self).data | (1u32 << channel),
            !value ==> final(self).data == old(self).data & !(1u32 << channel),
    {
        let mask: u32 = 1u32 << channel;
        if value {
            self.data = self.data | mask;
        } else {
            self.data = self.data & !mask;
        }
    }
}

/// A gate of the wiring diagram, with the wires it reads and drives.
#[derive(Clone, PartialEq, Eq, Debug)]
pub enum WireGate {
    And { inputs: Vec<WireKey>, output: WireKey },
    Or { inputs: Vec<WireKey>, output: WireKey },
    Not { input: WireKey, output: WireKey },
    Split { input: WireKey, outputs: Vec<WireKey> },
}

impl WireGate {
    pub open spec fn spec_inputs(self) -> Seq<WireKey> {
        match self {
            WireGate::And { inputs, .. } => inputs@,
            WireGate::Or { inputs, .. } => inputs@,
            WireGate::Not { input, .. } => seq![input],
            WireGate::Split { input, .. } => seq![input],
        }
    }

    pub open spec fn spec_outputs(self) -> Seq<WireKey> {
        match self {
            WireGate::And { output, .. } => seq![output],
            WireGate::Or { output, .. } => seq![output],
            WireGate::Not { output, .. } => seq![output],
            WireGate::Split { outputs, .. } => outputs@,
        }
    }

    /// The wires this gate reads.
    pub fn inputs(&self) -> (r: Vec<WireKey>)
        ensures
            r@ == self.spec_inputs(),
    {
        match self {
            WireGate::And { inputs, .. } => inputs.clone(),
            WireGate::Or { inputs, .. } => inputs.clone(),
            WireGate::Not { input, .. } => {
                let mut v: Vec<WireKey> = Vec::new();
                v.push(*input);
                proof {
                    assert(v@ =~= seq![*input]);
                }
                v
            },
            WireGate::Split { input, .. } => {
                let mut v: Vec<WireKey> = Vec::new();
                v.push(*input);
                proof {
                    assert(v@ =~= seq![*input]);
                }
                v
            },
        }
    }

    /// The wires this gate drives.
    pub fn outputs(&self) -> (r: Vec<WireKey>)
        ensures
            r@ == self.spec_outputs(),
    {
        match self {
            WireGate::And { output, .. } => {
                let mut v: Vec<WireKey> = Vec::new();
                v.push(*output);
                proof {
                    assert(v@ =~= seq![*output]);
                }
                v
            },
            WireGate::Or { output, .. } => {
                let mut v: Vec<WireKey> = Vec::new();
                v.push(*output);
                proof {
                    assert(v@ =~= seq![*output]);
                }
                v
            },
            WireGate::Not { output, .. } => {
                let mut v: Vec<WireKey> = Vec::new();
                v.push(*output);
                proof {
                    assert(v@ =~= seq![*output]);
                }
                v
            },
            WireGate::Split { outputs, .. } => outputs.clone(),
        }
    }
}

} // verus!
