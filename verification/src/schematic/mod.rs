//! Description of a circuit as it is saved on disk: wires, components and
//! the models that draw them.
use vstd::prelude::*;
use crate::circuit::{Channel, Data};

pub mod schema;

verus! {

/// Index of a model in the list of models of a schema.
pub type CompIndex = u32;

/// Index of a wire in the list of wires of a schema.
pub type WireIndex = u32;

/// How an element of a schema is drawn: the model it uses.
#[derive(Clone, Copy, Debug, PartialEq, Eq, Structural)]
pub struct ModelAttr {
    pub index: CompIndex,
}

/// A wire of a schema, drawn on a colour channel.
#[derive(Clone, Copy, Debug, PartialEq, Eq, Structural)]
pub struct CompWire {
    pub channel: Channel,
    pub model_attr: ModelAttr,
}

/// Logic operation of a gate.
#[derive(Clone, Copy, Debug, PartialEq, Eq, Structural)]
pub enum GateOp {
    And,
    Or,
    Xor,
    Not,
}

/// What an element of a schema computes.
#[derive(Clone, Copy, Debug, PartialEq, Eq, Structural)]
pub enum CompType {
    Constant(Data),
    Gate(GateOp),
    Mux,
    Demux(Data),
    Bus,
    Keyboard,
}

/// An element of a schema, connected to wires by their indices.
#[derive(Clone, Debug)]
pub struct CompData {
    pub model_attr: ModelAttr,
    pub comp_type: CompType,
    pub pins_in: Vec<WireIndex>,
    pub pins_out: Vec<WireIndex>,
}

/// A model that elements and wires are drawn with.
#[derive(Clone, Debug)]
pub struct ModelData {
    pub path: String,
}

} // verus!
