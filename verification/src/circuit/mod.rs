use vstd::prelude::*;

pub mod mux;

verus! {

/// Identifier of an entity of the simulation: its position in the columns
/// of components below.
pub type Entity = usize;

/// The value carried by a wire: one bit per line of a bus.
pub type Data = u64;

/// Number of bits of a `Data`: a pin index must stay below it.
pub const DATA_BITS: usize = 64;

/// The colour channel a wire is drawn on.
pub type Channel = u8;

/// Number of colour channels a wire can use.
pub const NB_CHANNELS: usize = 8;

/// Position of a pin on the bus of its component.
#[derive(Clone, Copy, Debug, PartialEq, Eq, Structural)]
pub struct PinIndex(pub usize);

/// Value of a wire during the previous tick.
#[derive(Clone, Copy, Debug, PartialEq, Eq, Structural)]
pub struct DataPrevious(pub Data);

/// Value of a wire being computed for the next tick.
#[derive(Clone, Copy, Debug, PartialEq, Eq, Structural)]
pub struct DataNext(pub Data);

/// Wires a component reads.
#[derive(Clone, Debug)]
pub struct Inputs(pub Vec<Entity>);

/// Wires a component drives.
#[derive(Clone, Debug)]
pub struct Outputs(pub Vec<Entity>);

/// The component that entity `id` holds in `column`, if it holds one.
/// A column has one slot per entity; entities past its end hold none.
pub open spec fn component<C>(column: Seq<Option<C>>, id: Entity) -> Option<C> {
    if id < column.len() {
        column[id as int]
    } else {
        None
    }
}

/// Reads the component of entity `id` in `column`.
pub fn get_component<C: Copy>(column: &Vec<Option<C>>, id: Entity) -> (r: Option<C>)
    ensures
        r == component(column@, id),
{
    if id < column.len() {
        column[id]
    } else {
        None
    }
}

pub proof fn lemma_or_laws(a: u64, b: u64, c: u64)
    by (bit_vector)
    ensures
        (a | b) | c == a | (b | c),
        a | b == b | a,
        (a | b) | b == a | b,
        a | 0 == a,
        0 | a == a,
{
}

} // verus!
