use voxcircuit::circuit::mux::{sys_tick_demux, sys_tick_mux, Demux};
use voxcircuit::circuit::{DataNext, DataPrevious, Inputs, Outputs, PinIndex};

fn idx(v: &[Option<usize>]) -> Vec<Option<PinIndex>> {
    v.iter().map(|o| o.map(PinIndex)).collect()
}

fn prev(v: &[Option<u64>]) -> Vec<Option<DataPrevious>> {
    v.iter().map(|o| o.map(DataPrevious)).collect()
}

fn next(v: &[Option<u64>]) -> Vec<Option<DataNext>> {
    v.iter().map(|o| o.map(DataNext)).collect()
}

// entities 0..3 are the inputs of the multiplexer, 4 and 5 its outputs
fn mux_world() -> (Vec<(Inputs, Outputs)>, Vec<Option<PinIndex>>, Vec<Option<DataPrevious>>) {
    let comps = vec![(Inputs(vec![0, 1, 2, 3, 9]), Outputs(vec![4, 5, 9]))];
    let index = idx(&[Some(0), Some(1), Some(2), None, None, None]);
    let previous = prev(&[Some(5), Some(0), Some(1), Some(1), None, None]);
    (comps, index, previous)
}

#[test]
fn mux_packs_inputs_into_bits() {
    let (comps, index, previous) = mux_world();
    let mut n = next(&[Some(0), None, Some(0), None, Some(0), Some(0b1000)]);
    sys_tick_mux(&comps, &index, &previous, &mut n);
    // pin 0 is set (5 != 0), pin 1 is clear, pin 2 is set, entity 3 has no index
    assert_eq!(n, next(&[Some(0), None, Some(0), None, Some(0b101), Some(0b1101)]));
}

#[test]
fn mux_tick_is_idempotent() {
    let (comps, index, previous) = mux_world();
    let mut once = next(&[Some(0), None, Some(0), None, Some(0), Some(0)]);
    sys_tick_mux(&comps, &index, &previous, &mut once);
    let mut twice = once.clone();
    sys_tick_mux(&comps, &index, &previous, &mut twice);
    assert_eq!(once, twice);
}

#[test]
fn mux_order_does_not_matter() {
    let index = idx(&[Some(0), Some(3), None, None]);
    let previous = prev(&[Some(1), Some(2), None, None]);
    let a = (Inputs(vec![0]), Outputs(vec![2, 3]));
    let b = (Inputs(vec![1]), Outputs(vec![2]));
    let mut n1 = next(&[None, None, Some(0x10), Some(0)]);
    let mut n2 = n1.clone();
    sys_tick_mux(&vec![a.clone(), b.clone()], &index, &previous, &mut n1);
    sys_tick_mux(&vec![b, a], &index, &previous, &mut n2);
    assert_eq!(n1, n2);
    assert_eq!(n1, next(&[None, None, Some(0x19), Some(0x1)]));
}

#[test]
fn demux_emits_where_the_bit_is_set() {
    // input 0 carries 0b0101; outputs 1..4 are pins 0..3
    let comps = vec![(Demux(0x40), Inputs(vec![0, 7]), Outputs(vec![1, 2, 3, 4, 5]))];
    let index = idx(&[None, Some(0), Some(1), Some(2), Some(3), None]);
    let previous = prev(&[Some(0b0101), None, None, None, None, None]);
    let mut n = next(&[None, Some(1), Some(1), Some(1), Some(1), Some(1)]);
    sys_tick_demux(&comps, &index, &previous, &mut n);
    assert_eq!(n, next(&[None, Some(0x41), Some(1), Some(0x41), Some(1), Some(1)]));
}

#[test]
fn demux_reads_all_inputs_and_is_order_free() {
    let index = idx(&[None, None, Some(0), Some(1)]);
    let previous = prev(&[Some(0b01), Some(0b10), None, None]);
    let a = (Demux(1), Inputs(vec![0, 1]), Outputs(vec![2, 3]));
    let b = (Demux(4), Inputs(vec![1]), Outputs(vec![2, 3]));
    let mut n1 = next(&[None, None, Some(0), Some(0)]);
    let mut n2 = n1.clone();
    sys_tick_demux(&vec![a.clone(), b.clone()], &index, &previous, &mut n1);
    sys_tick_demux(&vec![b.clone(), a.clone()], &index, &previous, &mut n2);
    assert_eq!(n1, n2);
    // a reads 0b11: emits on pins 0 and 1; b reads 0b10: emits on pin 1 only
    assert_eq!(n1, next(&[None, None, Some(1), Some(5)]));
    let mut n3 = n1.clone();
    sys_tick_demux(&vec![a, b], &index, &previous, &mut n3);
    assert_eq!(n3, n1);
}

#[test]
fn demux_splits_what_mux_packs() {
    // entities 0..3: mux inputs on pins 0..3; 4: the bus; 5..8: demux outputs on pins 0..3
    let index = idx(&[Some(0), Some(1), Some(2), Some(3), None, Some(0), Some(1), Some(2), Some(3)]);
    let previous = prev(&[Some(1), Some(0), Some(9), Some(0), None, None, None, None, None]);
    let mux = vec![(Inputs(vec![0, 1, 2, 3]), Outputs(vec![4]))];
    let mut n = next(&[None, None, None, None, Some(0), Some(0), Some(0), Some(0), Some(0)]);
    sys_tick_mux(&mux, &index, &previous, &mut n);
    let packed = n[4].unwrap().0;
    assert_eq!(packed, 0b0101);
    let previous = prev(&[None, None, None, None, Some(packed), None, None, None, None]);
    let demux = vec![(Demux(1), Inputs(vec![4]), Outputs(vec![5, 6, 7, 8]))];
    let mut out = next(&[None, None, None, None, None, Some(0), Some(0), Some(0), Some(0)]);
    sys_tick_demux(&demux, &index, &previous, &mut out);
    assert_eq!(out, next(&[None, None, None, None, None, Some(1), Some(0), Some(1), Some(0)]));
}
