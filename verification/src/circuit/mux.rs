//! multiplexer and demultiplexer
//!
//! A tick reads the previous value of every wire and ORs what each component
//! emits into the next value of the wires it drives. The entities of the
//! simulation are stored as columns of components (`index`, `previous`,
//! `next`), one slot per entity.
use vstd::prelude::*;
use crate::circuit::{
    component, get_component, lemma_or_laws, Data, DataNext, DataPrevious, Entity, Inputs, Outputs,
    PinIndex, DATA_BITS,
};

verus! {

// multiplexer
#[derive(Clone, Copy, Debug)]
pub struct Mux;

// demultiplexer with output value to emit on each wire
#[derive(Clone, Copy, Debug)]
pub struct Demux(pub Data);

// ---------------------------------------------------------------------------
// multiplexer

/// The bit that input wire `id` contributes to a multiplexer: its previous
/// value read as a boolean, at the position of its pin. A wire without a pin
/// index or without a previous value contributes nothing.
pub open spec fn mux_bit(
    index: Seq<Option<PinIndex>>,
    previous: Seq<Option<DataPrevious>>,
    id: Entity,
) -> Data {
    match (component(index, id), component(previous, id)) {
        (Some(i), Some(p)) => (if p.0 != 0 { 1u64 } else { 0u64 }) << i.0,
        _ => 0,
    }
}

/// Value a multiplexer reads on its input wires `ids`.
pub open spec fn mux_value(
    index: Seq<Option<PinIndex>>,
    previous: Seq<Option<DataPrevious>>,
    ids: Seq<Entity>,
) -> Data
    decreases ids.len(),
{
    if ids.len() == 0 {
        0
    } else {
        mux_value(index, previous, ids.drop_last()) | mux_bit(index, previous, ids.last())
    }
}

/// What the multiplexers `comps` together OR into wire `p`.
pub open spec fn mux_output(
    comps: Seq<(Inputs, Outputs)>,
    index: Seq<Option<PinIndex>>,
    previous: Seq<Option<DataPrevious>>,
    p: Entity,
) -> Data
    decreases comps.len(),
{
    if comps.len() == 0 {
        0
    } else {
        let last = comps.last();
        mux_output(comps.drop_last(), index, previous, p) | (if last.1.0@.contains(p) {
            mux_value(index, previous, last.0.0@)
        } else {
            0
        })
    }
}

/// The next values of the wires after a multiplexer tick on `next`.
pub open spec fn mux_tick(
    comps: Seq<(Inputs, Outputs)>,
    index: Seq<Option<PinIndex>>,
    previous: Seq<Option<DataPrevious>>,
    next: Seq<Option<DataNext>>,
) -> Seq<Option<DataNext>> {
    Seq::new(
        next.len(),
        |p: int|
            match next[p] {
                Some(v) => Some(DataNext(v.0 | mux_output(comps, index, previous, p as Entity))),
                None => None,
            },
    )
}

/// Every input pin that a multiplexer reads lies on the bus: its index is
/// below the width of `Data`.
pub open spec fn mux_pins_on_bus(
    comps: Seq<(Inputs, Outputs)>,
    index: Seq<Option<PinIndex>>,
    previous: Seq<Option<DataPrevious>>,
) -> bool {
    forall|c: int, k: int|
        0 <= c < comps.len() && 0 <= k < comps[c].0.0@.len() ==> {
            let id = #[trigger] comps[c].0.0@[k];
            (component(index, id) is Some && component(previous, id) is Some) ==> component(
                index,
                id,
            ).unwrap().0 < DATA_BITS
        }
}

/// The wires of `next` after ORing `data` into those of `outputs` that
/// hold a next value.
pub open spec fn or_into(
    outputs: Seq<Entity>,
    data: Data,
    next: Seq<Option<DataNext>>,
) -> Seq<Option<DataNext>> {
    Seq::new(
        next.len(),
        |p: int|
            match next[p] {
                Some(v) => Some(DataNext(if outputs.contains(p as Entity) { v.0 | data } else { v.0 })),
                None => None,
            },
    )
}

/// Value the multiplexer reading `pins` computes.
fn mux_read(
    pins: &Inputs,
    index: &Vec<Option<PinIndex>>,
    previous: &Vec<Option<DataPrevious>>,
) -> (data: Data)
    requires
        forall|k: int|
            0 <= k < pins.0@.len() ==> {
                let id = #[trigger] pins.0@[k];
                (component(index@, id) is Some && component(previous@, id) is Some)
                    ==> component(index@, id).unwrap().0 < DATA_BITS
            },
    ensures
        data == mux_value(index@, previous@, pins.0@),
{
    let mut data: Data = 0;
    let mut k: usize = 0;
    while k < pins.0.len()
        invariant
            k <= pins.0@.len(),
            data == mux_value(index@, previous@, pins.0@.take(k as int)),
            forall|j: int|
                0 <= j < pins.0@.len() ==> {
                    let id = #[trigger] pins.0@[j];
                    (component(index@, id) is Some && component(previous@, id) is Some)
                        ==> component(index@, id).unwrap().0 < DATA_BITS
                },
        decreases pins.0@.len() - k,
    {
        let id = pins.0[k];
        proof {
            assert(pins.0@.take(k + 1).drop_last() =~= pins.0@.take(k as int));
            assert(pins.0@.take(k + 1).last() == id);
        }
        match (get_component(index, id), get_component(previous, id)) {
            (Some(i), Some(pin)) => {
                let bit: Data = if pin.0 != 0 { 1 } else { 0 };
                data = data | (bit << i.0);
            },
            _ => {
                proof {
                    lemma_or_laws(data, 0, 0);
                }
            },
        }
        k = k + 1;
    }
    proof {
        assert(pins.0@.take(pins.0@.len() as int) =~= pins.0@);
    }
    data
}

/// ORs `data` into the next value of each wire of `outputs` that has one.
fn emit_all(outputs: &Outputs, data: Data, next: &mut Vec<Option<DataNext>>)
    ensures
        final(next)@ == or_into(outputs.0@, data, old(next)@),
{
    let ghost start = next@;
    let mut k: usize = 0;
    while k < outputs.0.len()
        invariant
            k <= outputs.0@.len(),
            next@ == or_into(outputs.0@.take(k as int), data, start),
        decreases outputs.0@.len() - k,
    {
        let id = outputs.0[k];
        let ghost before = next@;
        if id < next.len() {
            match next[id] {
                Some(v) => {
                    next.set(id, Some(DataNext(v.0 | data)));
                },
                None => {},
            }
        }
        proof {
            let done = outputs.0@.take(k as int);
            let now = outputs.0@.take(k + 1);
            assert(now =~= done.push(id));
            assert forall|p: int| 0 <= p < start.len() implies #[trigger] next@[p] == or_into(
                now,
                data,
                start,
            )[p] by {
                vstd::seq_lib::lemma_seq_contains_after_push(done, id, p as Entity);
                if let Some(v) = start[p] {
                    lemma_or_laws(v.0, data, 0);
                }
            }
            assert(next@ =~= or_into(now, data, start));
        }
        k = k + 1;
    }
    proof {
        assert(outputs.0@.take(outputs.0@.len() as int) =~= outputs.0@);
    }
}

// combine multiple input values as boolean into a single wire
pub fn sys_tick_mux(
    comps: &Vec<(Inputs, Outputs)>,
    index: &Vec<Option<PinIndex>>,
    previous: &Vec<Option<DataPrevious>>,
    next: &mut Vec<Option<DataNext>>,
)
    requires
        mux_pins_on_bus(comps@, index@, previous@),
    ensures
        final(next)@ == mux_tick(comps@, index@, previous@, old(next)@),
{
    let ghost start = next@;
    proof {
        assert forall|p: int| 0 <= p < start.len() implies #[trigger] start[p] == mux_tick(
            comps@.take(0),
            index@,
            previous@,
            start,
        )[p] by {
            if let Some(v) = start[p] {
                lemma_or_laws(v.0, 0, 0);
            }
        }
        assert(start =~= mux_tick(comps@.take(0), index@, previous@, start));
    }
    let mut c: usize = 0;
    while c < comps.len()
        invariant
            c <= comps@.len(),
            mux_pins_on_bus(comps@, index@, previous@),
            next@ == mux_tick(comps@.take(c as int), index@, previous@, start),
        decreases comps@.len() - c,
    {
        let (pins_in, pins_out) = &comps[c];
        // find the values of input wires
        let data = mux_read(pins_in, index, previous);
        let ghost before = next@;
        // apply the value to all output wires
        emit_all(pins_out, data, next);
        proof {
            let done = comps@.take(c as int);
            let now = comps@.take(c + 1);
            assert(now.drop_last() =~= done);
            assert forall|p: int| 0 <= p < start.len() implies #[trigger] next@[p] == mux_tick(
                now,
                index@,
                previous@,
                start,
            )[p] by {
                assert(now.last() == comps@[c as int]);
                let prior = mux_output(done, index@, previous@, p as Entity);
                if let Some(v) = start[p] {
                    assert(before[p] == Some(DataNext(v.0 | prior)));
                    lemma_or_laws(v.0, prior, data);
                    lemma_or_laws(v.0, prior, 0);
                    lemma_or_laws(v.0 | prior, 0, 0);
                }
            }
            assert(next@ =~= mux_tick(now, index@, previous@, start));
        }
        c = c + 1;
    }
    proof {
        assert(comps@.take(comps@.len() as int) =~= comps@);
    }
}

// ---------------------------------------------------------------------------
// demultiplexer

/// Value a demultiplexer reads on its input wires `ids`: their previous
/// values ORed together (a wire without a previous value adds nothing).
pub open spec fn demux_value(previous: Seq<Option<DataPrevious>>, ids: Seq<Entity>) -> Data
    decreases ids.len(),
{
    if ids.len() == 0 {
        0
    } else {
        demux_value(previous, ids.drop_last()) | match component(previous, ids.last()) {
            Some(p) => p.0,
            None => 0,
        }
    }
}

/// A demultiplexer that reads `data` emits on its output pin `i` when bit
/// `i` of `data` is set: the input value is split into one boolean per pin.
pub open spec fn demux_emits(data: Data, i: usize) -> bool {
    ((data >> i) & 1) == 1
}

/// What the demultiplexers `comps` together OR into wire `p`, whose pin
/// index is `i`.
pub open spec fn demux_output(
    comps: Seq<(Demux, Inputs, Outputs)>,
    previous: Seq<Option<DataPrevious>>,
    p: Entity,
    i: usize,
) -> Data
    decreases comps.len(),
{
    if comps.len() == 0 {
        0
    } else {
        let last = comps.last();
        demux_output(comps.drop_last(), previous, p, i) | (if last.2.0@.contains(p) && demux_emits(
            demux_value(previous, last.1.0@),
            i,
        ) {
            last.0.0
        } else {
            0
        })
    }
}

/// The next values of the wires after a demultiplexer tick on `next`. Only
/// wires with a pin index receive anything.
pub open spec fn demux_tick(
    comps: Seq<(Demux, Inputs, Outputs)>,
    index: Seq<Option<PinIndex>>,
    previous: Seq<Option<DataPrevious>>,
    next: Seq<Option<DataNext>>,
) -> Seq<Option<DataNext>> {
    Seq::new(
        next.len(),
        |p: int|
            match (next[p], component(index, p as Entity)) {
                (Some(v), Some(i)) => Some(
                    DataNext(v.0 | demux_output(comps, previous, p as Entity, i.0)),
                ),
                _ => next[p],
            },
    )
}

/// Every output pin that a demultiplexer drives lies on the bus.
pub open spec fn demux_pins_on_bus(
    comps: Seq<(Demux, Inputs, Outputs)>,
    index: Seq<Option<PinIndex>>,
    next: Seq<Option<DataNext>>,
) -> bool {
    forall|c: int, k: int|
        0 <= c < comps.len() && 0 <= k < comps[c].2.0@.len() ==> {
            let id = #[trigger] comps[c].2.0@[k];
            (component(index, id) is Some && component(next, id) is Some) ==> component(
                index,
                id,
            ).unwrap().0 < DATA_BITS
        }
}

/// The wires of `next` after a demultiplexer reading `data` emitted `value`
/// on those of `outputs` that hold a pin index and a next value.
pub open spec fn emit_where_set(
    outputs: Seq<Entity>,
    data: Data,
    value: Data,
    index: Seq<Option<PinIndex>>,
    next: Seq<Option<DataNext>>,
) -> Seq<Option<DataNext>> {
    Seq::new(
        next.len(),
        |p: int|
            match (next[p], component(index, p as Entity)) {
                (Some(v), Some(i)) => Some(
                    DataNext(
                        if outputs.contains(p as Entity) && demux_emits(data, i.0) {
                            v.0 | value
                        } else {
                            v.0
                        },
                    ),
                ),
                _ => next[p],
            },
    )
}

/// Value the demultiplexer reading `pins` computes.
fn demux_read(pins: &Inputs, previous: &Vec<Option<DataPrevious>>) -> (data: Data)
    ensures
        data == demux_value(previous@, pins.0@),
{
    let mut data: Data = 0;
    let mut k: usize = 0;
    while k < pins.0.len()
        invariant
            k <= pins.0@.len(),
            data == demux_value(previous@, pins.0@.take(k as int)),
        decreases pins.0@.len() - k,
    {
        let id = pins.0[k];
        proof {
            assert(pins.0@.take(k + 1).drop_last() =~= pins.0@.take(k as int));
            assert(pins.0@.take(k + 1).last() == id);
        }
        match get_component(previous, id) {
            Some(pin) => {
                data = data | pin.0;
            },
            None => {
                proof {
                    lemma_or_laws(data, 0, 0);
                }
            },
        }
        k = k + 1;
    }
    proof {
        assert(pins.0@.take(pins.0@.len() as int) =~= pins.0@);
    }
    data
}

/// Emits `value` on each wire of `outputs` whose pin bit is set in `data`.
fn emit_set(
    outputs: &Outputs,
    data: Data,
    value: Data,
    index: &Vec<Option<PinIndex>>,
    next: &mut Vec<Option<DataNext>>,
)
    requires
        forall|k: int|
            0 <= k < outputs.0@.len() ==> {
                let id = #[trigger] outputs.0@[k];
                (component(index@, id) is Some && component(old(next)@, id) is Some)
                    ==> component(index@, id).unwrap().0 < DATA_BITS
            },
    ensures
        final(next)@ == emit_where_set(outputs.0@, data, value, index@, old(next)@),
{
    let ghost start = next@;
    let mut k: usize = 0;
    while k < outputs.0.len()
        invariant
            k <= outputs.0@.len(),
            next@ == emit_where_set(outputs.0@.take(k as int), data, value, index@, start),
            forall|j: int|
                0 <= j < outputs.0@.len() ==> {
                    let id = #[trigger] outputs.0@[j];
                    (component(index@, id) is Some && component(start, id) is Some)
                        ==> component(index@, id).unwrap().0 < DATA_BITS
                },
        decreases outputs.0@.len() - k,
    {
        let id = outputs.0[k];
        let ghost before = next@;
        if id < next.len() {
            match (get_component(index, id), next[id]) {
                (Some(i), Some(v)) => {
                    if ((data >> i.0) & 1) == 1 {
                        next.set(id, Some(DataNext(v.0 | value)));
                    }
                },
                _ => {},
            }
        }
        proof {
            let done = outputs.0@.take(k as int);
            let now = outputs.0@.take(k + 1);
            assert(now =~= done.push(id));
            assert forall|p: int| 0 <= p < start.len() implies #[trigger] next@[p]
                == emit_where_set(now, data, value, index@, start)[p] by {
                vstd::seq_lib::lemma_seq_contains_after_push(done, id, p as Entity);
                if let Some(v) = start[p] {
                    lemma_or_laws(v.0, value, 0);
                }
            }
            assert(next@ =~= emit_where_set(now, data, value, index@, start));
        }
        k = k + 1;
    }
    proof {
        assert(outputs.0@.take(outputs.0@.len() as int) =~= outputs.0@);
    }
}

// split an input value into multiple boolean output
pub fn sys_tick_demux(
    comps: &Vec<(Demux, Inputs, Outputs)>,
    index: &Vec<Option<PinIndex>>,
    previous: &Vec<Option<DataPrevious>>,
    next: &mut Vec<Option<DataNext>>,
)
    requires
        demux_pins_on_bus(comps@, index@, old(next)@),
    ensures
        final(next)@ == demux_tick(comps@, index@, previous@, old(next)@),
{
    let ghost start = next@;
    proof {
        assert forall|p: int| 0 <= p < start.len() implies #[trigger] start[p] == demux_tick(
            comps@.take(0),
            index@,
            previous@,
            start,
        )[p] by {
            if let Some(v) = start[p] {
                lemma_or_laws(v.0, 0, 0);
            }
        }
        assert(start =~= demux_tick(comps@.take(0), index@, previous@, start));
    }
    let mut c: usize = 0;
    while c < comps.len()
        invariant
            c <= comps@.len(),
            demux_pins_on_bus(comps@, index@, start),
            next@ == demux_tick(comps@.take(c as int), index@, previous@, start),
        decreases comps@.len() - c,
    {
        let (output, pins_in, pins_out) = &comps[c];
        // find the values of input wires
        let data = demux_read(pins_in, previous);
        let ghost before = next@;
        proof {
            assert forall|k: int| 0 <= k < pins_out.0@.len() implies {
                let id = #[trigger] pins_out.0@[k];
                (component(index@, id) is Some && component(before, id) is Some)
                    ==> component(index@, id).unwrap().0 < DATA_BITS
            } by {
                let id = pins_out.0@[k];
                assert(comps@[c as int].2.0@[k] == id);
                if id < before.len() {
                    assert(before[id as int] is Some ==> start[id as int] is Some);
                }
            }
        }
        // apply the value to all output wires
        emit_set(pins_out, data, output.0, index, next);
        proof {
            let done = comps@.take(c as int);
            let now = comps@.take(c + 1);
            assert(now.drop_last() =~= done);
            assert forall|p: int| 0 <= p < start.len() implies #[trigger] next@[p] == demux_tick(
                now,
                index@,
                previous@,
                start,
            )[p] by {
                assert(now.last() == comps@[c as int]);
                if let (Some(v), Some(i)) = (start[p], component(index@, p as Entity)) {
                    let prior = demux_output(done, previous@, p as Entity, i.0);
                    assert(before[p] == Some(DataNext(v.0 | prior)));
                    lemma_or_laws(v.0, prior, output.0);
                    lemma_or_laws(v.0, prior, 0);
                    lemma_or_laws(v.0 | prior, 0, 0);
                }
            }
            assert(next@ =~= demux_tick(now, index@, previous@, start));
        }
        c = c + 1;
    }
    proof {
        assert(comps@.take(comps@.len() as int) =~= comps@);
    }
}

// ---------------------------------------------------------------------------
// laws of a tick

proof fn lemma_mux_output_concat(
    a: Seq<(Inputs, Outputs)>,
    b: Seq<(Inputs, Outputs)>,
    index: Seq<Option<PinIndex>>,
    previous: Seq<Option<DataPrevious>>,
    p: Entity,
)
    ensures
        mux_output(a + b, index, previous, p) == mux_output(a, index, previous, p) | mux_output(
            b,
            index,
            previous,
            p,
        ),
    decreases b.len(),
{
    if b.len() == 0 {
        assert(a + b =~= a);
        lemma_or_laws(mux_output(a, index, previous, p), 0, 0);
    } else {
        let last = b.last();
        assert((a + b).drop_last() =~= a + b.drop_last());
        assert((a + b).last() == last);
        lemma_mux_output_concat(a, b.drop_last(), index, previous, p);
        let t = if last.1.0@.contains(p) {
            mux_value(index, previous, last.0.0@)
        } else {
            0
        };
        lemma_or_laws(
            mux_output(a, index, previous, p),
            mux_output(b.drop_last(), index, previous, p),
            t,
        );
    }
}

/// A multiplexer tick over the components `a` followed by `b` gives the
/// wires the next values of a tick over `a`, then a tick over `b`.
pub proof fn mux_tick_concat(
    a: Seq<(Inputs, Outputs)>,
    b: Seq<(Inputs, Outputs)>,
    index: Seq<Option<PinIndex>>,
    previous: Seq<Option<DataPrevious>>,
    next: Seq<Option<DataNext>>,
)
    ensures
        mux_tick(a + b, index, previous, next) == mux_tick(
            b,
            index,
            previous,
            mux_tick(a, index, previous, next),
        ),
{
    let lhs = mux_tick(a + b, index, previous, next);
    let rhs = mux_tick(b, index, previous, mux_tick(a, index, previous, next));
    assert forall|p: int| 0 <= p < next.len() implies #[trigger] lhs[p] == rhs[p] by {
        lemma_mux_output_concat(a, b, index, previous, p as Entity);
        if let Some(v) = next[p] {
            lemma_or_laws(
                v.0,
                mux_output(a, index, previous, p as Entity),
                mux_output(b, index, previous, p as Entity),
            );
        }
    }
    assert(lhs =~= rhs);
}

/// The order in which multiplexers tick does not matter: ticking `a` then
/// `b` gives the same next values as ticking `b` then `a`.
pub proof fn mux_tick_commutes(
    a: Seq<(Inputs, Outputs)>,
    b: Seq<(Inputs, Outputs)>,
    index: Seq<Option<PinIndex>>,
    previous: Seq<Option<DataPrevious>>,
    next: Seq<Option<DataNext>>,
)
    ensures
        mux_tick(b, index, previous, mux_tick(a, index, previous, next)) == mux_tick(
            a,
            index,
            previous,
            mux_tick(b, index, previous, next),
        ),
{
    let lhs = mux_tick(b, index, previous, mux_tick(a, index, previous, next));
    let rhs = mux_tick(a, index, previous, mux_tick(b, index, previous, next));
    assert forall|p: int| 0 <= p < next.len() implies #[trigger] lhs[p] == rhs[p] by {
        if let Some(v) = next[p] {
            let x = mux_output(a, index, previous, p as Entity);
            let y = mux_output(b, index, previous, p as Entity);
            lemma_or_laws(v.0, x, y);
            lemma_or_laws(v.0, y, x);
            lemma_or_laws(x, y, 0);
        }
    }
    assert(lhs =~= rhs);
}

/// A second multiplexer tick over the same previous values changes nothing.
pub proof fn mux_tick_idempotent(
    comps: Seq<(Inputs, Outputs)>,
    index: Seq<Option<PinIndex>>,
    previous: Seq<Option<DataPrevious>>,
    next: Seq<Option<DataNext>>,
)
    ensures
        mux_tick(comps, index, previous, mux_tick(comps, index, previous, next)) == mux_tick(
            comps,
            index,
            previous,
            next,
        ),
{
    let once = mux_tick(comps, index, previous, next);
    let twice = mux_tick(comps, index, previous, once);
    assert forall|p: int| 0 <= p < next.len() implies #[trigger] twice[p] == once[p] by {
        if let Some(v) = next[p] {
            lemma_or_laws(v.0, mux_output(comps, index, previous, p as Entity), 0);
        }
    }
    assert(twice =~= once);
}

proof fn lemma_demux_output_concat(
    a: Seq<(Demux, Inputs, Outputs)>,
    b: Seq<(Demux, Inputs, Outputs)>,
    previous: Seq<Option<DataPrevious>>,
    p: Entity,
    i: usize,
)
    ensures
        demux_output(a + b, previous, p, i) == demux_output(a, previous, p, i) | demux_output(
            b,
            previous,
            p,
            i,
        ),
    decreases b.len(),
{
    if b.len() == 0 {
        assert(a + b =~= a);
        lemma_or_laws(demux_output(a, previous, p, i), 0, 0);
    } else {
        let last = b.last();
        assert((a + b).drop_last() =~= a + b.drop_last());
        assert((a + b).last() == last);
        lemma_demux_output_concat(a, b.drop_last(), previous, p, i);
        let t = if last.2.0@.contains(p) && demux_emits(demux_value(previous, last.1.0@), i) {
            last.0.0
        } else {
            0
        };
        lemma_or_laws(demux_output(a, previous, p, i), demux_output(b.drop_last(), previous, p, i), t);
    }
}

/// A demultiplexer tick over the components `a` followed by `b` gives the
/// wires the next values of a tick over `a`, then a tick over `b`.
pub proof fn demux_tick_concat(
    a: Seq<(Demux, Inputs, Outputs)>,
    b: Seq<(Demux, Inputs, Outputs)>,
    index: Seq<Option<PinIndex>>,
    previous: Seq<Option<DataPrevious>>,
    next: Seq<Option<DataNext>>,
)
    ensures
        demux_tick(a + b, index, previous, next) == demux_tick(
            b,
            index,
            previous,
            demux_tick(a, index, previous, next),
        ),
{
    let lhs = demux_tick(a + b, index, previous, next);
    let rhs = demux_tick(b, index, previous, demux_tick(a, index, previous, next));
    assert forall|p: int| 0 <= p < next.len() implies #[trigger] lhs[p] == rhs[p] by {
        if let (Some(v), Some(i)) = (next[p], component(index, p as Entity)) {
            lemma_demux_output_concat(a, b, previous, p as Entity, i.0);
            lemma_or_laws(
                v.0,
                demux_output(a, previous, p as Entity, i.0),
                demux_output(b, previous, p as Entity, i.0),
            );
        }
    }
    assert(lhs =~= rhs);
}

/// The order in which demultiplexers tick does not matter.
pub proof fn demux_tick_commutes(
    a: Seq<(Demux, Inputs, Outputs)>,
    b: Seq<(Demux, Inputs, Outputs)>,
    index: Seq<Option<PinIndex>>,
    previous: Seq<Option<DataPrevious>>,
    next: Seq<Option<DataNext>>,
)
    ensures
        demux_tick(b, index, previous, demux_tick(a, index, previous, next)) == demux_tick(
            a,
            index,
            previous,
            demux_tick(b, index, previous, next),
        ),
{
    let lhs = demux_tick(b, index, previous, demux_tick(a, index, previous, next));
    let rhs = demux_tick(a, index, previous, demux_tick(b, index, previous, next));
    assert forall|p: int| 0 <= p < next.len() implies #[trigger] lhs[p] == rhs[p] by {
        if let (Some(v), Some(i)) = (next[p], component(index, p as Entity)) {
            let x = demux_output(a, previous, p as Entity, i.0);
            let y = demux_output(b, previous, p as Entity, i.0);
            lemma_or_laws(v.0, x, y);
            lemma_or_laws(v.0, y, x);
            lemma_or_laws(x, y, 0);
        }
    }
    assert(lhs =~= rhs);
}

/// A second demultiplexer tick over the same previous values changes nothing.
pub proof fn demux_tick_idempotent(
    comps: Seq<(Demux, Inputs, Outputs)>,
    index: Seq<Option<PinIndex>>,
    previous: Seq<Option<DataPrevious>>,
    next: Seq<Option<DataNext>>,
)
    ensures
        demux_tick(comps, index, previous, demux_tick(comps, index, previous, next)) == demux_tick(
            comps,
            index,
            previous,
            next,
        ),
{
    let once = demux_tick(comps, index, previous, next);
    let twice = demux_tick(comps, index, previous, once);
    assert forall|p: int| 0 <= p < next.len() implies #[trigger] twice[p] == once[p] by {
        if let (Some(v), Some(i)) = (next[p], component(index, p as Entity)) {
            lemma_or_laws(v.0, demux_output(comps, previous, p as Entity, i.0), 0);
        }
    }
    assert(twice =~= once);
}

// ---------------------------------------------------------------------------
// a demultiplexer splits what a multiplexer packs

/// Wire `id` sits on pin `i` and was on during the previous tick.
pub open spec fn wire_on(
    index: Seq<Option<PinIndex>>,
    previous: Seq<Option<DataPrevious>>,
    id: Entity,
    i: usize,
) -> bool {
    component(index, id) == Some(PinIndex(i)) && match component(previous, id) {
        Some(p) => p.0 != 0,
        None => false,
    }
}

/// Some input wire of `ids` sits on pin `i` and was on during the previous tick.
pub open spec fn pin_on(
    index: Seq<Option<PinIndex>>,
    previous: Seq<Option<DataPrevious>>,
    ids: Seq<Entity>,
    i: usize,
) -> bool {
    exists|k: int| 0 <= k < ids.len() && #[trigger] wire_on(index, previous, ids[k], i)
}

proof fn lemma_bit_of_or(a: u64, b: u64, i: usize)
    by (bit_vector)
    requires
        i < 64,
    ensures
        (((a | b) >> i) & 1 == 1) == (((a >> i) & 1 == 1) || ((b >> i) & 1 == 1)),
{
}

proof fn lemma_bit_of_single(bit: u64, j: usize, i: usize)
    by (bit_vector)
    requires
        i < 64,
        j < 64,
        bit <= 1,
    ensures
        (((bit << j) >> i) & 1 == 1) == (bit == 1 && j == i),
        ((0u64 >> i) & 1 == 1) == false,
{
}

/// A demultiplexer that reads the value a multiplexer packed from the wires
/// `ids` emits on its pin `i` exactly when the multiplexer's input wire at
/// pin `i` was on: the demultiplexer splits what the multiplexer packs.
pub proof fn demux_splits_mux_value(
    index: Seq<Option<PinIndex>>,
    previous: Seq<Option<DataPrevious>>,
    ids: Seq<Entity>,
    i: usize,
)
    requires
        i < DATA_BITS,
        forall|k: int|
            0 <= k < ids.len() && (#[trigger] component(index, ids[k])) is Some ==> component(
                index,
                ids[k],
            ).unwrap().0 < DATA_BITS,
    ensures
        demux_emits(mux_value(index, previous, ids), i) == pin_on(index, previous, ids, i),
    decreases ids.len(),
{
    lemma_bit_of_single(0, 0, i);
    if ids.len() > 0 {
        let init = ids.drop_last();
        let id = ids.last();
        assert forall|k: int|
            0 <= k < init.len() && (#[trigger] component(index, init[k])) is Some implies component(
            index,
            init[k],
        ).unwrap().0 < DATA_BITS by {
            assert(init[k] == ids[k]);
        }
        demux_splits_mux_value(index, previous, init, i);
        let rest = mux_value(index, previous, init);
        let bit = mux_bit(index, previous, id);
        lemma_bit_of_or(rest, bit, i);
        let last_on = wire_on(index, previous, id, i);
        match (component(index, id), component(previous, id)) {
            (Some(j), Some(p)) => {
                assert(component(index, ids[ids.len() - 1]) is Some);
                lemma_bit_of_single(if p.0 != 0 { 1u64 } else { 0u64 }, j.0, i);
            },
            _ => {},
        }
        assert(demux_emits(bit, i) == last_on);
        if pin_on(index, previous, ids, i) {
            let k = choose|k: int| 0 <= k < ids.len() && #[trigger] wire_on(index, previous, ids[k], i);
            if k < ids.len() - 1 {
                assert(init[k] == ids[k]);
                assert(pin_on(index, previous, init, i));
            }
        }
        if pin_on(index, previous, init, i) {
            let k = choose|k: int| 0 <= k < init.len() && #[trigger] wire_on(index, previous, init[k], i);
            assert(init[k] == ids[k]);
            assert(pin_on(index, previous, ids, i));
        }
        if last_on {
            assert(ids[ids.len() - 1] == id);
            assert(pin_on(index, previous, ids, i));
        }
    }
}

// ---------------------------------------------------------------------------
// what a tick computes, bit by bit

/// Bit `j` of `x` is set.
pub open spec fn bit_set(x: Data, j: usize) -> bool {
    (x >> j) & 1 == 1
}

/// Input wire `id` has a previous value whose bit `j` is set.
pub open spec fn input_bit(previous: Seq<Option<DataPrevious>>, id: Entity, j: usize) -> bool {
    match component(previous, id) {
        Some(q) => (q.0 >> j) & 1 == 1,
        None => false,
    }
}

/// The value a demultiplexer reads has bit `j` set exactly when one of its
/// input wires has a previous value with bit `j` set: the inputs are ORed.
pub proof fn demux_value_bits(previous: Seq<Option<DataPrevious>>, ids: Seq<Entity>, j: usize)
    requires
        j < DATA_BITS,
    ensures
        ((demux_value(previous, ids) >> j) & 1 == 1) == exists|k: int|
            0 <= k < ids.len() && #[trigger] input_bit(previous, ids[k], j),
    decreases ids.len(),
{
    lemma_bit_of_single(0, 0, j);
    if ids.len() > 0 {
        let init = ids.drop_last();
        let id = ids.last();
        demux_value_bits(previous, init, j);
        let t = match component(previous, id) {
            Some(q) => q.0,
            None => 0u64,
        };
        lemma_bit_of_or(demux_value(previous, init), t, j);
        assert(((t >> j) & 1 == 1) == input_bit(previous, id, j));
        if exists|k: int| 0 <= k < ids.len() && #[trigger] input_bit(previous, ids[k], j) {
            let k = choose|k: int| 0 <= k < ids.len() && #[trigger] input_bit(previous, ids[k], j);
            if k < ids.len() - 1 {
                assert(init[k] == ids[k]);
                assert(input_bit(previous, init[k], j));
            }
        }
        if exists|k: int| 0 <= k < init.len() && #[trigger] input_bit(previous, init[k], j) {
            let k = choose|k: int| 0 <= k < init.len() && #[trigger] input_bit(previous, init[k], j);
            assert(init[k] == ids[k]);
            assert(input_bit(previous, ids[k], j));
        }
        if input_bit(previous, id, j) {
            assert(ids[ids.len() - 1] == id);
            assert(input_bit(previous, ids[ids.len() - 1], j));
        }
    }
}

/// The value a multiplexer packs has bit `j` set exactly when one of its
/// input wires sits on pin `j` and was on (non-zero) during the previous tick.
pub proof fn mux_value_bits(
    index: Seq<Option<PinIndex>>,
    previous: Seq<Option<DataPrevious>>,
    ids: Seq<Entity>,
    j: usize,
)
    requires
        j < DATA_BITS,
        forall|k: int|
            0 <= k < ids.len() && (#[trigger] component(index, ids[k])) is Some ==> component(
                index,
                ids[k],
            ).unwrap().0 < DATA_BITS,
    ensures
        ((mux_value(index, previous, ids) >> j) & 1 == 1) == exists|k: int|
            0 <= k < ids.len() && #[trigger] wire_on(index, previous, ids[k], j),
{
    demux_splits_mux_value(index, previous, ids, j);
}

/// Multiplexer `c` of `comps` drives wire `p` and packs a value with bit `j` set.
pub open spec fn mux_drives_bit(
    comps: Seq<(Inputs, Outputs)>,
    index: Seq<Option<PinIndex>>,
    previous: Seq<Option<DataPrevious>>,
    p: Entity,
    c: int,
    j: usize,
) -> bool {
    comps[c].1.0@.contains(p) && (mux_value(index, previous, comps[c].0.0@) >> j) & 1 == 1
}

proof fn lemma_mux_output_drivers(
    comps: Seq<(Inputs, Outputs)>,
    index: Seq<Option<PinIndex>>,
    previous: Seq<Option<DataPrevious>>,
    p: Entity,
)
    ensures
        forall|c: int|
            0 <= c < comps.len() && #[trigger] comps[c].1.0@.contains(p) ==> mux_output(
                comps,
                index,
                previous,
                p,
            ) | mux_value(index, previous, comps[c].0.0@) == mux_output(comps, index, previous, p),
        forall|j: usize|
            j < DATA_BITS && #[trigger] bit_set(mux_output(comps, index, previous, p), j)
                ==> exists|c: int|
                0 <= c < comps.len() && #[trigger] mux_drives_bit(comps, index, previous, p, c, j),
    decreases comps.len(),
{
    if comps.len() == 0 {
        assert forall|j: usize| j < DATA_BITS implies !#[trigger] bit_set(
            mux_output(comps, index, previous, p),
            j,
        ) by {
            lemma_bit_of_single(0, 0, j);
        }
    } else {
        let init = comps.drop_last();
        let last = comps.last();
        let n = comps.len() - 1;
        lemma_mux_output_drivers(init, index, previous, p);
        let prior = mux_output(init, index, previous, p);
        let t = if last.1.0@.contains(p) {
            mux_value(index, previous, last.0.0@)
        } else {
            0
        };
        let out = mux_output(comps, index, previous, p);
        assert(out == prior | t);
        assert forall|c: int| 0 <= c < comps.len() && #[trigger] comps[c].1.0@.contains(p) implies out
            | mux_value(index, previous, comps[c].0.0@) == out by {
            let mv = mux_value(index, previous, comps[c].0.0@);
            if c < n {
                assert(init[c] == comps[c]);
                lemma_or_laws(prior, t, mv);
                lemma_or_laws(t, mv, 0);
                lemma_or_laws(prior, mv, t);
                lemma_or_laws(mv, t, 0);
            } else {
                lemma_or_laws(prior, t, 0);
            }
        }
        assert forall|j: usize| j < DATA_BITS && #[trigger] bit_set(out, j) implies exists|c: int|
            0 <= c < comps.len() && #[trigger] mux_drives_bit(comps, index, previous, p, c, j) by {
            lemma_bit_of_or(prior, t, j);
            lemma_bit_of_single(0, 0, j);
            if bit_set(prior, j) {
                let c = choose|c: int|
                    0 <= c < init.len() && #[trigger] mux_drives_bit(init, index, previous, p, c, j);
                assert(init[c] == comps[c]);
                assert(mux_drives_bit(comps, index, previous, p, c, j));
            } else {
                assert(mux_drives_bit(comps, index, previous, p, n, j));
            }
        }
    }
}

/// A multiplexer tick leaves the wires without a next value as they are. A
/// wire `p` with a next value `v` ends with a value `w` that keeps every bit
/// of `v` and of the value packed by each multiplexer driving `p`, and whose
/// other bits are clear: each set bit of `w` is set in `v` or in the value
/// of some multiplexer that drives `p`. Whether `p` has a previous value or
/// a pin index plays no part.
pub proof fn mux_tick_output(
    comps: Seq<(Inputs, Outputs)>,
    index: Seq<Option<PinIndex>>,
    previous: Seq<Option<DataPrevious>>,
    next: Seq<Option<DataNext>>,
    p: Entity,
)
    requires
        p < next.len(),
    ensures
        mux_tick(comps, index, previous, next).len() == next.len(),
        next[p as int] is None ==> mux_tick(comps, index, previous, next)[p as int] is None,
        next[p as int] matches Some(v) ==> {
            let w = mux_tick(comps, index, previous, next)[p as int];
            &&& w is Some
            &&& w.unwrap().0 | v.0 == w.unwrap().0
            &&& forall|c: int|
                0 <= c < comps.len() && #[trigger] comps[c].1.0@.contains(p) ==> w.unwrap().0
                    | mux_value(index, previous, comps[c].0.0@) == w.unwrap().0
            &&& forall|j: usize|
                j < DATA_BITS && #[trigger] bit_set(w.unwrap().0, j) ==> bit_set(v.0, j) || exists|
                    c: int,
                |
                    0 <= c < comps.len() && #[trigger] mux_drives_bit(
                        comps,
                        index,
                        previous,
                        p,
                        c,
                        j,
                    )
        },
{
    lemma_mux_output_drivers(comps, index, previous, p);
    if let Some(v) = next[p as int] {
        let out = mux_output(comps, index, previous, p);
        let w = v.0 | out;
        assert(mux_tick(comps, index, previous, next)[p as int] == Some(DataNext(w)));
        lemma_or_laws(v.0, out, 0);
        lemma_or_laws(out, v.0, 0);
        lemma_or_laws(out, v.0, v.0);
        assert forall|c: int| 0 <= c < comps.len() && #[trigger] comps[c].1.0@.contains(p) implies w
            | mux_value(index, previous, comps[c].0.0@) == w by {
            lemma_or_laws(v.0, out, mux_value(index, previous, comps[c].0.0@));
        }
        assert forall|j: usize| j < DATA_BITS && #[trigger] bit_set(w, j) implies bit_set(v.0, j)
            || exists|c: int|
            0 <= c < comps.len() && #[trigger] mux_drives_bit(comps, index, previous, p, c, j) by {
            lemma_bit_of_or(v.0, out, j);
            assert(bit_set(w, j) == (bit_set(v.0, j) || bit_set(out, j)));
        }
    }
}

/// Demultiplexer `c` of `comps` drives wire `p`, whose pin is `i`, and
/// reads a value with bit `i` set.
pub open spec fn demux_drives(
    comps: Seq<(Demux, Inputs, Outputs)>,
    previous: Seq<Option<DataPrevious>>,
    p: Entity,
    i: usize,
    c: int,
) -> bool {
    comps[c].2.0@.contains(p) && (demux_value(previous, comps[c].1.0@) >> i) & 1 == 1
}

proof fn lemma_demux_output_drivers(
    comps: Seq<(Demux, Inputs, Outputs)>,
    previous: Seq<Option<DataPrevious>>,
    p: Entity,
    i: usize,
)
    ensures
        forall|c: int|
            0 <= c < comps.len() && #[trigger] demux_drives(comps, previous, p, i, c) ==> demux_output(
                comps,
                previous,
                p,
                i,
            ) | comps[c].0.0 == demux_output(comps, previous, p, i),
        forall|j: usize|
            j < DATA_BITS && #[trigger] bit_set(demux_output(comps, previous, p, i), j) ==> exists|
                c: int,
            |
                0 <= c < comps.len() && #[trigger] demux_drives(comps, previous, p, i, c) && bit_set(
                    comps[c].0.0,
                    j,
                ),
    decreases comps.len(),
{
    if comps.len() == 0 {
        assert forall|j: usize| j < DATA_BITS implies !#[trigger] bit_set(
            demux_output(comps, previous, p, i),
            j,
        ) by {
            lemma_bit_of_single(0, 0, j);
        }
    } else {
        let init = comps.drop_last();
        let last = comps.last();
        let n = comps.len() - 1;
        lemma_demux_output_drivers(init, previous, p, i);
        let prior = demux_output(init, previous, p, i);
        let t = if last.2.0@.contains(p) && demux_emits(demux_value(previous, last.1.0@), i) {
            last.0.0
        } else {
            0
        };
        let out = demux_output(comps, previous, p, i);
        assert(out == prior | t);
        assert forall|c: int| 0 <= c < comps.len() && #[trigger] demux_drives(comps, previous, p, i, c) implies out
            | comps[c].0.0 == out by {
            let d = comps[c].0.0;
            if c < n {
                assert(init[c] == comps[c]);
                assert(demux_drives(init, previous, p, i, c));
                lemma_or_laws(prior, t, d);
                lemma_or_laws(t, d, 0);
                lemma_or_laws(prior, d, t);
                lemma_or_laws(d, t, 0);
            } else {
                lemma_or_laws(prior, t, 0);
            }
        }
        assert forall|j: usize| j < DATA_BITS && #[trigger] bit_set(out, j) implies exists|c: int|
            0 <= c < comps.len() && #[trigger] demux_drives(comps, previous, p, i, c) && bit_set(
                comps[c].0.0,
                j,
            ) by {
            lemma_bit_of_or(prior, t, j);
            lemma_bit_of_single(0, 0, j);
            if bit_set(prior, j) {
                let c = choose|c: int|
                    0 <= c < init.len() && #[trigger] demux_drives(init, previous, p, i, c) && bit_set(
                        init[c].0.0,
                        j,
                    );
                assert(init[c] == comps[c]);
                assert(demux_drives(comps, previous, p, i, c));
            } else {
                assert(demux_drives(comps, previous, p, i, n));
            }
        }
    }
}

/// A demultiplexer tick leaves the wires without a next value or without a
/// pin index as they are. A wire `p` on pin `i` with a next value `v` ends
/// with a value `w` that keeps every bit of `v` and of the value of each
/// demultiplexer that drives `p` and reads bit `i` set, and whose other bits
/// are clear. Whether `p` has a previous value plays no part.
pub proof fn demux_tick_output(
    comps: Seq<(Demux, Inputs, Outputs)>,
    index: Seq<Option<PinIndex>>,
    previous: Seq<Option<DataPrevious>>,
    next: Seq<Option<DataNext>>,
    p: Entity,
)
    requires
        p < next.len(),
    ensures
        demux_tick(comps, index, previous, next).len() == next.len(),
        (next[p as int] is None || component(index, p) is None) ==> demux_tick(
            comps,
            index,
            previous,
            next,
        )[p as int] == next[p as int],
        next[p as int] matches Some(v) ==> component(index, p) matches Some(i) ==> {
            let w = demux_tick(comps, index, previous, next)[p as int];
            &&& w is Some
            &&& w.unwrap().0 | v.0 == w.unwrap().0
            &&& forall|c: int|
                0 <= c < comps.len() && #[trigger] demux_drives(comps, previous, p, i.0, c)
                    ==> w.unwrap().0 | comps[c].0.0 == w.unwrap().0
            &&& forall|j: usize|
                j < DATA_BITS && #[trigger] bit_set(w.unwrap().0, j) ==> bit_set(v.0, j) || exists|
                    c: int,
                |
                    0 <= c < comps.len() && #[trigger] demux_drives(comps, previous, p, i.0, c)
                        && bit_set(comps[c].0.0, j)
        },
{
    if let (Some(v), Some(i)) = (next[p as int], component(index, p)) {
        lemma_demux_output_drivers(comps, previous, p, i.0);
        let out = demux_output(comps, previous, p, i.0);
        let w = v.0 | out;
        assert(demux_tick(comps, index, previous, next)[p as int] == Some(DataNext(w)));
        lemma_or_laws(v.0, out, 0);
        lemma_or_laws(out, v.0, 0);
        lemma_or_laws(out, v.0, v.0);
        assert forall|c: int|
            0 <= c < comps.len() && #[trigger] demux_drives(comps, previous, p, i.0, c) implies w
            | comps[c].0.0 == w by {
            lemma_or_laws(v.0, out, comps[c].0.0);
        }
        assert forall|j: usize| j < DATA_BITS && #[trigger] bit_set(w, j) implies bit_set(v.0, j)
            || exists|c: int|
            0 <= c < comps.len() && #[trigger] demux_drives(comps, previous, p, i.0, c) && bit_set(
                comps[c].0.0,
                j,
            ) by {
            lemma_bit_of_or(v.0, out, j);
            assert(bit_set(w, j) == (bit_set(v.0, j) || bit_set(out, j)));
        }
    }
}

} // verus!
