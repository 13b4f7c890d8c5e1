//! represent a model to load, build and to display
use vstd::prelude::*;
use crate::circuit::{Channel, NB_CHANNELS};
use crate::schematic::{CompData, CompIndex, CompWire, ModelData, WireIndex};

verus! {

broadcast use vstd::string::to_string_from_display_ensures_for_str;

// indicate position of the model and model to use
pub struct Schema {
    pub wires: Vec<CompWire>,
    pub components: Vec<CompData>,
    pub models: Vec<ModelData>,
}

// error types when analyzing a schematic
#[derive(Clone, Copy, Debug, PartialEq, Eq, Structural)]
pub enum ErrorSchema {
    WireChannel(usize, Channel),
    WireModel(usize, CompIndex),
    ElemModel(usize, CompIndex),
    ElemPinIn(usize, usize),
    ElemPinOut(usize, usize),
}

impl ErrorSchema {
    /// The message of the error: no message is given for any of them.
    pub fn to_string(&self) -> (s: String)
        ensures
            s@ == Seq::<char>::empty(),
    {
        let text: &str = match self {
            Self::WireChannel(_, _) => "",
            Self::WireModel(_, _) => "",
            Self::ElemModel(_, _) => "",
            Self::ElemPinIn(_, _) => "",
            Self::ElemPinOut(_, _) => "",
        };
        proof {
            reveal_strlit("");
        }
        text.to_string()
    }
}

// error types when analyzing a schematic
pub enum ErrorFile {
    Unknown,
    Open(std::io::Error),
    Read(std::io::Error),
    Write(std::io::Error),
    Serialize,
    Deserialize,
}

/// The message of each kind of file error.
pub open spec fn error_file_message(e: &ErrorFile) -> Seq<char> {
    match e {
        ErrorFile::Unknown => "Could not identify file format"@,
        ErrorFile::Open(_) => "Could not open input file"@,
        ErrorFile::Read(_) => "Could not read input file"@,
        ErrorFile::Write(_) => "Could not write input file"@,
        ErrorFile::Serialize => "Could not serialize input file"@,
        ErrorFile::Deserialize => "Could not deserialize input file"@,
    }
}

impl ErrorFile {
    pub fn to_string(&self) -> (s: String)
        ensures
            s@ == error_file_message(self),
    {
        let text: &str = match self {
            Self::Unknown => "Could not identify file format",
            Self::Open(_) => "Could not open input file",
            Self::Read(_) => "Could not read input file",
            Self::Write(_) => "Could not write input file",
            Self::Serialize => "Could not serialize input file",
            Self::Deserialize => "Could not deserialize input file",
        };
        text.to_string()
    }
}

// ---------------------------------------------------------------------------
// what a valid schema is, and the errors that the check reports

/// The errors of wire `i`: a channel out of range, a model that does not exist.
pub open spec fn wire_errors(i: int, wire: CompWire, nb_models: int) -> Seq<ErrorSchema> {
    (if wire.channel as int >= NB_CHANNELS {
        seq![ErrorSchema::WireChannel(i as usize, wire.channel)]
    } else {
        Seq::empty()
    }) + (if wire.model_attr.index as int >= nb_models {
        seq![ErrorSchema::WireModel(i as usize, wire.model_attr.index)]
    } else {
        Seq::empty()
    })
}

/// The errors of the wires `wires`, in order.
pub open spec fn wires_errors(wires: Seq<CompWire>, nb_models: int) -> Seq<ErrorSchema>
    decreases wires.len(),
{
    if wires.len() == 0 {
        Seq::empty()
    } else {
        wires_errors(wires.drop_last(), nb_models) + wire_errors(
            wires.len() - 1,
            wires.last(),
            nb_models,
        )
    }
}

/// The error for pin `j` of element `i` naming no wire.
pub open spec fn pin_error(i: usize, j: usize, output: bool) -> ErrorSchema {
    if output {
        ErrorSchema::ElemPinOut(i, j)
    } else {
        ErrorSchema::ElemPinIn(i, j)
    }
}

/// The errors of the pins `pins` of element `i` that name no wire; `output`
/// tells output pins from input pins.
pub open spec fn pins_errors(i: int, pins: Seq<WireIndex>, nb_wires: int, output: bool) -> Seq<
    ErrorSchema,
>
    decreases pins.len(),
{
    if pins.len() == 0 {
        Seq::empty()
    } else {
        let j = pins.last();
        pins_errors(i, pins.drop_last(), nb_wires, output) + (if j as int >= nb_wires {
            seq![pin_error(i as usize, j as usize, output)]
        } else {
            Seq::empty()
        })
    }
}

/// The errors of element `i`: its model, then its input pins, then its
/// output pins.
pub open spec fn comp_errors(i: int, elem: CompData, nb_models: int, nb_wires: int) -> Seq<
    ErrorSchema,
> {
    (if elem.model_attr.index as int >= nb_models {
        seq![ErrorSchema::ElemModel(i as usize, elem.model_attr.index)]
    } else {
        Seq::empty()
    }) + pins_errors(i, elem.pins_in@, nb_wires, false) + pins_errors(
        i,
        elem.pins_out@,
        nb_wires,
        true,
    )
}

/// The errors of the elements `comps`, in order.
pub open spec fn comps_errors(comps: Seq<CompData>, nb_models: int, nb_wires: int) -> Seq<
    ErrorSchema,
>
    decreases comps.len(),
{
    if comps.len() == 0 {
        Seq::empty()
    } else {
        comps_errors(comps.drop_last(), nb_models, nb_wires) + comp_errors(
            comps.len() - 1,
            comps.last(),
            nb_models,
            nb_wires,
        )
    }
}

/// Every error of a schema: those of its wires, then those of its elements.
pub open spec fn schema_errors(s: &Schema) -> Seq<ErrorSchema> {
    wires_errors(s.wires@, s.models@.len() as int) + comps_errors(
        s.components@,
        s.models@.len() as int,
        s.wires@.len() as int,
    )
}

/// A wire is valid when its channel exists and its model exists.
pub open spec fn wire_valid(wire: CompWire, nb_models: int) -> bool {
    wire.channel < NB_CHANNELS && wire.model_attr.index < nb_models
}

/// An element is valid when its model exists and each of its pins names a wire.
pub open spec fn comp_valid(elem: CompData, nb_models: int, nb_wires: int) -> bool {
    &&& elem.model_attr.index < nb_models
    &&& forall|k: int| 0 <= k < elem.pins_in@.len() ==> #[trigger] elem.pins_in@[k] < nb_wires
    &&& forall|k: int| 0 <= k < elem.pins_out@.len() ==> #[trigger] elem.pins_out@[k] < nb_wires
}

impl Schema {
    /// The schema can be used to build a circuit: every wire and element
    /// refers to things that exist.
    pub open spec fn is_valid(&self) -> bool {
        &&& forall|i: int|
            0 <= i < self.wires@.len() ==> wire_valid(
                #[trigger] self.wires@[i],
                self.models@.len() as int,
            )
        &&& forall|i: int|
            0 <= i < self.components@.len() ==> comp_valid(
                #[trigger] self.components@[i],
                self.models@.len() as int,
                self.wires@.len() as int,
            )
    }
}

proof fn lemma_pins_errors_empty(i: int, pins: Seq<WireIndex>, nb_wires: int, output: bool)
    ensures
        pins_errors(i, pins, nb_wires, output).len() == 0 <==> forall|k: int|
            0 <= k < pins.len() ==> #[trigger] pins[k] < nb_wires,
    decreases pins.len(),
{
    if pins.len() > 0 {
        let init = pins.drop_last();
        lemma_pins_errors_empty(i, init, nb_wires, output);
        if pins_errors(i, pins, nb_wires, output).len() == 0 {
            assert forall|k: int| 0 <= k < pins.len() implies #[trigger] pins[k] < nb_wires by {
                if k < pins.len() - 1 {
                    assert(init[k] == pins[k]);
                }
            }
        }
        if forall|k: int| 0 <= k < pins.len() ==> #[trigger] pins[k] < nb_wires {
            assert forall|k: int| 0 <= k < init.len() implies #[trigger] init[k] < nb_wires by {
                assert(init[k] == pins[k]);
            }
            assert(pins[pins.len() - 1] < nb_wires);
        }
    }
}

proof fn lemma_wires_errors_empty(wires: Seq<CompWire>, nb_models: int)
    ensures
        wires_errors(wires, nb_models).len() == 0 <==> forall|i: int|
            0 <= i < wires.len() ==> wire_valid(#[trigger] wires[i], nb_models),
    decreases wires.len(),
{
    if wires.len() > 0 {
        let init = wires.drop_last();
        lemma_wires_errors_empty(init, nb_models);
        if wires_errors(wires, nb_models).len() == 0 {
            assert forall|k: int| 0 <= k < wires.len() implies wire_valid(
                #[trigger] wires[k],
                nb_models,
            ) by {
                if k < wires.len() - 1 {
                    assert(init[k] == wires[k]);
                }
            }
        }
        if forall|k: int| 0 <= k < wires.len() ==> wire_valid(#[trigger] wires[k], nb_models) {
            assert forall|k: int| 0 <= k < init.len() implies wire_valid(
                #[trigger] init[k],
                nb_models,
            ) by {
                assert(init[k] == wires[k]);
            }
            assert(wire_valid(wires[wires.len() - 1], nb_models));
        }
    }
}

proof fn lemma_comps_errors_empty(comps: Seq<CompData>, nb_models: int, nb_wires: int)
    ensures
        comps_errors(comps, nb_models, nb_wires).len() == 0 <==> forall|i: int|
            0 <= i < comps.len() ==> comp_valid(#[trigger] comps[i], nb_models, nb_wires),
    decreases comps.len(),
{
    if comps.len() > 0 {
        let n = comps.len() - 1;
        let init = comps.drop_last();
        let last = comps.last();
        lemma_comps_errors_empty(init, nb_models, nb_wires);
        lemma_pins_errors_empty(n, last.pins_in@, nb_wires, false);
        lemma_pins_errors_empty(n, last.pins_out@, nb_wires, true);
        if comps_errors(comps, nb_models, nb_wires).len() == 0 {
            assert forall|k: int| 0 <= k < comps.len() implies comp_valid(
                #[trigger] comps[k],
                nb_models,
                nb_wires,
            ) by {
                if k < n {
                    assert(init[k] == comps[k]);
                }
            }
        }
        if forall|k: int|
            0 <= k < comps.len() ==> comp_valid(#[trigger] comps[k], nb_models, nb_wires) {
            assert forall|k: int| 0 <= k < init.len() implies comp_valid(
                #[trigger] init[k],
                nb_models,
                nb_wires,
            ) by {
                assert(init[k] == comps[k]);
            }
            assert(comp_valid(comps[n], nb_models, nb_wires));
        }
    }
}

/// A schema has no error exactly when it is valid.
pub proof fn schema_errors_empty_iff_valid(s: &Schema)
    ensures
        schema_errors(s).len() == 0 <==> s.is_valid(),
{
    lemma_wires_errors_empty(s.wires@, s.models@.len() as int);
    lemma_comps_errors_empty(s.components@, s.models@.len() as int, s.wires@.len() as int);
}

/// Pushes the errors of the pins `pins` of element `i` after `errors`.
fn check_pins(
    errors: &mut Vec<ErrorSchema>,
    i: usize,
    pins: &Vec<WireIndex>,
    nb_wires: usize,
    output: bool,
)
    ensures
        final(errors)@ == old(errors)@ + pins_errors(i as int, pins@, nb_wires as int, output),
{
    let ghost start = errors@;
    let mut k: usize = 0;
    while k < pins.len()
        invariant
            k <= pins@.len(),
            errors@ == start + pins_errors(i as int, pins@.take(k as int), nb_wires as int, output),
        decreases pins@.len() - k,
    {
        let j = pins[k] as usize;
        proof {
            assert(pins@.take(k + 1).drop_last() =~= pins@.take(k as int));
        }
        if j >= nb_wires {
            if output {
                errors.push(ErrorSchema::ElemPinOut(i, j));
            } else {
                errors.push(ErrorSchema::ElemPinIn(i, j));
            }
        }
        k = k + 1;
        proof {
            assert(start + pins_errors(i as int, pins@.take(k as int), nb_wires as int, output)
                =~= errors@);
        }
    }
    proof {
        assert(pins@.take(pins@.len() as int) =~= pins@);
    }
}

impl Schema {
    pub fn new() -> (s: Self)
        ensures
            s.wires@ == Seq::<CompWire>::empty(),
            s.components@ == Seq::<CompData>::empty(),
            s.models@ == Seq::<ModelData>::empty(),
    {
        Self {
            wires: Vec::<CompWire>::new(),
            components: Vec::<CompData>::new(),
            models: Vec::<ModelData>::new(),
        }
    }

    // check that the schema is valid before building the circuit
    pub fn verify(&self) -> (r: Result<(), Vec<ErrorSchema>>)
        ensures
            r is Ok <==> self.is_valid(),
            r is Ok <==> schema_errors(self).len() == 0,
            r matches Err(errors) ==> errors@ == schema_errors(self),
    {
        let mut errors = Vec::<ErrorSchema>::new();

        let nb_wires = self.wires.len();
        let nb_models = self.models.len();

        // check that wires are valid
        let mut i: usize = 0;
        while i < nb_wires
            invariant
                i <= nb_wires == self.wires@.len(),
                nb_models == self.models@.len(),
                errors@ == wires_errors(self.wires@.take(i as int), nb_models as int),
            decreases nb_wires - i,
        {
            let wire = &self.wires[i];
            proof {
                assert(self.wires@.take(i + 1).drop_last() =~= self.wires@.take(i as int));
            }
            // check that the channel of the wire is valid
            if wire.channel as usize >= NB_CHANNELS {
                errors.push(ErrorSchema::WireChannel(i, wire.channel));
            }
            // check that associated model exists
            if wire.model_attr.index as usize >= nb_models {
                errors.push(ErrorSchema::WireModel(i, wire.model_attr.index));
            }
            i = i + 1;
            proof {
                assert(wires_errors(self.wires@.take(i as int), nb_models as int) =~= errors@);
            }
        }
        proof {
            assert(self.wires@.take(nb_wires as int) =~= self.wires@);
        }
        let ghost wires_part = errors@;

        // check that all elements are valid
        let nb_comps = self.components.len();
        let mut i: usize = 0;
        while i < nb_comps
            invariant
                i <= nb_comps == self.components@.len(),
                nb_wires == self.wires@.len(),
                nb_models == self.models@.len(),
                errors@ == wires_part + comps_errors(
                    self.components@.take(i as int),
                    nb_models as int,
                    nb_wires as int,
                ),
            decreases nb_comps - i,
        {
            let elem = &self.components[i];
            let ghost before = errors@;
            proof {
                assert(self.components@.take(i + 1).drop_last() =~= self.components@.take(
                    i as int,
                ));
            }
            // check that associated model exists
            if elem.model_attr.index as usize >= nb_models {
                errors.push(ErrorSchema::ElemModel(i, elem.model_attr.index));
            }
            // check that inputs exist
            check_pins(&mut errors, i, &elem.pins_in, nb_wires, false);
            // check that outputs exist
            check_pins(&mut errors, i, &elem.pins_out, nb_wires, true);
            proof {
                assert(errors@ =~= before + comp_errors(
                    i as int,
                    *elem,
                    nb_models as int,
                    nb_wires as int,
                ));
            }
            i = i + 1;
            proof {
                assert(wires_part + comps_errors(
                    self.components@.take(i as int),
                    nb_models as int,
                    nb_wires as int,
                ) =~= errors@);
            }
        }
        proof {
            assert(self.components@.take(nb_comps as int) =~= self.components@);
            schema_errors_empty_iff_valid(self);
        }

        // the schema is valid it can be used to generate a circuit
        if errors.len() == 0 {
            Ok(())
        } else {
            Err(errors)
        }
    }
}

// ---------------------------------------------------------------------------
// each error names a fault, each fault is named

/// `e` names a fault of the wires `wires` (with `nb_models` models).
pub open spec fn wire_fault(wires: Seq<CompWire>, nb_models: int, e: ErrorSchema) -> bool {
    match e {
        ErrorSchema::WireChannel(i, ch) => i < wires.len() && wires[i as int].channel == ch && ch
            >= NB_CHANNELS,
        ErrorSchema::WireModel(i, m) => i < wires.len() && wires[i as int].model_attr.index == m
            && m >= nb_models,
        _ => false,
    }
}

/// `e` names a pin of element `i` that refers to no wire.
pub open spec fn pin_fault(i: int, pins: Seq<WireIndex>, nb_wires: int, output: bool, e: ErrorSchema) -> bool {
    match e {
        ErrorSchema::ElemPinIn(c, j) => !output && c == i && j >= nb_wires && exists|k: int|
            0 <= k < pins.len() && #[trigger] pins[k] as int == j,
        ErrorSchema::ElemPinOut(c, j) => output && c == i && j >= nb_wires && exists|k: int|
            0 <= k < pins.len() && #[trigger] pins[k] as int == j,
        _ => false,
    }
}

/// `e` names a fault of the elements `comps`.
pub open spec fn comp_fault(comps: Seq<CompData>, nb_models: int, nb_wires: int, e: ErrorSchema) -> bool {
    match e {
        ErrorSchema::ElemModel(i, m) => i < comps.len() && comps[i as int].model_attr.index == m
            && m >= nb_models,
        ErrorSchema::ElemPinIn(i, _) => i < comps.len() && pin_fault(
            i as int,
            comps[i as int].pins_in@,
            nb_wires,
            false,
            e,
        ),
        ErrorSchema::ElemPinOut(i, _) => i < comps.len() && pin_fault(
            i as int,
            comps[i as int].pins_out@,
            nb_wires,
            true,
            e,
        ),
        _ => false,
    }
}

/// `e` names a fault of schema `s`.
pub open spec fn schema_fault(s: &Schema, e: ErrorSchema) -> bool {
    wire_fault(s.wires@, s.models@.len() as int, e) || comp_fault(
        s.components@,
        s.models@.len() as int,
        s.wires@.len() as int,
        e,
    )
}

proof fn lemma_pins_errors_sound(i: int, pins: Seq<WireIndex>, nb_wires: int, output: bool)
    requires
        0 <= i <= usize::MAX,
    ensures
        forall|e: ErrorSchema|
            #[trigger] pins_errors(i, pins, nb_wires, output).contains(e) ==> pin_fault(
                i,
                pins,
                nb_wires,
                output,
                e,
            ),
        forall|k: int|
            0 <= k < pins.len() && #[trigger] pins[k] >= nb_wires ==> pins_errors(
                i,
                pins,
                nb_wires,
                output,
            ).contains(
                pin_error(i as usize, pins[k] as usize, output),
            ),
    decreases pins.len(),
{
    if pins.len() > 0 {
        let init = pins.drop_last();
        let n = pins.len() - 1;
        lemma_pins_errors_sound(i, init, nb_wires, output);
        let head = pins_errors(i, init, nb_wires, output);
        let j = pins.last();
        let tail: Seq<ErrorSchema> = if j as int >= nb_wires {
            seq![pin_error(i as usize, j as usize, output)]
        } else {
            Seq::empty()
        };
        assert(pins_errors(i, pins, nb_wires, output) == head + tail);
        assert forall|e: ErrorSchema|
            #[trigger] pins_errors(i, pins, nb_wires, output).contains(e) implies pin_fault(
            i,
            pins,
            nb_wires,
            output,
            e,
        ) by {
            vstd::seq_lib::lemma_seq_concat_contains_all_elements(head, tail, e);
            if head.contains(e) {
                match e {
                    ErrorSchema::ElemPinIn(_, jj) => {
                        let k = choose|k: int| 0 <= k < init.len() && #[trigger] init[k] as int == jj;
                        assert(pins[k] == init[k]);
                    },
                    ErrorSchema::ElemPinOut(_, jj) => {
                        let k = choose|k: int| 0 <= k < init.len() && #[trigger] init[k] as int == jj;
                        assert(pins[k] == init[k]);
                    },
                    _ => {},
                }
            } else {
                assert(tail.contains(e));
                assert(e == tail[0]);
                assert(pins[n] as int == j as usize as int);
            }
        }
        assert forall|k: int| 0 <= k < pins.len() && #[trigger] pins[k] >= nb_wires implies pins_errors(
            i,
            pins,
            nb_wires,
            output,
        ).contains(
            pin_error(i as usize, pins[k] as usize, output),
        ) by {
            let e = pin_error(i as usize, pins[k] as usize, output);
            vstd::seq_lib::lemma_seq_concat_contains_all_elements(head, tail, e);
            if k < n {
                assert(init[k] == pins[k]);
                assert(head.contains(e));
            } else {
                assert(tail[0] == e);
            }
        }
    }
}

proof fn lemma_wires_errors_sound(wires: Seq<CompWire>, nb_models: int)
    requires
        wires.len() <= usize::MAX + 1,
    ensures
        forall|e: ErrorSchema|
            #[trigger] wires_errors(wires, nb_models).contains(e) ==> wire_fault(
                wires,
                nb_models,
                e,
            ),
        forall|i: int|
            0 <= i < wires.len() && wires[i].channel >= NB_CHANNELS ==> #[trigger] wires_errors(
                wires,
                nb_models,
            ).contains(ErrorSchema::WireChannel(i as usize, wires[i].channel)),
        forall|i: int|
            0 <= i < wires.len() && wires[i].model_attr.index >= nb_models ==> #[trigger] wires_errors(
                wires,
                nb_models,
            ).contains(ErrorSchema::WireModel(i as usize, wires[i].model_attr.index)),
    decreases wires.len(),
{
    if wires.len() > 0 {
        let init = wires.drop_last();
        let n = wires.len() - 1;
        lemma_wires_errors_sound(init, nb_models);
        let head = wires_errors(init, nb_models);
        let tail = wire_errors(n, wires.last(), nb_models);
        let w = wires.last();
        let a: Seq<ErrorSchema> = if w.channel as int >= NB_CHANNELS {
            seq![ErrorSchema::WireChannel(n as usize, w.channel)]
        } else {
            Seq::empty()
        };
        let b: Seq<ErrorSchema> = if w.model_attr.index as int >= nb_models {
            seq![ErrorSchema::WireModel(n as usize, w.model_attr.index)]
        } else {
            Seq::empty()
        };
        assert(tail == a + b);
        assert forall|e: ErrorSchema| #[trigger] wires_errors(wires, nb_models).contains(e) implies wire_fault(
            wires,
            nb_models,
            e,
        ) by {
            vstd::seq_lib::lemma_seq_concat_contains_all_elements(head, tail, e);
            vstd::seq_lib::lemma_seq_concat_contains_all_elements(a, b, e);
            match e {
                ErrorSchema::WireChannel(i, _) => {
                    if head.contains(e) {
                        assert(init[i as int] == wires[i as int]);
                    }
                },
                ErrorSchema::WireModel(i, _) => {
                    if head.contains(e) {
                        assert(init[i as int] == wires[i as int]);
                    }
                },
                _ => {},
            }
        }
        assert forall|i: int| 0 <= i < wires.len() && wires[i].channel >= NB_CHANNELS implies #[trigger] wires_errors(
            wires,
            nb_models,
        ).contains(ErrorSchema::WireChannel(i as usize, wires[i].channel)) by {
            let e = ErrorSchema::WireChannel(i as usize, wires[i].channel);
            vstd::seq_lib::lemma_seq_concat_contains_all_elements(head, tail, e);
            vstd::seq_lib::lemma_seq_concat_contains_all_elements(a, b, e);
            if i < n {
                assert(init[i] == wires[i]);
            } else {
                assert(a[0] == e);
            }
        }
        assert forall|i: int|
            0 <= i < wires.len() && wires[i].model_attr.index >= nb_models implies #[trigger] wires_errors(
            wires,
            nb_models,
        ).contains(ErrorSchema::WireModel(i as usize, wires[i].model_attr.index)) by {
            let e = ErrorSchema::WireModel(i as usize, wires[i].model_attr.index);
            vstd::seq_lib::lemma_seq_concat_contains_all_elements(head, tail, e);
            vstd::seq_lib::lemma_seq_concat_contains_all_elements(a, b, e);
            if i < n {
                assert(init[i] == wires[i]);
            } else {
                assert(b[0] == e);
            }
        }
    }
}

proof fn lemma_comps_errors_sound(comps: Seq<CompData>, nb_models: int, nb_wires: int)
    requires
        comps.len() <= usize::MAX + 1,
    ensures
        forall|e: ErrorSchema|
            #[trigger] comps_errors(comps, nb_models, nb_wires).contains(e) ==> comp_fault(
                comps,
                nb_models,
                nb_wires,
                e,
            ),
        forall|i: int|
            0 <= i < comps.len() && comps[i].model_attr.index >= nb_models ==> #[trigger] comps_errors(
                comps,
                nb_models,
                nb_wires,
            ).contains(ErrorSchema::ElemModel(i as usize, comps[i].model_attr.index)),
        forall|i: int, k: int|
            0 <= i < comps.len() && 0 <= k < comps[i].pins_in@.len() && #[trigger] comps[i].pins_in@[k]
                >= nb_wires ==> comps_errors(comps, nb_models, nb_wires).contains(
                ErrorSchema::ElemPinIn(i as usize, comps[i].pins_in@[k] as usize),
            ),
        forall|i: int, k: int|
            0 <= i < comps.len() && 0 <= k < comps[i].pins_out@.len()
                && #[trigger] comps[i].pins_out@[k] >= nb_wires ==> comps_errors(
                comps,
                nb_models,
                nb_wires,
            ).contains(ErrorSchema::ElemPinOut(i as usize, comps[i].pins_out@[k] as usize)),
    decreases comps.len(),
{
    if comps.len() > 0 {
        let init = comps.drop_last();
        let n = comps.len() - 1;
        let c = comps.last();
        lemma_comps_errors_sound(init, nb_models, nb_wires);
        lemma_pins_errors_sound(n, c.pins_in@, nb_wires, false);
        lemma_pins_errors_sound(n, c.pins_out@, nb_wires, true);
        let head = comps_errors(init, nb_models, nb_wires);
        let a: Seq<ErrorSchema> = if c.model_attr.index as int >= nb_models {
            seq![ErrorSchema::ElemModel(n as usize, c.model_attr.index)]
        } else {
            Seq::empty()
        };
        let pi = pins_errors(n, c.pins_in@, nb_wires, false);
        let po = pins_errors(n, c.pins_out@, nb_wires, true);
        let tail = comp_errors(n, c, nb_models, nb_wires);
        assert(tail == a + pi + po);
        assert(comps_errors(comps, nb_models, nb_wires) == head + tail);
        assert forall|e: ErrorSchema|
            #[trigger] comps_errors(comps, nb_models, nb_wires).contains(e) implies comp_fault(
            comps,
            nb_models,
            nb_wires,
            e,
        ) by {
            vstd::seq_lib::lemma_seq_concat_contains_all_elements(head, tail, e);
            vstd::seq_lib::lemma_seq_concat_contains_all_elements(a + pi, po, e);
            vstd::seq_lib::lemma_seq_concat_contains_all_elements(a, pi, e);
            match e {
                ErrorSchema::ElemModel(i, _) => {
                    if head.contains(e) {
                        assert(init[i as int] == comps[i as int]);
                    }
                },
                ErrorSchema::ElemPinIn(i, _) => {
                    if head.contains(e) {
                        assert(init[i as int] == comps[i as int]);
                    }
                },
                ErrorSchema::ElemPinOut(i, _) => {
                    if head.contains(e) {
                        assert(init[i as int] == comps[i as int]);
                    }
                },
                _ => {},
            }
        }
        assert forall|i: int|
            0 <= i < comps.len() && comps[i].model_attr.index >= nb_models implies #[trigger] comps_errors(
            comps,
            nb_models,
            nb_wires,
        ).contains(ErrorSchema::ElemModel(i as usize, comps[i].model_attr.index)) by {
            let e = ErrorSchema::ElemModel(i as usize, comps[i].model_attr.index);
            vstd::seq_lib::lemma_seq_concat_contains_all_elements(head, tail, e);
            vstd::seq_lib::lemma_seq_concat_contains_all_elements(a + pi, po, e);
            vstd::seq_lib::lemma_seq_concat_contains_all_elements(a, pi, e);
            if i < n {
                assert(init[i] == comps[i]);
            } else {
                assert(a[0] == e);
            }
        }
        assert forall|i: int, k: int|
            0 <= i < comps.len() && 0 <= k < comps[i].pins_in@.len() && #[trigger] comps[i].pins_in@[k]
                >= nb_wires implies comps_errors(comps, nb_models, nb_wires).contains(
            ErrorSchema::ElemPinIn(i as usize, comps[i].pins_in@[k] as usize),
        ) by {
            let e = ErrorSchema::ElemPinIn(i as usize, comps[i].pins_in@[k] as usize);
            vstd::seq_lib::lemma_seq_concat_contains_all_elements(head, tail, e);
            vstd::seq_lib::lemma_seq_concat_contains_all_elements(a + pi, po, e);
            vstd::seq_lib::lemma_seq_concat_contains_all_elements(a, pi, e);
            if i < n {
                assert(init[i] == comps[i]);
                assert(init[i].pins_in@[k] >= nb_wires);
            } else {
                assert(c.pins_in@[k] >= nb_wires);
                assert(pi.contains(pin_error(n as usize, c.pins_in@[k] as usize, false)));
            }
        }
        assert forall|i: int, k: int|
            0 <= i < comps.len() && 0 <= k < comps[i].pins_out@.len()
                && #[trigger] comps[i].pins_out@[k] >= nb_wires implies comps_errors(
            comps,
            nb_models,
            nb_wires,
        ).contains(ErrorSchema::ElemPinOut(i as usize, comps[i].pins_out@[k] as usize)) by {
            let e = ErrorSchema::ElemPinOut(i as usize, comps[i].pins_out@[k] as usize);
            vstd::seq_lib::lemma_seq_concat_contains_all_elements(head, tail, e);
            vstd::seq_lib::lemma_seq_concat_contains_all_elements(a + pi, po, e);
            vstd::seq_lib::lemma_seq_concat_contains_all_elements(a, pi, e);
            if i < n {
                assert(init[i] == comps[i]);
                assert(init[i].pins_out@[k] >= nb_wires);
            } else {
                assert(c.pins_out@[k] >= nb_wires);
                assert(po.contains(pin_error(n as usize, c.pins_out@[k] as usize, true)));
            }
        }
    }
}

/// Each error that the check of a schema reports names a fault of the
/// schema, and each fault is reported: a wire on a channel that does not
/// exist, a wire or an element whose model does not exist, an element pin
/// that names no wire.
pub proof fn schema_errors_name_the_faults(s: &Schema)
    requires
        s.wires@.len() <= usize::MAX,
        s.components@.len() <= usize::MAX,
    ensures
        forall|e: ErrorSchema| #[trigger] schema_errors(s).contains(e) ==> schema_fault(s, e),
        forall|i: int|
            0 <= i < s.wires@.len() && s.wires@[i].channel >= NB_CHANNELS ==> #[trigger] schema_errors(
                s,
            ).contains(ErrorSchema::WireChannel(i as usize, s.wires@[i].channel)),
        forall|i: int|
            0 <= i < s.wires@.len() && s.wires@[i].model_attr.index >= s.models@.len()
                ==> #[trigger] schema_errors(s).contains(
                ErrorSchema::WireModel(i as usize, s.wires@[i].model_attr.index),
            ),
        forall|i: int|
            0 <= i < s.components@.len() && s.components@[i].model_attr.index >= s.models@.len()
                ==> #[trigger] schema_errors(s).contains(
                ErrorSchema::ElemModel(i as usize, s.components@[i].model_attr.index),
            ),
        forall|i: int, k: int|
            0 <= i < s.components@.len() && 0 <= k < s.components@[i].pins_in@.len()
                && #[trigger] s.components@[i].pins_in@[k] >= s.wires@.len() ==> schema_errors(
                s,
            ).contains(ErrorSchema::ElemPinIn(i as usize, s.components@[i].pins_in@[k] as usize)),
        forall|i: int, k: int|
            0 <= i < s.components@.len() && 0 <= k < s.components@[i].pins_out@.len()
                && #[trigger] s.components@[i].pins_out@[k] >= s.wires@.len() ==> schema_errors(
                s,
            ).contains(ErrorSchema::ElemPinOut(i as usize, s.components@[i].pins_out@[k] as usize)),
{
    let nm = s.models@.len() as int;
    let nw = s.wires@.len() as int;
    lemma_wires_errors_sound(s.wires@, nm);
    lemma_comps_errors_sound(s.components@, nm, nw);
    let we = wires_errors(s.wires@, nm);
    let ce = comps_errors(s.components@, nm, nw);
    assert forall|e: ErrorSchema| #[trigger] schema_errors(s).contains(e) implies schema_fault(s, e) by {
        vstd::seq_lib::lemma_seq_concat_contains_all_elements(we, ce, e);
    }
    assert forall|e: ErrorSchema| we.contains(e) || ce.contains(e) implies #[trigger] schema_errors(
        s,
    ).contains(e) by {
        vstd::seq_lib::lemma_seq_concat_contains_all_elements(we, ce, e);
    }
}

/// A new schema is empty, hence valid: its check reports no error.
pub proof fn new_schema_is_valid(s: &Schema)
    requires
        s.wires@ == Seq::<CompWire>::empty(),
        s.components@ == Seq::<CompData>::empty(),
        s.models@ == Seq::<ModelData>::empty(),
    ensures
        s.is_valid(),
        schema_errors(s) == Seq::<ErrorSchema>::empty(),
{
    assert(schema_errors(s) =~= Seq::<ErrorSchema>::empty());
}

// ---------------------------------------------------------------------------
// the errors come in the order of the schema

/// Where error `e` stands in the order of a schema with `nb_wires` wires: the
/// errors of wire `i` at `i`, those of element `i` after every wire, at
/// `nb_wires + i`.
pub open spec fn error_place(e: ErrorSchema, nb_wires: int) -> int {
    match e {
        ErrorSchema::WireChannel(i, _) => i as int,
        ErrorSchema::WireModel(i, _) => i as int,
        ErrorSchema::ElemModel(i, _) => nb_wires + i,
        ErrorSchema::ElemPinIn(i, _) => nb_wires + i,
        ErrorSchema::ElemPinOut(i, _) => nb_wires + i,
    }
}

/// The errors `errs` come in the order of their places.
pub open spec fn in_schema_order(errs: Seq<ErrorSchema>, nb_wires: int) -> bool {
    forall|p: int, q: int|
        0 <= p < q < errs.len() ==> error_place(#[trigger] errs[p], nb_wires) <= error_place(
            #[trigger] errs[q],
            nb_wires,
        )
}

/// All the errors `errs` stand at places in `lo..hi`.
pub open spec fn places_within(errs: Seq<ErrorSchema>, nb_wires: int, lo: int, hi: int) -> bool {
    forall|k: int|
        0 <= k < errs.len() ==> lo <= error_place(#[trigger] errs[k], nb_wires) < hi
}

proof fn lemma_concat_in_order(a: Seq<ErrorSchema>, b: Seq<ErrorSchema>, nb_wires: int, mid: int)
    requires
        in_schema_order(a, nb_wires),
        in_schema_order(b, nb_wires),
        forall|k: int| 0 <= k < a.len() ==> error_place(#[trigger] a[k], nb_wires) <= mid,
        forall|k: int| 0 <= k < b.len() ==> mid <= error_place(#[trigger] b[k], nb_wires),
    ensures
        in_schema_order(a + b, nb_wires),
{
    let ab = a + b;
    assert forall|p: int, q: int| 0 <= p < q < ab.len() implies error_place(
        #[trigger] ab[p],
        nb_wires,
    ) <= error_place(#[trigger] ab[q], nb_wires) by {
        if q < a.len() {
            assert(ab[p] == a[p] && ab[q] == a[q]);
        } else if p >= a.len() {
            assert(ab[p] == b[p - a.len()] && ab[q] == b[q - a.len()]);
        } else {
            assert(ab[p] == a[p] && ab[q] == b[q - a.len()]);
        }
    }
}

proof fn lemma_concat_within(a: Seq<ErrorSchema>, b: Seq<ErrorSchema>, nb_wires: int, lo: int, hi: int)
    requires
        places_within(a, nb_wires, lo, hi),
        places_within(b, nb_wires, lo, hi),
    ensures
        places_within(a + b, nb_wires, lo, hi),
{
    let ab = a + b;
    assert forall|k: int| 0 <= k < ab.len() implies lo <= error_place(#[trigger] ab[k], nb_wires)
        < hi by {
        if k < a.len() {
            assert(ab[k] == a[k]);
        } else {
            assert(ab[k] == b[k - a.len()]);
        }
    }
}

proof fn lemma_pins_errors_place(i: int, pins: Seq<WireIndex>, nb_wires: int, output: bool, w: int)
    requires
        0 <= i <= usize::MAX,
    ensures
        places_within(pins_errors(i, pins, nb_wires, output), w, w + i, w + i + 1),
    decreases pins.len(),
{
    if pins.len() > 0 {
        lemma_pins_errors_place(i, pins.drop_last(), nb_wires, output, w);
        let j = pins.last();
        let tail: Seq<ErrorSchema> = if j as int >= nb_wires {
            seq![pin_error(i as usize, j as usize, output)]
        } else {
            Seq::empty()
        };
        assert(places_within(tail, w, w + i, w + i + 1));
        lemma_concat_within(pins_errors(i, pins.drop_last(), nb_wires, output), tail, w, w + i, w + i + 1);
    }
}

proof fn lemma_comp_errors_place(i: int, elem: CompData, nb_models: int, nb_wires: int)
    requires
        0 <= i <= usize::MAX,
    ensures
        places_within(comp_errors(i, elem, nb_models, nb_wires), nb_wires, nb_wires + i, nb_wires + i + 1),
{
    let a: Seq<ErrorSchema> = if elem.model_attr.index as int >= nb_models {
        seq![ErrorSchema::ElemModel(i as usize, elem.model_attr.index)]
    } else {
        Seq::empty()
    };
    let pi = pins_errors(i, elem.pins_in@, nb_wires, false);
    let po = pins_errors(i, elem.pins_out@, nb_wires, true);
    lemma_pins_errors_place(i, elem.pins_in@, nb_wires, false, nb_wires);
    lemma_pins_errors_place(i, elem.pins_out@, nb_wires, true, nb_wires);
    assert(places_within(a, nb_wires, nb_wires + i, nb_wires + i + 1));
    lemma_concat_within(a, pi, nb_wires, nb_wires + i, nb_wires + i + 1);
    lemma_concat_within(a + pi, po, nb_wires, nb_wires + i, nb_wires + i + 1);
    assert(comp_errors(i, elem, nb_models, nb_wires) == a + pi + po);
}

proof fn lemma_comps_errors_order(comps: Seq<CompData>, nb_models: int, nb_wires: int)
    requires
        comps.len() <= usize::MAX + 1,
    ensures
        in_schema_order(comps_errors(comps, nb_models, nb_wires), nb_wires),
        places_within(comps_errors(comps, nb_models, nb_wires), nb_wires, nb_wires, nb_wires + comps.len()),
    decreases comps.len(),
{
    if comps.len() > 0 {
        let n = comps.len() - 1;
        let init = comps.drop_last();
        lemma_comps_errors_order(init, nb_models, nb_wires);
        let head = comps_errors(init, nb_models, nb_wires);
        let tail = comp_errors(n, comps.last(), nb_models, nb_wires);
        lemma_comp_errors_place(n, comps.last(), nb_models, nb_wires);
        assert(in_schema_order(tail, nb_wires));
        assert forall|k: int| 0 <= k < head.len() implies error_place(#[trigger] head[k], nb_wires)
            <= nb_wires + n by {}
        assert forall|k: int| 0 <= k < tail.len() implies nb_wires + n <= error_place(
            #[trigger] tail[k],
            nb_wires,
        ) by {}
        lemma_concat_in_order(head, tail, nb_wires, nb_wires + n);
        assert(places_within(head, nb_wires, nb_wires, nb_wires + comps.len()));
        assert(places_within(tail, nb_wires, nb_wires, nb_wires + comps.len()));
        lemma_concat_within(head, tail, nb_wires, nb_wires, nb_wires + comps.len());
    }
}

proof fn lemma_wires_errors_order(wires: Seq<CompWire>, nb_models: int)
    requires
        wires.len() <= usize::MAX + 1,
    ensures
        in_schema_order(wires_errors(wires, nb_models), wires.len() as int),
        places_within(wires_errors(wires, nb_models), wires.len() as int, 0, wires.len() as int),
    decreases wires.len(),
{
    let nw = wires.len() as int;
    if wires.len() > 0 {
        let n = wires.len() - 1;
        let init = wires.drop_last();
        lemma_wires_errors_order(init, nb_models);
        let head = wires_errors(init, nb_models);
        let tail = wire_errors(n, wires.last(), nb_models);
        let w = wires.last();
        let a: Seq<ErrorSchema> = if w.channel as int >= NB_CHANNELS {
            seq![ErrorSchema::WireChannel(n as usize, w.channel)]
        } else {
            Seq::empty()
        };
        let b: Seq<ErrorSchema> = if w.model_attr.index as int >= nb_models {
            seq![ErrorSchema::WireModel(n as usize, w.model_attr.index)]
        } else {
            Seq::empty()
        };
        assert(tail == a + b);
        assert(places_within(a, nw, n, n + 1));
        assert(places_within(b, nw, n, n + 1));
        lemma_concat_within(a, b, nw, n, n + 1);
        // the places of wire errors do not depend on the number of wires
        assert forall|k: int| 0 <= k < head.len() implies error_place(#[trigger] head[k], nw)
            == error_place(head[k], n) by {}
        assert(in_schema_order(head, nw));
        assert forall|k: int| 0 <= k < head.len() implies error_place(#[trigger] head[k], nw) <= n by {}
        assert forall|k: int| 0 <= k < tail.len() implies n <= error_place(#[trigger] tail[k], nw) by {}
        lemma_concat_in_order(head, tail, nw, n);
        assert(places_within(head, nw, 0, nw));
        assert(places_within(tail, nw, 0, nw));
        lemma_concat_within(head, tail, nw, 0, nw);
    }
}

/// The check reports the errors in the order of the schema: the errors of
/// the wires first, wire by wire, then those of the elements, element by
/// element; an error of wire or element `i` never comes after one of `j > i`.
pub proof fn schema_errors_in_order(s: &Schema)
    requires
        s.wires@.len() <= usize::MAX,
        s.components@.len() <= usize::MAX,
    ensures
        in_schema_order(schema_errors(s), s.wires@.len() as int),
{
    let nm = s.models@.len() as int;
    let nw = s.wires@.len() as int;
    lemma_wires_errors_order(s.wires@, nm);
    lemma_comps_errors_order(s.components@, nm, nw);
    let we = wires_errors(s.wires@, nm);
    let ce = comps_errors(s.components@, nm, nw);
    assert forall|k: int| 0 <= k < we.len() implies error_place(#[trigger] we[k], nw) <= nw by {}
    assert forall|k: int| 0 <= k < ce.len() implies nw <= error_place(#[trigger] ce[k], nw) by {}
    lemma_concat_in_order(we, ce, nw, nw);
}

} // verus!
