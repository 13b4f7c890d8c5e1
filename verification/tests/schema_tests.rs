use voxcircuit::circuit::NB_CHANNELS;
use voxcircuit::schematic::schema::{ErrorFile, ErrorSchema, Schema};
use voxcircuit::schematic::{CompData, CompType, CompWire, GateOp, ModelAttr, ModelData};

fn wire(channel: u8, model: u32) -> CompWire {
    CompWire { channel, model_attr: ModelAttr { index: model } }
}

fn elem(model: u32, pins_in: Vec<u32>, pins_out: Vec<u32>) -> CompData {
    CompData {
        model_attr: ModelAttr { index: model },
        comp_type: CompType::Gate(GateOp::And),
        pins_in,
        pins_out,
    }
}

fn model() -> ModelData {
    ModelData { path: "and.vox".to_string() }
}

#[test]
fn new_schema_is_empty_and_valid() {
    let s = Schema::new();
    assert!(s.wires.is_empty() && s.components.is_empty() && s.models.is_empty());
    assert!(s.verify().is_ok());
}

#[test]
fn valid_schema_passes() {
    let mut s = Schema::new();
    s.models.push(model());
    s.wires.push(wire(0, 0));
    s.wires.push(wire((NB_CHANNELS - 1) as u8, 0));
    s.components.push(elem(0, vec![0, 1], vec![1]));
    s.components.push(CompData {
        model_attr: ModelAttr { index: 0 },
        comp_type: CompType::Demux(5),
        pins_in: vec![],
        pins_out: vec![0],
    });
    assert!(s.verify().is_ok());
}

#[test]
fn every_fault_is_reported_in_order() {
    let mut s = Schema::new();
    s.models.push(model());
    s.wires.push(wire(NB_CHANNELS as u8, 0));
    s.wires.push(wire(0, 1));
    s.wires.push(wire(200, 7));
    s.components.push(elem(0, vec![0], vec![1]));
    s.components.push(elem(3, vec![3, 0, 9], vec![2, 5]));
    let errors = s.verify().unwrap_err();
    assert_eq!(
        errors,
        vec![
            ErrorSchema::WireChannel(0, NB_CHANNELS as u8),
            ErrorSchema::WireModel(1, 1),
            ErrorSchema::WireChannel(2, 200),
            ErrorSchema::WireModel(2, 7),
            ErrorSchema::ElemModel(1, 3),
            ErrorSchema::ElemPinIn(1, 3),
            ErrorSchema::ElemPinIn(1, 9),
            ErrorSchema::ElemPinOut(1, 5),
        ]
    );
}

#[test]
fn element_without_models_is_reported() {
    let mut s = Schema::new();
    s.components.push(elem(0, vec![], vec![0]));
    assert_eq!(
        s.verify().unwrap_err(),
        vec![ErrorSchema::ElemModel(0, 0), ErrorSchema::ElemPinOut(0, 0)]
    );
}

#[test]
fn schema_errors_have_no_message() {
    assert_eq!(ErrorSchema::WireChannel(1, 2).to_string(), "");
    assert_eq!(ErrorSchema::WireModel(1, 2).to_string(), "");
    assert_eq!(ErrorSchema::ElemModel(1, 2).to_string(), "");
    assert_eq!(ErrorSchema::ElemPinIn(1, 2).to_string(), "");
    assert_eq!(ErrorSchema::ElemPinOut(1, 2).to_string(), "");
}

#[test]
fn file_errors_have_their_message() {
    let io = || std::io::Error::new(std::io::ErrorKind::Other, "io");
    assert_eq!(ErrorFile::Unknown.to_string(), "Could not identify file format");
    assert_eq!(ErrorFile::Open(io()).to_string(), "Could not open input file");
    assert_eq!(ErrorFile::Read(io()).to_string(), "Could not read input file");
    assert_eq!(ErrorFile::Write(io()).to_string(), "Could not write input file");
    assert_eq!(ErrorFile::Serialize.to_string(), "Could not serialize input file");
    assert_eq!(ErrorFile::Deserialize.to_string(), "Could not deserialize input file");
}
