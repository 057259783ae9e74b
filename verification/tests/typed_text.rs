use volar_ir::circuit::VCircuit;
use volar_ir::common::{Constant, StorageId};
use volar_ir::gadget::PortKind;
use volar_ir::ir::{IRBlockId, IRTypeId};
use volar_ir::region::{RegionId, RegionNames, RegionSelector, RegionSet};
use volar_ir::text::error::ParseError;
use volar_ir::text::lexer::Lexer;
use volar_ir::text::traits::WriteText;
use volar_ir::text::typed_regions::{
    parse_typed_gadget_section, parse_typed_gadget_specs, parse_typed_region_entries, spec_stubs,
    write_typed_gadget_bindings,
};
use volar_ir::typed_gadget::{
    TypedAuxSource, TypedGadgetBinding, TypedGadgetLibrary, TypedGadgetSpec, TypedPort,
};
use volar_ir::typed_region::{TypedAnchor, TypedRegionEntry, TypedRegionTable};

fn sample_table() -> TypedRegionTable {
    TypedRegionTable {
        entries: vec![
            TypedRegionEntry {
                anchor: TypedAnchor::Input { param: 0, start: 0, len: 8 },
                regions: RegionSet::from_ids(&[RegionId(0)]),
            },
            TypedRegionEntry {
                anchor: TypedAnchor::BlockInput {
                    block: IRBlockId(1),
                    param: 0,
                    start: 2,
                    len: 3,
                },
                regions: RegionSet::from_ids(&[RegionId(1)]),
            },
            TypedRegionEntry {
                anchor: TypedAnchor::FuncInput {
                    func: 2,
                    param: 0,
                    start: 0,
                    len: 4,
                },
                regions: RegionSet::from_ids(&[RegionId(2)]),
            },
            TypedRegionEntry {
                anchor: TypedAnchor::Output { out: 0, start: 1, len: 4 },
                regions: RegionSet::from_ids(&[RegionId(0)]),
            },
            TypedRegionEntry {
                anchor: TypedAnchor::FuncOutput {
                    func: 0,
                    result: 1,
                    start: 0,
                    len: 2,
                },
                regions: RegionSet::from_ids(&[RegionId(3)]),
            },
            TypedRegionEntry {
                anchor: TypedAnchor::Storage {
                    storage: StorageId(1),
                    ty: IRTypeId(3),
                    addr_start: 0,
                    addr_len: 4,
                },
                regions: RegionSet::from_ids(&[RegionId(4)]),
            },
        ],
        names: RegionNames::new(),
    }
}

fn write_str(t: &TypedRegionTable) -> String {
    let mut s = String::new();
    t.write_text(&mut s);
    s
}

#[test]
fn typed_regions_text_roundtrip() {
    let table = sample_table();
    let text = write_str(&table);
    let mut lex = Lexer::new(&text);
    assert_eq!(lex.read_ident().unwrap(), "typed_regions");
    lex.expect_byte(b'{').unwrap();
    let parsed = parse_typed_region_entries(&mut lex).expect("parses");
    assert_eq!(parsed, table);
}

#[test]
fn typed_gadget_bindings_text_roundtrip() {
    let bindings = vec![
        TypedGadgetBinding {
            gadget: String::from("pad8"),
            selector: RegionSelector {
                all_of: RegionSet::from_ids(&[RegionId(0)]),
                none_of: RegionSet::from_ids(&[RegionId(1)]),
            },
            aux_sources: vec![
                TypedAuxSource::Const(vec![
                    Constant { hi: 0, lo: 0x5a },
                    Constant { hi: 1, lo: u128::MAX },
                ]),
                TypedAuxSource::InputRange { param: 1, start: 0 },
                TypedAuxSource::Rng(String::from("nonce")),
            ],
            rng_source: Some(String::from("stream")),
        },
        TypedGadgetBinding {
            gadget: String::from("tiny"),
            selector: RegionSelector::all_of(&[RegionId(0)]),
            aux_sources: vec![],
            rng_source: None,
        },
    ];
    let mut s = String::new();
    write_typed_gadget_bindings(&bindings, &mut s);
    let mut lex = Lexer::new(&s);
    assert_eq!(lex.read_ident().unwrap(), "typed_gadgets");
    lex.expect_byte(b'{').unwrap();
    let parsed = parse_typed_gadget_section(&mut lex).expect("parses");
    assert_eq!(parsed, bindings);
}

#[test]
fn typed_gadget_specs_text_roundtrip() {
    let lib = TypedGadgetLibrary::new().with(TypedGadgetSpec {
        name: String::from("pad8"),
        ports: vec![
            TypedPort {
                name: String::from("data"),
                kind: PortKind::Data,
                ty: IRTypeId(0),
                count: 1,
            },
            TypedPort {
                name: String::from("key"),
                kind: PortKind::Aux,
                ty: IRTypeId(2),
                count: 3,
            },
        ],
        encrypt: VCircuit::new(vec![]),
        decrypt: None,
    });
    let mut s2 = String::new();
    lib.write_text(&mut s2);
    let mut lex = Lexer::new(&s2);
    assert_eq!(lex.read_ident().unwrap(), "typed_gadget_specs");
    lex.expect_byte(b'{').unwrap();
    let parsed = parse_typed_gadget_specs(&mut lex).expect("parses");
    assert_eq!(parsed, spec_stubs(&lib));
}

#[test]
fn typed_sections_are_written_line_by_line() {
    let text = write_str(&sample_table());
    assert_eq!(
        text,
        "typed_regions {\n\
         \x20 input p0 [0, 8) -> {0}\n\
         \x20 block_input b1 p0 [2, 5) -> {1}\n\
         \x20 func_input f2 p0 [0, 4) -> {2}\n\
         \x20 output o0 [1, 5) -> {0}\n\
         \x20 func_output f0 r1 [0, 2) -> {3}\n\
         \x20 storage S1 T3 [0, 4) -> {4}\n\
         }\n"
    );
}

#[test]
fn typed_section_errors() {
    let mut lex = Lexer::new("input p0 [0, 70000) -> {0} }");
    assert_eq!(
        parse_typed_region_entries(&mut lex),
        Err(ParseError::InvalidInt(String::from("range out of u16")))
    );
    let mut lex = Lexer::new("somewhere p0 [0, 1) -> {0} }");
    assert_eq!(
        parse_typed_region_entries(&mut lex),
        Err(ParseError::UnknownDirective(String::from("somewhere")))
    );
    let mut lex = Lexer::new("input p0 [0, 1) -> {} }");
    assert_eq!(
        parse_typed_region_entries(&mut lex),
        Err(ParseError::EmptyRegionSet)
    );
    let mut lex = Lexer::new("gadget \"g\" on {some=[0]} aux=[] }");
    assert_eq!(
        parse_typed_gadget_section(&mut lex),
        Err(ParseError::UnknownDirective(String::from("some")))
    );
}
