use vcbgen::config::Config;
use vcbgen::error::{BlueprintError, ParseError};
use vcbgen::generator::{compute_width, generate, generate_blueprint, max_write_index};
use vcbgen::ink::{InkLayer, RGBA};
use vcbgen::microcode::parse_instructions;

fn demo_config() -> Config {
    Config {
        opcodes: vec![("op".to_string(), 2)],
        microcode_map: vec![("LOAD".to_string(), 0), ("HALT".to_string(), 1)],
        counter_bit_length: 1,
        flags_bit_length: 0,
    }
}

const CROSS: RGBA = RGBA { r: 102, g: 120, b: 142, a: 255 };
const GRAY: RGBA = RGBA { r: 42, g: 53, b: 65, a: 255 };
const READ: RGBA = RGBA { r: 46, g: 71, b: 93, a: 255 };
const WRITE: RGBA = RGBA { r: 77, g: 56, b: 62, a: 255 };
const AND: RGBA = RGBA { r: 255, g: 198, b: 99, a: 255 };
const NOR: RGBA = RGBA { r: 48, g: 217, b: 255, a: 255 };
const TC_WHITE: RGBA = RGBA { r: 159, g: 168, b: 174, a: 255 };

fn demo_canvas() -> (InkLayer, u32, u32) {
    let cfg = demo_config();
    let instrs = parse_instructions("[op=1#]\n0 LOAD\n1 HALT", &cfg).unwrap();
    generate(&instrs, &cfg).unwrap()
}

#[test]
fn max_write_index_ignores_flag_lines() {
    let mut cfg = demo_config();
    cfg.microcode_map.push(("ZF".to_string(), -7));
    assert_eq!(max_write_index(&cfg), Some(1));
}

#[test]
fn max_write_index_none_without_write_lines() {
    let mut cfg = demo_config();
    cfg.microcode_map = vec![("ZF".to_string(), -1)];
    assert_eq!(max_write_index(&cfg), None);
    cfg.microcode_map = vec![];
    assert_eq!(max_write_index(&cfg), None);
}

#[test]
fn width_follows_the_formula() {
    // 4*2 opcode bits + 4*1 counter bit + 4*0 flag bits + 2*(1+1) outputs
    let cfg = demo_config();
    assert_eq!(compute_width(&cfg, 1), Some(16));
    let wide = Config {
        opcodes: vec![("a".to_string(), 3), ("b".to_string(), 5)],
        microcode_map: vec![("X".to_string(), 4)],
        counter_bit_length: 6,
        flags_bit_length: 2,
    };
    assert_eq!(compute_width(&wide, 4), Some(4 * 8 + 4 * 6 + 4 * 2 + 2 * 5));
}

#[test]
fn oversized_configuration_is_rejected() {
    let mut cfg = demo_config();
    cfg.counter_bit_length = u64::MAX / 2;
    assert_eq!(compute_width(&cfg, 1), None);
    let instrs = parse_instructions("[op=1#]", &cfg).unwrap();
    assert_eq!(generate(&instrs, &cfg).unwrap_err(), BlueprintError::Oversize);
}

#[test]
fn generate_without_write_lines_is_a_config_error() {
    let mut cfg = demo_config();
    cfg.microcode_map = vec![("ZF".to_string(), -1)];
    let instrs = parse_instructions("[op=1#]", &cfg).unwrap();
    assert_eq!(
        generate(&instrs, &cfg).unwrap_err(),
        BlueprintError::Parse(ParseError::MissingValue("microcodes".to_string()))
    );
}

#[test]
fn example_scenario_width_and_height() {
    let (canvas, width, height) = demo_canvas();
    assert_eq!(width, 16);
    assert_eq!(height, 4);
    assert_eq!(canvas.len(), 16 * 4);
}

#[test]
fn every_row_is_width_cells() {
    // Two operations, two rows each, all of the uniform width: the cell
    // count is width * height exactly, and each bus row starts where the
    // row raster expects it.
    let (canvas, width, height) = demo_canvas();
    assert_eq!(canvas.len(), (width * height) as usize);
    for op in [0u32, 1] {
        let start = (op * 2 * width) as usize;
        for p in 0..(width / 2) as usize {
            assert_eq!(canvas.get(start + 2 * p).copied(), Some(CROSS));
        }
    }
}

#[test]
fn polarity_alternates_across_rows() {
    // Operation 0 carries the AND (Match) gate, operation 1 the NOR
    // (Invert) gate, with no reset between them.
    let (canvas, width, _) = demo_canvas();
    let w = width as usize;
    assert_eq!(canvas.get(1).copied(), Some(AND));
    assert_eq!(canvas.get(w + 1).copied(), Some(AND));
    assert_eq!(canvas.get(2 * w + 1).copied(), Some(NOR));
    assert_eq!(canvas.get(3 * w + 1).copied(), Some(NOR));
}

#[test]
fn polarity_runs_on_across_instruction_boundaries() {
    let cfg = demo_config();
    let instrs = parse_instructions("[op=1#]\n0 LOAD\n[op=00]\n1 HALT", &cfg).unwrap();
    let (canvas, width, height) = generate(&instrs, &cfg).unwrap();
    assert_eq!(height, 4);
    let w = width as usize;
    assert_eq!(canvas.get(1).copied(), Some(AND));
    // The second instruction's only operation is the stream's second:
    // it keeps the flipped NOR gate.
    assert_eq!(canvas.get(2 * w + 1).copied(), Some(NOR));
}

#[test]
fn decode_row_cells_follow_the_state_table() {
    let (canvas, width, _) = demo_canvas();
    let w = width as usize;
    // Row 1 (Match polarity decode row): op pattern "1#", counter bit 0.
    let row = w;
    let cells: Vec<RGBA> = (0..16).map(|i| *canvas.get(row + i).unwrap()).collect();
    assert_eq!(
        cells,
        vec![
            // '1' under Match: neutral then read.
            GRAY, AND, READ, AND,
            // '#': neutral both sides.
            GRAY, AND, GRAY, AND,
            // counter bit 0 under Match: read then neutral.
            READ, AND, GRAY, AND,
            // output 0 asserted (LOAD), output lane 1 idle.
            WRITE, AND, TC_WHITE, AND,
        ]
    );
    // Row 3 (Invert polarity): the '1' pair swaps sides, the wildcard
    // pair does not change.
    let row3 = 3 * w;
    let cells3: Vec<RGBA> = (0..8).map(|i| *canvas.get(row3 + i).unwrap()).collect();
    assert_eq!(
        cells3,
        vec![READ, NOR, GRAY, NOR, GRAY, NOR, GRAY, NOR]
    );
}

#[test]
fn flag_cells_read_negative_indices_with_parity_pairing() {
    let cfg = Config {
        opcodes: vec![("op".to_string(), 1)],
        microcode_map: vec![("GO".to_string(), 0), ("ZF".to_string(), -1), ("CF".to_string(), -2)],
        counter_bit_length: 1,
        flags_bit_length: 1,
    };
    // width = 4 + 4 + 4 + 2 = 14; flag columns sit after opcode and
    // counter cells, at offsets 8 and 10 of each decode row.
    let instrs = parse_instructions("[op=1]\n0 GO ZF\n1 GO ZF", &cfg).unwrap();
    let (canvas, width, _) = generate(&instrs, &cfg).unwrap();
    assert_eq!(width, 14);
    let w = width as usize;
    // Match row: i runs 2 then 1, looking up -i, so ZF (-1) lights the
    // second flag column.
    assert_eq!(canvas.get(w + 8).copied(), Some(GRAY));
    assert_eq!(canvas.get(w + 10).copied(), Some(READ));
    // Invert row: each i is re-paired with its parity partner (2 reads
    // -1, 1 reads -2), so ZF moves to the first column there.
    assert_eq!(canvas.get(3 * w + 8).copied(), Some(READ));
    assert_eq!(canvas.get(3 * w + 10).copied(), Some(GRAY));
}

#[test]
fn idle_output_lanes_cycle_through_sixteen_colors() {
    let cfg = Config {
        opcodes: vec![("op".to_string(), 1)],
        microcode_map: vec![("X".to_string(), 17)],
        counter_bit_length: 1,
        flags_bit_length: 0,
    };
    let instrs = parse_instructions("[op=1]\n0 X", &cfg).unwrap();
    let (canvas, width, _) = generate(&instrs, &cfg).unwrap();
    assert_eq!(width, 4 + 4 + 2 * 18);
    let w = width as usize;
    // Outputs start after the opcode and counter cells, lane m at
    // offset 8 + 2m of the decode row.
    assert_eq!(canvas.get(w + 8).copied(), Some(GRAY)); // lane 0
    assert_eq!(canvas.get(w + 8 + 2).copied(), Some(TC_WHITE)); // lane 1
    assert_eq!(canvas.get(w + 8 + 32).copied(), Some(GRAY)); // lane 16 wraps
    assert_eq!(canvas.get(w + 8 + 34).copied(), Some(WRITE)); // lane 17 asserted
}

#[test]
fn counter_renders_as_fixed_width_binary() {
    let cfg = Config {
        opcodes: vec![("op".to_string(), 1)],
        microcode_map: vec![("X".to_string(), 0)],
        counter_bit_length: 4,
        flags_bit_length: 0,
    };
    let instrs = parse_instructions("[op=1]\n5 X", &cfg).unwrap();
    let (canvas, width, _) = generate(&instrs, &cfg).unwrap();
    assert_eq!(width, 4 + 16 + 2);
    let w = width as usize;
    // Counter 5 in four bits is 0101, most significant bit first; under
    // Match polarity a 0 reads on the left, a 1 on the right.
    let first_cell = |bit: usize| canvas.get(w + 4 + 4 * bit).copied().unwrap();
    assert_eq!(first_cell(0), READ); // 0
    assert_eq!(first_cell(1), GRAY); // 1
    assert_eq!(first_cell(2), READ); // 0
    assert_eq!(first_cell(3), GRAY); // 1
}

#[test]
fn zero_width_counter_accepts_only_zero() {
    let mut cfg = demo_config();
    cfg.counter_bit_length = 0;
    let instrs = parse_instructions("[op=1#]\n0 LOAD", &cfg).unwrap();
    let (_, width, height) = generate(&instrs, &cfg).unwrap();
    assert_eq!(width, 8 + 0 + 0 + 4);
    assert_eq!(height, 2);
    let e = parse_instructions("[op=1#]\n1 LOAD", &cfg).unwrap_err();
    assert_eq!(e, ParseError::CounterOverflow);
}

#[test]
fn blueprint_surfaces_parse_errors() {
    let cfg = demo_config();
    let e = generate_blueprint("[op=1#]\n9 LOAD", &cfg).unwrap_err();
    assert_eq!(e, BlueprintError::Parse(ParseError::CounterOverflow));
}
