use vcbgen::config::Config;
use vcbgen::error::ParseError;
use vcbgen::microcode::{parse_instruction, parse_instructions, str_to_state_vec, State};

fn demo_config() -> Config {
    Config {
        opcodes: vec![("op".to_string(), 2)],
        microcode_map: vec![("LOAD".to_string(), 0), ("HALT".to_string(), 1)],
        counter_bit_length: 1,
        flags_bit_length: 0,
    }
}

fn wide_config() -> Config {
    Config {
        opcodes: vec![("op".to_string(), 2), ("addr".to_string(), 3)],
        microcode_map: vec![
            ("LOAD".to_string(), 0),
            ("HALT".to_string(), 1),
            ("ZF".to_string(), -1),
        ],
        counter_bit_length: 4,
        flags_bit_length: 1,
    }
}

#[test]
fn state_vec_parses_ternary_pattern() {
    let v = str_to_state_vec("10#").unwrap();
    assert_eq!(v, vec![State::True, State::False, State::Any]);
}

#[test]
fn state_vec_rejects_other_characters() {
    let e = str_to_state_vec("10x").unwrap_err();
    assert_eq!(e, ParseError::Formatting);
}

#[test]
fn state_default_is_false() {
    assert_eq!(State::default(), State::False);
}

#[test]
fn example_scenario_parses() {
    let cfg = demo_config();
    let text = "[op=1#]\n0 LOAD\n1 HALT";
    let instrs = parse_instructions(text, &cfg).unwrap();
    assert_eq!(instrs.len(), 1);
    assert_eq!(instrs[0].opcodes, vec![vec![State::True, State::Any]]);
    assert_eq!(instrs[0].operations.len(), 2);
    assert_eq!(instrs[0].operations[0].counter, 0);
    assert_eq!(instrs[0].operations[0].micro_operations, vec![0]);
    assert_eq!(instrs[0].operations[1].counter, 1);
    assert_eq!(instrs[0].operations[1].micro_operations, vec![1]);
}

#[test]
fn parse_instruction_returns_remainder() {
    let cfg = demo_config();
    let text = "[op=1#]\n0 LOAD\n[op=01]\n1 HALT";
    let (rest, instr) = parse_instruction(text, &cfg).unwrap();
    assert_eq!(instr.operations.len(), 1);
    assert_eq!(rest, "\n[op=01]\n1 HALT");
}

#[test]
fn omitted_field_defaults_to_wildcards() {
    let cfg = wide_config();
    let text = "[addr=010]\n0 LOAD";
    let instrs = parse_instructions(text, &cfg).unwrap();
    assert_eq!(
        instrs[0].opcodes,
        vec![
            vec![State::Any, State::Any],
            vec![State::False, State::True, State::False],
        ]
    );
}

#[test]
fn empty_block_defaults_every_field() {
    let cfg = demo_config();
    let instrs = parse_instructions("[]\n0 LOAD", &cfg).unwrap();
    assert_eq!(instrs[0].opcodes, vec![vec![State::Any, State::Any]]);
}

#[test]
fn fields_follow_configured_order() {
    let cfg = wide_config();
    let text = "[addr=111 op=00]\n0 LOAD";
    let instrs = parse_instructions(text, &cfg).unwrap();
    assert_eq!(
        instrs[0].opcodes,
        vec![
            vec![State::False, State::False],
            vec![State::True, State::True, State::True],
        ]
    );
}

#[test]
fn later_duplicate_field_wins() {
    let cfg = demo_config();
    let instrs = parse_instructions("[op=00 op=11]\n0 LOAD", &cfg).unwrap();
    assert_eq!(instrs[0].opcodes, vec![vec![State::True, State::True]]);
}

#[test]
fn comments_are_whitespace() {
    let cfg = demo_config();
    let text = "// header\n[op=1#] // fields\n0 LOAD // first row\n1 HALT\n// trailing";
    let instrs = parse_instructions(text, &cfg).unwrap();
    assert_eq!(instrs[0].operations.len(), 2);
}

#[test]
fn several_instructions_parse_in_order() {
    let cfg = demo_config();
    let text = "[op=00]\n0 LOAD\n[op=11]\n1 HALT";
    let instrs = parse_instructions(text, &cfg).unwrap();
    assert_eq!(instrs.len(), 2);
    assert_eq!(instrs[0].opcodes, vec![vec![State::False, State::False]]);
    assert_eq!(instrs[1].opcodes, vec![vec![State::True, State::True]]);
}

#[test]
fn unknown_field_name_is_rejected() {
    let cfg = demo_config();
    let e = parse_instructions("[bogus=1]\n0 LOAD", &cfg).unwrap_err();
    assert_eq!(e, ParseError::MissingOpcode("bogus".to_string()));
}

#[test]
fn wrong_pattern_width_is_rejected() {
    let cfg = demo_config();
    let e = parse_instructions("[op=101]\n0 LOAD", &cfg).unwrap_err();
    assert_eq!(e, ParseError::OpcodeLength("op".to_string()));
}

#[test]
fn malformed_block_is_rejected() {
    let cfg = demo_config();
    let e = parse_instructions("[op 1#]\n0 LOAD", &cfg).unwrap_err();
    assert_eq!(e, ParseError::OpcodeFormatting);
}

#[test]
fn missing_bracket_is_rejected() {
    let cfg = demo_config();
    let e = parse_instructions("0 LOAD", &cfg).unwrap_err();
    assert_eq!(e, ParseError::OpcodeFormatting);
}

#[test]
fn unknown_symbol_is_rejected_never_defaulted() {
    let cfg = demo_config();
    let e = parse_instructions("[op=1#]\n0 LOAD FOO", &cfg).unwrap_err();
    assert_eq!(e, ParseError::MissingInstruction("FOO".to_string()));
}

#[test]
fn operation_line_without_symbols_is_rejected() {
    let cfg = demo_config();
    let e = parse_instructions("[op=1#]\nLOAD", &cfg).unwrap_err();
    assert_eq!(e, ParseError::InstructionFormatting);
}

#[test]
fn counter_at_address_space_size_is_rejected() {
    let cfg = demo_config();
    let e = parse_instructions("[op=1#]\n2 LOAD", &cfg).unwrap_err();
    assert_eq!(e, ParseError::CounterOverflow);
}

#[test]
fn counter_just_inside_address_space_is_accepted() {
    let cfg = demo_config();
    let instrs = parse_instructions("[op=1#]\n1 LOAD", &cfg).unwrap();
    assert_eq!(instrs[0].operations[0].counter, 1);
}

#[test]
fn sixteen_bit_counter_boundary() {
    let mut cfg = demo_config();
    cfg.counter_bit_length = 16;
    let instrs = parse_instructions("[op=1#]\n65535 LOAD", &cfg).unwrap();
    assert_eq!(instrs[0].operations[0].counter, 65535);
    let e = parse_instructions("[op=1#]\n65536 LOAD", &cfg).unwrap_err();
    assert_eq!(e, ParseError::CounterOverflow);
}

#[test]
fn counter_beyond_u32_is_a_formatting_error() {
    let mut cfg = demo_config();
    cfg.counter_bit_length = 40;
    let e = parse_instructions("[op=1#]\n4294967296 LOAD", &cfg).unwrap_err();
    assert_eq!(e, ParseError::CounterFormatting);
}

#[test]
fn flag_symbols_resolve_to_negative_indices() {
    let cfg = wide_config();
    let instrs = parse_instructions("[op=1#]\n0 LOAD ZF", &cfg).unwrap();
    assert_eq!(instrs[0].operations[0].micro_operations, vec![0, -1]);
}

#[test]
fn empty_input_parses_to_no_instructions() {
    let cfg = demo_config();
    let instrs = parse_instructions("", &cfg).unwrap();
    assert!(instrs.is_empty());
    let instrs = parse_instructions("  \n// just a comment\n", &cfg).unwrap();
    assert!(instrs.is_empty());
}

#[test]
fn block_with_no_operations_is_accepted() {
    let cfg = demo_config();
    let instrs = parse_instructions("[op=1#]", &cfg).unwrap();
    assert_eq!(instrs.len(), 1);
    assert!(instrs[0].operations.is_empty());
}

#[test]
fn error_messages_name_the_offender() {
    assert_eq!(
        ParseError::MissingInstruction("FOO".to_string()).message(),
        "Instruction 'FOO' doesn't exist"
    );
    assert_eq!(
        ParseError::MissingOpcode("bogus".to_string()).message(),
        "Opcode 'bogus' doesn't exist"
    );
    assert_eq!(ParseError::CounterOverflow.message(), "Counter overflow");
    assert_eq!(
        ParseError::DataType("opcodes".to_string()).message(),
        "Invalid data type for 'opcodes'"
    );
    assert_eq!(
        ParseError::MissingValue("microcodes".to_string()).message(),
        "Value 'microcodes' doesn't exist"
    );
    assert_eq!(ParseError::Formatting.message(), "Invalid formatting");
}
