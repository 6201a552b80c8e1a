use vstd::prelude::*;
use vstd::arithmetic::power2::pow2;
use vstd::string::StringExecFns;
use crate::blueprint::{generate_logic_blueprint, spec_blueprint_chars, zstd_of};
use crate::config::{Config, ConfigView};
use crate::error::{BlueprintError, BlueprintErrorView, ParseError, ParseErrorView};
use crate::ink::{Ink, InkLayer, RGBA, spec_layer_bytes, spec_trace_color, trace_color};
use crate::microcode::{
    Instruction, InstructionView, Operation, OperationView, State, parse_instructions,
    spec_parse_instructions,
};

verus! {

// ---------------------------------------------------------------------
// Preparatory computation: the largest configured write index and the
// uniform canvas width.
// ---------------------------------------------------------------------
/// The largest non-negative index in the microcode table; `None` when
/// the table configures no write line at all.
pub open spec fn spec_max_write_index(table: Seq<(Seq<char>, i64)>) -> Option<i64>
    decreases table.len(),
{
    if table.len() == 0 {
        None
    } else {
        let rest = spec_max_write_index(table.drop_last());
        let v = table.last().1;
        if v >= 0 {
            match rest {
                None => Some(v),
                Some(m) => if v >= m {
                    Some(v)
                } else {
                    Some(m)
                },
            }
        } else {
            rest
        }
    }
}

pub proof fn lemma_max_write_index_nonneg(table: Seq<(Seq<char>, i64)>)
    ensures
        spec_max_write_index(table) matches Some(m) ==> m >= 0,
    decreases table.len(),
{
    if table.len() > 0 {
        lemma_max_write_index_nonneg(table.drop_last());
    }
}

pub fn max_write_index(config: &Config) -> (r: Option<i64>)
    ensures
        r == spec_max_write_index(config@.microcode_map),
{
    let ghost table = config@.microcode_map;
    let n = config.microcode_map.len();
    let mut best: Option<i64> = None;
    let mut k: usize = 0;
    while k < n
        invariant
            n == config.microcode_map@.len(),
            k <= n,
            table == config@.microcode_map,
            best == spec_max_write_index(table.take(k as int)),
        decreases n - k,
    {
        proof {
            assert(table.take(k + 1 as int).drop_last() =~= table.take(k as int));
            assert(table.take(k + 1 as int).last() == table[k as int]);
        }
        let v = config.microcode_map[k].1;
        if v >= 0 {
            match best {
                None => {
                    best = Some(v);
                },
                Some(m) => {
                    if v >= m {
                        best = Some(v);
                    }
                },
            }
        }
        k = k + 1;
    }
    proof {
        assert(table.take(n as int) =~= table);
    }
    best
}

/// The total number of opcode pattern bits the configuration declares.
pub open spec fn spec_opcode_bits(fields: Seq<(Seq<char>, u64)>) -> int
    decreases fields.len(),
{
    if fields.len() == 0 {
        0
    } else {
        spec_opcode_bits(fields.drop_last()) + fields.last().1
    }
}

pub proof fn lemma_opcode_bits_nonneg(fields: Seq<(Seq<char>, u64)>)
    ensures
        spec_opcode_bits(fields) >= 0,
    decreases fields.len(),
{
    if fields.len() > 0 {
        lemma_opcode_bits_nonneg(fields.drop_last());
    }
}

proof fn lemma_opcode_bits_prefix(fields: Seq<(Seq<char>, u64)>, k: int)
    requires
        0 <= k <= fields.len(),
    ensures
        spec_opcode_bits(fields.take(k)) <= spec_opcode_bits(fields),
    decreases fields.len(),
{
    if k == fields.len() {
        assert(fields.take(k) =~= fields);
    } else if fields.len() > 0 {
        assert(fields.drop_last().take(k) =~= fields.take(k));
        lemma_opcode_bits_prefix(fields.drop_last(), k);
    }
}

/// The uniform canvas width: four cells per opcode bit, four per counter
/// bit, four per flag bit, and a two-cell output column per microcode
/// write line up to the largest configured index.
pub open spec fn spec_width(cfg: ConfigView, max_index: i64) -> int {
    4 * spec_opcode_bits(cfg.opcodes) + 4 * cfg.counter_bit_length + 4 * cfg.flags_bit_length + 2
        * (max_index + 1)
}

/// Computes the canvas width, or `None` where it would not fit the
/// chunk format's 32-bit width field.
#[verifier::loop_isolation(false)]
pub fn compute_width(config: &Config, max_index: i64) -> (r: Option<u32>)
    requires
        max_index >= 0,
    ensures
        r matches Some(w) ==> w as int == spec_width(config@, max_index),
        r is Some <==> spec_width(config@, max_index) <= u32::MAX,
{
    let ghost fields = config@.opcodes;
    let cap: u64 = 0xFFFF_FFFF;
    let n = config.opcodes.len();
    let mut bits: u64 = 0;
    let mut k: usize = 0;
    while k < n
        invariant
            n == config.opcodes@.len(),
            k <= n,
            fields == config@.opcodes,
            bits == spec_opcode_bits(fields.take(k as int)),
            bits <= cap,
            cap == 0xFFFF_FFFF,
        decreases n - k,
    {
        proof {
            assert(fields.take(k + 1 as int).drop_last() =~= fields.take(k as int));
            assert(fields.take(k + 1 as int).last() == fields[k as int]);
        }
        let w = config.opcodes[k].1;
        if w > cap - bits {
            proof {
                lemma_opcode_bits_prefix(fields, k + 1);
                assert(spec_opcode_bits(fields.take(k + 1 as int)) == bits + w);
                assert(spec_opcode_bits(config@.opcodes) > 0xFFFF_FFFFu64);
                assert(4 * spec_opcode_bits(config@.opcodes) > 4 * 0xFFFF_FFFFint);
                assert(4 * config@.counter_bit_length >= 0);
                assert(4 * config@.flags_bit_length >= 0);
                assert(2 * (max_index + 1) >= 2);
                assert(spec_width(config@, max_index) > u32::MAX);
            }
            return None;
        }
        bits = bits + w;
        k = k + 1;
    }
    proof {
        assert(fields.take(n as int) =~= fields);
    }
    if config.counter_bit_length > cap || config.flags_bit_length > cap {
        return None;
    }
    let mi_u: u64 = max_index as u64;
    if mi_u > cap {
        return None;
    }
    let total: u64 = 4 * bits + 4 * config.counter_bit_length + 4 * config.flags_bit_length + 2 * (
    mi_u + 1);
    if total > cap {
        None
    } else {
        Some(total as u32)
    }
}

// ---------------------------------------------------------------------
// The canvas, cell by cell.
// ---------------------------------------------------------------------
/// Whether the operation's resolved line set holds the index `x`.
pub open spec fn spec_ops_contains(ops: Seq<i64>, x: int) -> bool {
    exists|q: int| 0 <= q < ops.len() && (#[trigger] ops[q]) as int == x
}

pub fn micro_ops_contains(ops: &Vec<i64>, x: i64) -> (b: bool)
    ensures
        b == spec_ops_contains(ops@, x as int),
{
    let n = ops.len();
    let mut k: usize = 0;
    while k < n
        invariant
            n == ops@.len(),
            k <= n,
            forall|q: int| 0 <= q < k ==> (#[trigger] ops@[q]) != x,
        decreases n - k,
    {
        if ops[k] == x {
            return true;
        }
        k = k + 1;
    }
    false
}

/// Gate-mode color of the row pair of the `n`th operation (0-indexed):
/// AND (`Match` polarity) on even rows, NOR (`Invert`) on odd ones.
pub open spec fn spec_gate_of(n: nat) -> RGBA {
    if n % 2 == 0 {
        Ink::spec_and()
    } else {
        Ink::spec_nor()
    }
}

/// The four cells of one ternary comparator: a concrete bit puts the
/// flag-read pin on the side its polarity selects, a wildcard is
/// neutral on both sides.
pub open spec fn spec_state_cells(state: State, gate: RGBA) -> Seq<RGBA> {
    if gate == Ink::spec_and() {
        match state {
            State::True => seq![Ink::spec_tc_gray(), gate, Ink::spec_read(), gate],
            State::False => seq![Ink::spec_read(), gate, Ink::spec_tc_gray(), gate],
            State::Any => seq![Ink::spec_tc_gray(), gate, Ink::spec_tc_gray(), gate],
        }
    } else {
        match state {
            State::False => seq![Ink::spec_tc_gray(), gate, Ink::spec_read(), gate],
            State::True => seq![Ink::spec_read(), gate, Ink::spec_tc_gray(), gate],
            State::Any => seq![Ink::spec_tc_gray(), gate, Ink::spec_tc_gray(), gate],
        }
    }
}

pub open spec fn spec_states_cells(states: Seq<State>, gate: RGBA) -> Seq<RGBA>
    decreases states.len(),
{
    if states.len() == 0 {
        Seq::empty()
    } else {
        spec_states_cells(states.drop_last(), gate) + spec_state_cells(states.last(), gate)
    }
}

/// Appends the comparator cells of one state vector to the canvas.
pub fn append_state_vec_to_ink_layer(state_vec: &Vec<State>, ink_layer: &mut InkLayer, gate_ink: RGBA)
    ensures
        final(ink_layer)@ == old(ink_layer)@ + spec_states_cells(state_vec@, gate_ink),
{
    let n = state_vec.len();
    let mut k: usize = 0;
    while k < n
        invariant
            n == state_vec@.len(),
            k <= n,
            ink_layer@ == old(ink_layer)@ + spec_states_cells(state_vec@.take(k as int), gate_ink),
        decreases n - k,
    {
        proof {
            assert(state_vec@.take(k + 1 as int).drop_last() =~= state_vec@.take(k as int));
            assert(state_vec@.take(k + 1 as int).last() == state_vec@[k as int]);
        }
        let ghost before = ink_layer@;
        if gate_ink == Ink::and() {
            match state_vec[k] {
                State::True => {
                    ink_layer.push_ink(Ink::tc_gray());
                    ink_layer.push_ink(gate_ink);
                    ink_layer.push_ink(Ink::read());
                    ink_layer.push_ink(gate_ink);
                },
                State::False => {
                    ink_layer.push_ink(Ink::read());
                    ink_layer.push_ink(gate_ink);
                    ink_layer.push_ink(Ink::tc_gray());
                    ink_layer.push_ink(gate_ink);
                },
                State::Any => {
                    ink_layer.push_ink(Ink::tc_gray());
                    ink_layer.push_ink(gate_ink);
                    ink_layer.push_ink(Ink::tc_gray());
                    ink_layer.push_ink(gate_ink);
                },
            }
        } else {
            match state_vec[k] {
                State::False => {
                    ink_layer.push_ink(Ink::tc_gray());
                    ink_layer.push_ink(gate_ink);
                    ink_layer.push_ink(Ink::read());
                    ink_layer.push_ink(gate_ink);
                },
                State::True => {
                    ink_layer.push_ink(Ink::read());
                    ink_layer.push_ink(gate_ink);
                    ink_layer.push_ink(Ink::tc_gray());
                    ink_layer.push_ink(gate_ink);
                },
                State::Any => {
                    ink_layer.push_ink(Ink::tc_gray());
                    ink_layer.push_ink(gate_ink);
                    ink_layer.push_ink(Ink::tc_gray());
                    ink_layer.push_ink(gate_ink);
                },
            }
        }
        proof {
            assert(ink_layer@ =~= before + spec_state_cells(state_vec@[k as int], gate_ink));
            assert(ink_layer@ =~= old(ink_layer)@ + spec_states_cells(
                state_vec@.take(k + 1 as int),
                gate_ink,
            ));
        }
        k = k + 1;
    }
    proof {
        assert(state_vec@.take(n as int) =~= state_vec@);
    }
}

/// Bit `k` (most significant first) of a counter rendered in `bits`
/// binary digits.
pub open spec fn spec_counter_bit(counter: u32, bits: nat, k: int) -> State {
    if ((counter as nat) / pow2((bits - 1 - k) as nat)) % 2 == 1 {
        State::True
    } else {
        State::False
    }
}

/// The counter as a fixed-width, zero-padded binary state vector with
/// no wildcards.
pub open spec fn spec_counter_states(counter: u32, bits: nat) -> Seq<State> {
    Seq::new(bits, |k: int| spec_counter_bit(counter, bits, k))
}

/// Renders the counter as its fixed-width binary state vector.
pub fn counter_states(counter: u32, bits: u64) -> (v: Vec<State>)
    ensures
        v@ == spec_counter_states(counter, bits as nat),
{
    let mut v: Vec<State> = Vec::new();
    let mut k: u64 = 0;
    while k < bits
        invariant
            k <= bits,
            v@.len() == k,
            forall|q: int| 0 <= q < k ==> v@[q] == spec_counter_bit(counter, bits as nat, q),
        decreases bits - k,
    {
        let shift = bits - 1 - k;
        let bit: u64 = if shift >= 64 {
            proof {
                vstd::arithmetic::power2::lemma2_to64();
                vstd::arithmetic::power2::lemma_pow2_strictly_increases(32, shift as nat);
                vstd::arithmetic::div_mod::lemma_basic_div(
                    counter as int,
                    pow2(shift as nat) as int,
                );
                assert((counter as nat) / pow2(shift as nat) % 2 == 0);
            }
            0
        } else {
            let y: u64 = (counter as u64) >> shift;
            proof {
                vstd::bits::lemma_u64_shr_is_div(counter as u64, shift);
                assert(y == (counter as nat) / pow2(shift as nat));
                assert(y & 1 == y % 2) by (bit_vector);
            }
            y & 1
        };
        proof {
            assert(bit as nat == ((counter as nat) / pow2(shift as nat)) % 2);
        }
        if bit == 1 {
            v.push(State::True);
        } else {
            v.push(State::False);
        }
        k = k + 1;
    }
    proof {
        assert(v@ =~= spec_counter_states(counter, bits as nat));
    }
    v
}

/// One bus row: `pairs` repetitions of the feedthrough cell paired with
/// the row's gate color.
pub open spec fn spec_bus_row(pairs: nat, gate: RGBA) -> Seq<RGBA>
    decreases pairs,
{
    if pairs == 0 {
        Seq::empty()
    } else {
        spec_bus_row((pairs - 1) as nat, gate) + seq![Ink::spec_cross(), gate]
    }
}

/// The comparator cells of all opcode fields, in configured order.
pub open spec fn spec_fields_cells(opcodes: Seq<Seq<State>>, gate: RGBA) -> Seq<RGBA>
    decreases opcodes.len(),
{
    if opcodes.len() == 0 {
        Seq::empty()
    } else {
        spec_fields_cells(opcodes.drop_last(), gate) + spec_states_cells(opcodes.last(), gate)
    }
}

/// Flag-check cells for positions `i` down to 1. Under `Invert`
/// polarity each position is re-paired with its parity partner so a
/// flag's half-pair keeps its physical column on either polarity.
pub open spec fn spec_flag_cells_from(ops: Seq<i64>, i: int, gate: RGBA) -> Seq<RGBA>
    decreases i,
{
    if i < 1 {
        Seq::empty()
    } else {
        let idx: int = if gate == Ink::spec_and() {
            i
        } else if i % 2 == 0 {
            i - 1
        } else {
            i + 1
        };
        let cell = if spec_ops_contains(ops, -idx) {
            Ink::spec_read()
        } else {
            Ink::spec_tc_gray()
        };
        seq![cell, gate] + spec_flag_cells_from(ops, i - 1, gate)
    }
}

/// Output cells for write indices 0 to `count - 1`: an asserted line is
/// the write pin, an unasserted one its lane's cycling bus color.
pub open spec fn spec_output_cells(ops: Seq<i64>, count: int, gate: RGBA) -> Seq<RGBA>
    decreases count,
{
    if count <= 0 {
        Seq::empty()
    } else {
        let idx = count - 1;
        let cell = if spec_ops_contains(ops, idx) {
            Ink::spec_write()
        } else {
            spec_trace_color(idx)
        };
        spec_output_cells(ops, idx, gate) + seq![cell, gate]
    }
}

/// The two canvas rows of one operation: a bus row, then the decode and
/// output row.
pub open spec fn spec_op_cells(
    opcodes: Seq<Seq<State>>,
    op: OperationView,
    cfg: ConfigView,
    max_index: i64,
    width: u32,
    gate: RGBA,
) -> Seq<RGBA> {
    spec_bus_row((width / 2) as nat, gate) + spec_fields_cells(opcodes, gate) + spec_states_cells(
        spec_counter_states(op.counter, cfg.counter_bit_length as nat),
        gate,
    ) + spec_flag_cells_from(op.micro_operations, 2 * cfg.flags_bit_length, gate)
        + spec_output_cells(op.micro_operations, max_index + 1, gate)
}

/// The cells of one instruction's operations, the first of which is the
/// `n0`th operation of the whole canvas.
pub open spec fn spec_instr_cells(
    iv: InstructionView,
    n0: nat,
    cfg: ConfigView,
    max_index: i64,
    width: u32,
) -> Seq<RGBA>
    decreases iv.operations.len(),
{
    if iv.operations.len() == 0 {
        Seq::empty()
    } else {
        spec_instr_cells(
            InstructionView { opcodes: iv.opcodes, operations: iv.operations.drop_last() },
            n0,
            cfg,
            max_index,
            width,
        ) + spec_op_cells(
            iv.opcodes,
            iv.operations.last(),
            cfg,
            max_index,
            width,
            spec_gate_of((n0 + iv.operations.len() - 1) as nat),
        )
    }
}

/// The total number of operations across all instructions.
pub open spec fn spec_total_ops(instrs: Seq<InstructionView>) -> nat
    decreases instrs.len(),
{
    if instrs.len() == 0 {
        0
    } else {
        spec_total_ops(instrs.drop_last()) + instrs.last().operations.len()
    }
}

pub proof fn lemma_total_ops_prefix(instrs: Seq<InstructionView>, k: int)
    requires
        0 <= k <= instrs.len(),
    ensures
        spec_total_ops(instrs.take(k)) <= spec_total_ops(instrs),
    decreases instrs.len(),
{
    if k == instrs.len() {
        assert(instrs.take(k) =~= instrs);
    } else if instrs.len() > 0 {
        assert(instrs.drop_last().take(k) =~= instrs.take(k));
        lemma_total_ops_prefix(instrs.drop_last(), k);
    }
}

/// The whole canvas: two rows per operation, operations flattened
/// across all instructions in order, their gate polarity alternating
/// continuously across instruction boundaries.
pub open spec fn spec_canvas(
    instrs: Seq<InstructionView>,
    cfg: ConfigView,
    max_index: i64,
    width: u32,
) -> Seq<RGBA>
    decreases instrs.len(),
{
    if instrs.len() == 0 {
        Seq::empty()
    } else {
        spec_canvas(instrs.drop_last(), cfg, max_index, width) + spec_instr_cells(
            instrs.last(),
            spec_total_ops(instrs.drop_last()),
            cfg,
            max_index,
            width,
        )
    }
}

/// Ghost form of an instruction list.
pub open spec fn spec_views(instrs: Seq<Instruction>) -> Seq<InstructionView> {
    instrs.map(|q: int, ins: Instruction| ins@)
}

/// Walks the parsed instructions and emits the decode-matrix canvas,
/// its uniform width, and its height of two rows per operation.
#[verifier::loop_isolation(false)]
#[verifier::rlimit(100)]
pub fn generate(instructions: &Vec<Instruction>, config: &Config) -> (r: Result<
    (InkLayer, u32, u32),
    BlueprintError,
>)
    ensures
        (match spec_max_write_index(config@.microcode_map) {
            None => r matches Err(e) && e@ == BlueprintErrorView::Parse(
                ParseErrorView::MissingValue("microcodes"@),
            ),
            Some(mi) => {
                if spec_width(config@, mi) <= u32::MAX && 2 * spec_total_ops(
                    spec_views(instructions@),
                ) <= u32::MAX {
                    r matches Ok(t) && t.1 as int == spec_width(config@, mi) && t.2 as int == 2
                        * spec_total_ops(spec_views(instructions@)) && t.0@ == spec_canvas(
                        spec_views(instructions@),
                        config@,
                        mi,
                        t.1,
                    )
                } else {
                    r matches Err(e) && e@ == BlueprintErrorView::Oversize
                }
            },
        }),
{
    let max_index = match max_write_index(config) {
        Some(m) => m,
        None => {
            return Err(
                BlueprintError::Parse(ParseError::MissingValue(String::from_str("microcodes"))),
            );
        },
    };
    proof {
        lemma_max_write_index_nonneg(config@.microcode_map);
    }
    let width = match compute_width(config, max_index) {
        Some(w) => w,
        None => {
            return Err(BlueprintError::Oversize);
        },
    };
    proof {
        lemma_opcode_bits_nonneg(config@.opcodes);
    }
    let mut ink_buffer = InkLayer::empty();
    let mut height: u32 = 0;
    let ghost ivs = spec_views(instructions@);
    let icount = instructions.len();
    let mut a: usize = 0;
    while a < icount
        invariant
            a <= icount,
            ink_buffer@ == spec_canvas(ivs.take(a as int), config@, max_index, width),
            height as int == 2 * spec_total_ops(ivs.take(a as int)),
        decreases icount - a,
    {
        let instr = &instructions[a];
        let ghost iv = instr@;
        proof {
            assert(ivs[a as int] == iv);
        }
        let ocount = instr.operations.len();
        let ghost n0 = spec_total_ops(ivs.take(a as int));
        let mut b2: usize = 0;
        while b2 < ocount
            invariant
                b2 <= ocount,
                ocount == iv.operations.len(),
                ink_buffer@ == spec_canvas(ivs.take(a as int), config@, max_index, width)
                    + spec_instr_cells(
                    InstructionView { opcodes: iv.opcodes, operations: iv.operations.take(
                        b2 as int,
                    ) },
                    n0,
                    config@,
                    max_index,
                    width,
                ),
                height as int == 2 * (n0 + b2),
            decreases ocount - b2,
        {
            if height > u32::MAX - 2 {
                proof {
                    assert(ivs.take(a + 1 as int).drop_last() =~= ivs.take(a as int));
                    assert(ivs.take(a + 1 as int).last() == iv);
                    assert(spec_total_ops(ivs.take(a + 1 as int)) == n0 + iv.operations.len());
                    lemma_total_ops_prefix(ivs, a + 1);
                }
                return Err(BlueprintError::Oversize);
            }
            let gate_ink = if (height / 2) % 2 == 0 {
                Ink::and()
            } else {
                Ink::nor()
            };
            proof {
                assert(gate_ink == spec_gate_of((n0 + b2) as nat));
            }
            let op = &instr.operations[b2];
            proof {
                assert(iv.operations[b2 as int] == op@);
            }
            let ghost base_op = ink_buffer@;
            // Bus row: width/2 feedthrough pairs.
            let pairs = width / 2;
            let mut p: u32 = 0;
            while p < pairs
                invariant
                    p <= pairs,
                    ink_buffer@ == base_op + spec_bus_row(p as nat, gate_ink),
                decreases pairs - p,
            {
                ink_buffer.push_ink(Ink::cross());
                ink_buffer.push_ink(gate_ink);
                proof {
                    assert(ink_buffer@ =~= base_op + spec_bus_row((p + 1) as nat, gate_ink));
                }
                p = p + 1;
            }
            // Decode row: opcode fields, counter bits, flag checks, outputs.
            let ghost base_fields = ink_buffer@;
            let fcount = instr.opcodes.len();
            let mut f: usize = 0;
            while f < fcount
                invariant
                    f <= fcount,
                    fcount == instr.opcodes@.len(),
                    ink_buffer@ == base_fields + spec_fields_cells(
                        iv.opcodes.take(f as int),
                        gate_ink,
                    ),
                decreases fcount - f,
            {
                append_state_vec_to_ink_layer(&instr.opcodes[f], &mut ink_buffer, gate_ink);
                proof {
                    assert(iv.opcodes.take(f + 1 as int).drop_last() =~= iv.opcodes.take(f as int));
                    assert(iv.opcodes.take(f + 1 as int).last() == iv.opcodes[f as int]);
                    assert(iv.opcodes[f as int] == instr.opcodes@[f as int]@);
                }
                f = f + 1;
            }
            proof {
                assert(iv.opcodes.take(fcount as int) =~= iv.opcodes);
            }
            let cvec = counter_states(op.counter, config.counter_bit_length);
            append_state_vec_to_ink_layer(&cvec, &mut ink_buffer, gate_ink);
            let ghost base_flags = ink_buffer@;
            proof {
                assert(4 * config@.flags_bit_length <= spec_width(config@, max_index));
            }
            let two_fbl: u64 = 2 * config.flags_bit_length;
            let mut fi: u64 = two_fbl;
            while fi >= 1
                invariant
                    fi <= two_fbl,
                    ink_buffer@ + spec_flag_cells_from(op@.micro_operations, fi as int, gate_ink)
                        == base_flags + spec_flag_cells_from(
                        op@.micro_operations,
                        two_fbl as int,
                        gate_ink,
                    ),
                decreases fi,
            {
                let idx: u64 = if gate_ink == Ink::and() {
                    fi
                } else if fi % 2 == 0 {
                    fi - 1
                } else {
                    fi + 1
                };
                let active = micro_ops_contains(&op.micro_operations, -(idx as i64));
                let ghost before = ink_buffer@;
                if active {
                    ink_buffer.push_ink(Ink::read());
                } else {
                    ink_buffer.push_ink(Ink::tc_gray());
                }
                ink_buffer.push_ink(gate_ink);
                proof {
                    let cells = spec_flag_cells_from(op@.micro_operations, fi as int, gate_ink);
                    let rest = spec_flag_cells_from(op@.micro_operations, fi - 1 as int, gate_ink);
                    assert(ink_buffer@ =~= before + cells.take(2));
                    assert(cells =~= cells.take(2) + rest);
                    assert(ink_buffer@ + rest =~= before + cells);
                }
                fi = fi - 1;
            }
            proof {
                assert(spec_flag_cells_from(op@.micro_operations, 0, gate_ink) =~= Seq::<
                    RGBA,
                >::empty());
                assert(ink_buffer@ =~= base_flags + spec_flag_cells_from(
                    op@.micro_operations,
                    two_fbl as int,
                    gate_ink,
                ));
            }
            let ghost base_out = ink_buffer@;
            proof {
                assert(2 * (max_index + 1) <= spec_width(config@, max_index));
            }
            let count: u64 = max_index as u64 + 1;
            let mut oi: u64 = 0;
            while oi < count
                invariant
                    oi <= count,
                    ink_buffer@ == base_out + spec_output_cells(
                        op@.micro_operations,
                        oi as int,
                        gate_ink,
                    ),
                decreases count - oi,
            {
                let active = micro_ops_contains(&op.micro_operations, oi as i64);
                if active {
                    ink_buffer.push_ink(Ink::write());
                } else {
                    ink_buffer.push_ink(trace_color(oi));
                }
                ink_buffer.push_ink(gate_ink);
                proof {
                    assert(ink_buffer@ =~= base_out + spec_output_cells(
                        op@.micro_operations,
                        oi + 1 as int,
                        gate_ink,
                    ));
                }
                oi = oi + 1;
            }
            height = height + 2;
            proof {
                assert(ink_buffer@ =~= base_op + spec_op_cells(
                    iv.opcodes,
                    op@,
                    config@,
                    max_index,
                    width,
                    gate_ink,
                ));
                let pv1 = InstructionView {
                    opcodes: iv.opcodes,
                    operations: iv.operations.take(b2 + 1 as int),
                };
                assert(pv1.operations.drop_last() =~= iv.operations.take(b2 as int));
                assert(pv1.operations.last() == op@);
                assert(spec_instr_cells(pv1, n0, config@, max_index, width) == spec_instr_cells(
                    InstructionView { opcodes: iv.opcodes, operations: iv.operations.take(
                        b2 as int,
                    ) },
                    n0,
                    config@,
                    max_index,
                    width,
                ) + spec_op_cells(iv.opcodes, op@, config@, max_index, width, gate_ink));
            }
            b2 = b2 + 1;
        }
        proof {
            assert(iv.operations.take(ocount as int) =~= iv.operations);
            assert(InstructionView {
                opcodes: iv.opcodes,
                operations: iv.operations.take(ocount as int),
            } == iv);
            assert(ivs.take(a + 1 as int).drop_last() =~= ivs.take(a as int));
            assert(ivs.take(a + 1 as int).last() == iv);
        }
        a = a + 1;
    }
    proof {
        assert(ivs.take(icount as int) =~= ivs);
    }
    Ok((ink_buffer, width, height))
}

// ---------------------------------------------------------------------
// Laws of the generated canvas.
// ---------------------------------------------------------------------
/// An instruction fits a configuration when it has one state vector per
/// configured opcode field, each of that field's configured width.
pub open spec fn spec_instr_wf(iv: InstructionView, cfg: ConfigView) -> bool {
    iv.opcodes.len() == cfg.opcodes.len() && (forall|k: int|
        0 <= k < iv.opcodes.len() ==> (#[trigger] iv.opcodes[k]).len() == cfg.opcodes[k].1)
}

pub proof fn lemma_bus_row_len(pairs: nat, gate: RGBA)
    ensures
        spec_bus_row(pairs, gate).len() == 2 * pairs,
    decreases pairs,
{
    if pairs > 0 {
        lemma_bus_row_len((pairs - 1) as nat, gate);
    }
}

pub proof fn lemma_states_cells_len(states: Seq<State>, gate: RGBA)
    ensures
        spec_states_cells(states, gate).len() == 4 * states.len(),
    decreases states.len(),
{
    if states.len() > 0 {
        lemma_states_cells_len(states.drop_last(), gate);
    }
}

pub proof fn lemma_fields_cells_len(opcodes: Seq<Seq<State>>, fields: Seq<(Seq<char>, u64)>, gate: RGBA)
    requires
        opcodes.len() == fields.len(),
        forall|k: int| 0 <= k < opcodes.len() ==> (#[trigger] opcodes[k]).len() == fields[k].1,
    ensures
        spec_fields_cells(opcodes, gate).len() == 4 * spec_opcode_bits(fields),
    decreases opcodes.len(),
{
    if opcodes.len() > 0 {
        lemma_fields_cells_len(opcodes.drop_last(), fields.drop_last(), gate);
        lemma_states_cells_len(opcodes.last(), gate);
    }
}

pub proof fn lemma_flag_cells_len(ops: Seq<i64>, i: int, gate: RGBA)
    requires
        i >= 0,
    ensures
        spec_flag_cells_from(ops, i, gate).len() == 2 * i,
    decreases i,
{
    if i >= 1 {
        lemma_flag_cells_len(ops, i - 1, gate);
    }
}

pub proof fn lemma_output_cells_len(ops: Seq<i64>, count: int, gate: RGBA)
    requires
        count >= 0,
    ensures
        spec_output_cells(ops, count, gate).len() == 2 * count,
    decreases count,
{
    if count > 0 {
        lemma_output_cells_len(ops, count - 1, gate);
    }
}

/// Both rows of an operation are exactly `width` cells wide, where
/// `width` is `4 * (sum of opcode field widths) + 4 * counter bits +
/// 4 * flag bits + 2 * (max write index + 1)`.
pub proof fn lemma_row_widths(
    opcodes: Seq<Seq<State>>,
    op: OperationView,
    cfg: ConfigView,
    max_index: i64,
    width: u32,
    gate: RGBA,
)
    requires
        opcodes.len() == cfg.opcodes.len(),
        forall|k: int| 0 <= k < opcodes.len() ==> (#[trigger] opcodes[k]).len() == cfg.opcodes[k].1,
        max_index >= 0,
        width == spec_width(cfg, max_index),
    ensures
        spec_bus_row((width / 2) as nat, gate).len() == width,
        spec_fields_cells(opcodes, gate).len() + spec_states_cells(
            spec_counter_states(op.counter, cfg.counter_bit_length as nat),
            gate,
        ).len() + spec_flag_cells_from(op.micro_operations, 2 * cfg.flags_bit_length, gate).len()
            + spec_output_cells(op.micro_operations, max_index + 1, gate).len() == width,
        spec_op_cells(opcodes, op, cfg, max_index, width, gate).len() == 2 * width,
{
    lemma_bus_row_len((width / 2) as nat, gate);
    lemma_fields_cells_len(opcodes, cfg.opcodes, gate);
    lemma_states_cells_len(spec_counter_states(op.counter, cfg.counter_bit_length as nat), gate);
    lemma_flag_cells_len(op.micro_operations, 2 * cfg.flags_bit_length, gate);
    lemma_output_cells_len(op.micro_operations, max_index + 1, gate);
}

pub proof fn lemma_instr_cells_len(
    iv: InstructionView,
    n0: nat,
    cfg: ConfigView,
    max_index: i64,
    width: u32,
)
    requires
        spec_instr_wf(iv, cfg),
        max_index >= 0,
        width == spec_width(cfg, max_index),
    ensures
        spec_instr_cells(iv, n0, cfg, max_index, width).len() == 2 * width
            * iv.operations.len(),
    decreases iv.operations.len(),
{
    if iv.operations.len() > 0 {
        let prev = InstructionView { opcodes: iv.opcodes, operations: iv.operations.drop_last() };
        lemma_instr_cells_len(prev, n0, cfg, max_index, width);
        lemma_row_widths(
            iv.opcodes,
            iv.operations.last(),
            cfg,
            max_index,
            width,
            spec_gate_of((n0 + iv.operations.len() - 1) as nat),
        );
        assert(2 * width * iv.operations.len() == 2 * width * (iv.operations.len() - 1) + 2
            * width) by (nonlinear_arith);
    }
}

/// The whole canvas holds `width * height` cells, with `height` two
/// rows per operation across all instructions.
pub proof fn lemma_canvas_len(
    instrs: Seq<InstructionView>,
    cfg: ConfigView,
    max_index: i64,
    width: u32,
)
    requires
        forall|k: int| 0 <= k < instrs.len() ==> spec_instr_wf(#[trigger] instrs[k], cfg),
        max_index >= 0,
        width == spec_width(cfg, max_index),
    ensures
        spec_canvas(instrs, cfg, max_index, width).len() == width * (2 * spec_total_ops(instrs)),
    decreases instrs.len(),
{
    if instrs.len() == 0 {
        assert(width * (2 * spec_total_ops(instrs)) == 0) by (nonlinear_arith)
            requires
                spec_total_ops(instrs) == 0,
        ;
    } else {
        lemma_canvas_len(instrs.drop_last(), cfg, max_index, width);
        lemma_instr_cells_len(
            instrs.last(),
            spec_total_ops(instrs.drop_last()),
            cfg,
            max_index,
            width,
        );
        let a = spec_total_ops(instrs.drop_last()) as int;
        let b = instrs.last().operations.len() as int;
        let t = spec_total_ops(instrs) as int;
        assert(t == a + b);
        assert(spec_canvas(instrs, cfg, max_index, width).len() == width * (2 * a) + 2 * width
            * b);
        assert(width * (2 * t) == width * (2 * a) + 2 * width * b) by (nonlinear_arith)
            requires
                t == a + b,
        ;
    }
}

/// Gate polarity of the `n`th operation of the flattened stream
/// (0-indexed, equivalently the `N = n + 1`th 1-indexed) is the AND
/// (`Match`) gate exactly when `N` is odd, and it flips at every
/// operation, never resetting at an instruction boundary.
pub proof fn lemma_polarity_alternation(n: nat)
    ensures
        spec_gate_of(n) == Ink::spec_and() <==> n % 2 == 0,
        spec_gate_of((n + 1) as nat) != spec_gate_of(n),
{
}

/// Each operation's cells inside an instruction stand at consecutive
/// `2 * width` slices, and the `k`th local operation of an instruction
/// whose first operation is the stream's `n0`th uses the polarity of global
/// index `n0 + k`: polarity runs on through the whole stream.
pub proof fn lemma_instr_cells_slices(
    iv: InstructionView,
    n0: nat,
    cfg: ConfigView,
    max_index: i64,
    width: u32,
    k: int,
)
    requires
        spec_instr_wf(iv, cfg),
        max_index >= 0,
        width == spec_width(cfg, max_index),
        0 <= k < iv.operations.len(),
    ensures
        spec_instr_cells(iv, n0, cfg, max_index, width).subrange(
            2 * width * k,
            2 * width * (k + 1),
        ) == spec_op_cells(
            iv.opcodes,
            iv.operations[k],
            cfg,
            max_index,
            width,
            spec_gate_of((n0 + k) as nat),
        ),
    decreases iv.operations.len(),
{
    let whole = spec_instr_cells(iv, n0, cfg, max_index, width);
    let prev = InstructionView { opcodes: iv.opcodes, operations: iv.operations.drop_last() };
    lemma_instr_cells_len(iv, n0, cfg, max_index, width);
    lemma_instr_cells_len(prev, n0, cfg, max_index, width);
    let last_gate = spec_gate_of((n0 + iv.operations.len() - 1) as nat);
    lemma_row_widths(iv.opcodes, iv.operations.last(), cfg, max_index, width, last_gate);
    assert(2 * width * iv.operations.len() == 2 * width * (iv.operations.len() - 1) + 2 * width)
        by (nonlinear_arith);
    if k == iv.operations.len() - 1 {
        assert(whole.subrange(2 * width * k, 2 * width * (k + 1)) =~= spec_op_cells(
            iv.opcodes,
            iv.operations[k],
            cfg,
            max_index,
            width,
            last_gate,
        ));
    } else {
        lemma_instr_cells_slices(prev, n0, cfg, max_index, width, k);
        assert(2 * width * (k + 1) <= 2 * width * (iv.operations.len() - 1))
            by (nonlinear_arith)
            requires
                0 <= k,
                k + 1 <= iv.operations.len() - 1,
                width >= 0,
        ;
        assert(0 <= 2 * width * k <= 2 * width * (k + 1)) by (nonlinear_arith)
            requires
                0 <= k,
                width >= 0,
        ;
        assert(whole.subrange(2 * width * k, 2 * width * (k + 1)) =~= spec_instr_cells(
            prev,
            n0,
            cfg,
            max_index,
            width,
        ).subrange(2 * width * k, 2 * width * (k + 1)));
        assert(iv.operations[k] == prev.operations[k]);
    }
}

/// The `n`th operation of the whole stream — `n` counted across
/// instruction boundaries, `k`th local operation of instruction `a` —
/// occupies the canvas slice `[2 * width * n, 2 * width * (n + 1))`
/// with the polarity of `n`, which is never reset between
/// instructions.
pub proof fn lemma_canvas_slices(
    instrs: Seq<InstructionView>,
    cfg: ConfigView,
    max_index: i64,
    width: u32,
    a: int,
    k: int,
)
    requires
        forall|m: int| 0 <= m < instrs.len() ==> spec_instr_wf(#[trigger] instrs[m], cfg),
        max_index >= 0,
        width == spec_width(cfg, max_index),
        0 <= a < instrs.len(),
        0 <= k < instrs[a].operations.len(),
    ensures
        ({
            let n = spec_total_ops(instrs.take(a)) + k;
            spec_canvas(instrs, cfg, max_index, width).subrange(
                2 * width * n,
                2 * width * (n + 1),
            ) == spec_op_cells(
                instrs[a].opcodes,
                instrs[a].operations[k],
                cfg,
                max_index,
                width,
                spec_gate_of(n as nat),
            )
        }),
    decreases instrs.len(),
{
    let n = spec_total_ops(instrs.take(a)) + k;
    let whole = spec_canvas(instrs, cfg, max_index, width);
    let head = spec_canvas(instrs.drop_last(), cfg, max_index, width);
    let n0 = spec_total_ops(instrs.drop_last());
    let tail = spec_instr_cells(instrs.last(), n0, cfg, max_index, width);
    lemma_canvas_len(instrs.drop_last(), cfg, max_index, width);
    lemma_instr_cells_len(instrs.last(), n0, cfg, max_index, width);
    if a == instrs.len() - 1 {
        assert(instrs.take(a) =~= instrs.drop_last());
        lemma_instr_cells_slices(instrs.last(), n0, cfg, max_index, width, k);
        assert(2 * width * n == width * (2 * n0) + 2 * width * k && 2 * width * (n + 1) == width
            * (2 * n0) + 2 * width * (k + 1) && 2 * width * (k + 1) <= 2 * width
            * instrs.last().operations.len() && 0 <= 2 * width * k <= 2 * width * (k + 1))
            by (nonlinear_arith)
            requires
                n == n0 + k,
                0 <= k,
                k + 1 <= instrs.last().operations.len(),
                width >= 0,
                n0 >= 0,
        ;
        assert(whole.subrange(2 * width * n, 2 * width * (n + 1)) =~= tail.subrange(
            2 * width * k,
            2 * width * (k + 1),
        ));
    } else {
        lemma_canvas_slices(instrs.drop_last(), cfg, max_index, width, a, k);
        assert(instrs.drop_last().take(a) =~= instrs.take(a));
        assert(instrs.drop_last()[a] == instrs[a]);
        lemma_total_ops_prefix(instrs.drop_last(), a + 1);
        assert(instrs.drop_last().take(a + 1).drop_last() =~= instrs.take(a));
        assert(spec_total_ops(instrs.drop_last().take(a + 1)) == spec_total_ops(instrs.take(a))
            + instrs[a].operations.len());
        assert(2 * width * (n + 1) <= width * (2 * n0)) by (nonlinear_arith)
            requires
                n + 1 <= n0,
                width >= 0,
        ;
        assert(0 <= 2 * width * n <= 2 * width * (n + 1)) by (nonlinear_arith)
            requires
                n >= 0,
                width >= 0,
        ;
        assert(whole.subrange(2 * width * n, 2 * width * (n + 1)) =~= head.subrange(
            2 * width * n,
            2 * width * (n + 1),
        ));
    }
}

/// A wildcard state always emits the identical symmetric neutral pair,
/// under either gate-mode; a concrete `True` or `False` state never
/// does: its pair is asymmetric, and swaps sides between the two gate
/// modes.
pub proof fn lemma_wildcard_symmetry(g1: RGBA, g2: RGBA)
    ensures
        spec_state_cells(State::Any, g1)[0] == Ink::spec_tc_gray(),
        spec_state_cells(State::Any, g1)[2] == Ink::spec_tc_gray(),
        spec_state_cells(State::Any, g1)[0] == spec_state_cells(State::Any, g2)[0],
        spec_state_cells(State::Any, g1)[2] == spec_state_cells(State::Any, g2)[2],
        spec_state_cells(State::True, g1)[0] != spec_state_cells(State::True, g1)[2],
        spec_state_cells(State::False, g1)[0] != spec_state_cells(State::False, g1)[2],
        spec_state_cells(State::True, Ink::spec_and())[0] != spec_state_cells(
            State::True,
            Ink::spec_nor(),
        )[0],
{
}

/// What the parser builds fits the configuration: under unique field
/// names, every state vector of a parsed instruction has its field's
/// configured width, the omitted ones being all-wildcard vectors.
pub proof fn lemma_parsed_opcodes_wf(
    items: Seq<(Seq<char>, Seq<char>)>,
    cfg: ConfigView,
)
    requires
        cfg.wf(),
        crate::microcode::spec_check_items(items, cfg.opcodes, 0) is None,
    ensures
        forall|k: int|
            0 <= k < cfg.opcodes.len() ==> (#[trigger] crate::microcode::spec_instruction_opcodes(
                items,
                cfg.opcodes,
            )[k]).len() == cfg.opcodes[k].1,
{
    let built = crate::microcode::spec_instruction_opcodes(items, cfg.opcodes);
    assert forall|k: int| 0 <= k < cfg.opcodes.len() implies (#[trigger] built[k]).len()
        == cfg.opcodes[k].1 by {
        match crate::microcode::spec_last_pattern(items, cfg.opcodes[k].0) {
            None => {},
            Some(p) => {
                lemma_last_pattern_found(items, cfg.opcodes[k].0);
                let idx = choose|idx: int|
                    0 <= idx < items.len() && items[idx].0 == cfg.opcodes[k].0 && items[idx].1
                        == p;
                lemma_check_items_each(items, cfg.opcodes, 0, idx);
                lemma_field_width_unique(cfg.opcodes, k);
            },
        }
    }
}

proof fn lemma_last_pattern_found(items: Seq<(Seq<char>, Seq<char>)>, name: Seq<char>)
    ensures
        crate::microcode::spec_last_pattern(items, name) matches Some(p) ==> exists|idx: int|
            0 <= idx < items.len() && (#[trigger] items[idx]).0 == name && items[idx].1 == p,
    decreases items.len(),
{
    if items.len() > 0 {
        if items.last().0 == name {
            assert(items[items.len() - 1].0 == name);
        } else {
            lemma_last_pattern_found(items.drop_last(), name);
            match crate::microcode::spec_last_pattern(items.drop_last(), name) {
                Some(p) => {
                    let idx = choose|idx: int|
                        0 <= idx < items.drop_last().len() && (#[trigger] items.drop_last()[idx]).0
                            == name && items.drop_last()[idx].1 == p;
                    assert(items[idx].0 == name && items[idx].1 == p);
                },
                None => {},
            }
        }
    }
}

proof fn lemma_check_items_each(
    items: Seq<(Seq<char>, Seq<char>)>,
    fields: Seq<(Seq<char>, u64)>,
    k: int,
    idx: int,
)
    requires
        0 <= k <= idx < items.len(),
        crate::microcode::spec_check_items(items, fields, k) is None,
    ensures
        crate::config::spec_field_width(fields, items[idx].0) matches Some(w) && items[idx].1.len()
            == w,
    decreases idx - k,
{
    if k < idx {
        lemma_check_items_each(items, fields, k + 1, idx);
    }
}

proof fn lemma_field_width_unique(fields: Seq<(Seq<char>, u64)>, k: int)
    requires
        0 <= k < fields.len(),
        forall|i: int, j: int|
            0 <= i < j < fields.len() ==> (#[trigger] fields[i]).0 != (#[trigger] fields[j]).0,
    ensures
        crate::config::spec_field_width(fields, fields[k].0) == Some(fields[k].1),
{
    lemma_field_lookup_from(fields, k, 0);
}

proof fn lemma_field_lookup_from(fields: Seq<(Seq<char>, u64)>, k: int, j: int)
    requires
        0 <= j <= k < fields.len(),
        forall|i1: int, i2: int|
            0 <= i1 < i2 < fields.len() ==> (#[trigger] fields[i1]).0 != (#[trigger] fields[i2]).0,
    ensures
        crate::config::spec_field_lookup(fields, fields[k].0, j) == Some(fields[k].1),
    decreases k - j,
{
    if j < k {
        assert(fields[j].0 != fields[k].0);
        lemma_field_lookup_from(fields, k, j + 1);
    }
}

/// Under unique configured field names, every instruction a successful
/// parse yields fits the configuration, so the canvas and row width
/// laws apply to it.
pub proof fn lemma_parsed_instruction_wf(s: Seq<char>, i: int, cfg: ConfigView)
    requires
        cfg.wf(),
    ensures
        crate::microcode::spec_parse_instruction_at(s, i, cfg) matches Ok(r) ==> spec_instr_wf(
            r.1,
            cfg,
        ),
{
    match crate::microcode::spec_parse_opcode_block(s, i) {
        Some(b) => {
            if crate::microcode::spec_check_items(b.1, cfg.opcodes, 0) is None {
                lemma_parsed_opcodes_wf(b.1, cfg);
            }
        },
        None => {},
    }
}

/// The same, over the whole parsed stream.
pub proof fn lemma_parsed_stream_wf(s: Seq<char>, i: int, cfg: ConfigView)
    requires
        cfg.wf(),
        0 <= i <= s.len(),
    ensures
        crate::microcode::spec_parse_stream(s, i, cfg) matches Ok(ivs) ==> forall|k: int|
            0 <= k < ivs.len() ==> spec_instr_wf(#[trigger] ivs[k], cfg),
    decreases s.len() - i,
{
    if i < s.len() {
        lemma_parsed_instruction_wf(s, i, cfg);
        match crate::microcode::spec_parse_instruction_at(s, i, cfg) {
            Ok(r) => {
                let k2 = crate::scan::spec_ws_end(s, true, r.0);
                if i < k2 && k2 <= s.len() {
                    lemma_parsed_stream_wf(s, k2, cfg);
                    match crate::microcode::spec_parse_stream(s, k2, cfg) {
                        Ok(rest) => {
                            let ivs = seq![r.1] + rest;
                            assert forall|k: int| 0 <= k < ivs.len() implies spec_instr_wf(
                                #[trigger] ivs[k],
                                cfg,
                            ) by {
                                if k > 0 {
                                    assert(ivs[k] == rest[k - 1]);
                                }
                            }
                        },
                        Err(_) => {},
                    }
                }
            },
            Err(_) => {},
        }
    }
}

/// The same, for the whole text.
pub proof fn lemma_parsed_instructions_wf(s: Seq<char>, cfg: ConfigView)
    requires
        cfg.wf(),
    ensures
        spec_parse_instructions(s, cfg) matches Ok(ivs) ==> forall|k: int|
            0 <= k < ivs.len() ==> spec_instr_wf(#[trigger] ivs[k], cfg),
{
    crate::scan::lemma_ws_end_bounds(s, true, 0, false);
    lemma_parsed_stream_wf(s, crate::scan::spec_ws_end(s, true, 0), cfg);
}

/// Compiles instruction text against a configuration into the final
/// blueprint string: parse, generate, then encode.
pub fn generate_blueprint(input: &str, config: &Config) -> (r: Result<String, BlueprintError>)
    ensures
        (match spec_parse_instructions(input@, config@) {
            Err(pe) => r matches Err(e) && e@ == BlueprintErrorView::Parse(pe),
            Ok(ivs) => (match spec_max_write_index(config@.microcode_map) {
                None => r matches Err(e) && e@ == BlueprintErrorView::Parse(
                    ParseErrorView::MissingValue("microcodes"@),
                ),
                Some(mi) => {
                    if spec_width(config@, mi) <= u32::MAX && 2 * spec_total_ops(ivs)
                        <= u32::MAX {
                        let canvas = spec_canvas(ivs, config@, mi, spec_width(config@, mi) as u32);
                        (r matches Ok(s) ==> s@ == spec_blueprint_chars(
                            canvas,
                            spec_width(config@, mi) as u32,
                            (2 * spec_total_ops(ivs)) as u32,
                        )) && (r matches Err(e) ==> e@ == BlueprintErrorView::Oversize || e@
                            == BlueprintErrorView::Compression) && ((r matches Err(e) && e@
                            == BlueprintErrorView::Oversize) ==> 4 * canvas.len() > u32::MAX
                            || zstd_of(spec_layer_bytes(canvas)).len() + 12 > u32::MAX || 20
                            + zstd_of(spec_layer_bytes(canvas)).len() > (usize::MAX - 4) / 4)
                    } else {
                        r matches Err(e) && e@ == BlueprintErrorView::Oversize
                    }
                },
            }),
        }),
{
    let instructions = match parse_instructions(input, config) {
        Ok(v) => v,
        Err(e) => {
            return Err(BlueprintError::Parse(e));
        },
    };
    proof {
        match spec_parse_instructions(input@, config@) {
            Ok(ivs) => {
                assert(spec_views(instructions@) =~= ivs);
            },
            Err(_) => {
                assert(false);
            },
        }
    }
    let (ink_buffer, width, height) = match generate(&instructions, config) {
        Ok(t) => t,
        Err(e) => {
            return Err(e);
        },
    };
    generate_logic_blueprint(&ink_buffer, width, height)
}

} // verus!
