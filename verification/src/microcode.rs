use vstd::prelude::*;
use vstd::arithmetic::power2::pow2;
use vstd::string::StrSliceExecFns;
use crate::config::{
    Config, ConfigView, lookup_micro_index, lookup_opcode_width, spec_field_width,
    spec_micro_index,
};
use crate::error::{ParseError, ParseErrorView};
use crate::scan::{
    CharClass, char_in_class, lemma_scan_bounds, lemma_ws_end_bounds, parse_u32, scan, spec_scan,
    spec_char_in_class, spec_dec_val, spec_ws_end, token, ws_end,
};

verus! {

/// Ternary value for one bit of an opcode or counter pattern: a concrete
/// bit (`True` / `False`) or a wildcard (`Any`) that matches either level.
#[derive(Debug, Clone, Copy, PartialEq, Eq, Structural)]
pub enum State {
    True,
    False,
    Any,
}

impl Default for State {
    fn default() -> (s: Self)
        ensures
            s == State::False,
    {
        State::False
    }
}

pub open spec fn spec_state_of(c: char) -> State {
    if c == '0' {
        State::False
    } else if c == '1' {
        State::True
    } else {
        State::Any
    }
}

/// The state vector denoted by a pattern of `{0,1,#}` characters.
pub open spec fn spec_states(pattern: Seq<char>) -> Seq<State> {
    pattern.map(|i: int, c: char| spec_state_of(c))
}

pub open spec fn spec_pattern_ok(pattern: Seq<char>) -> bool {
    forall|k: int|
        0 <= k < pattern.len() ==> spec_char_in_class(#[trigger] pattern[k], CharClass::Pattern)
}

/// Turns a ternary pattern into its state vector; any character outside
/// `{0,1,#}` is a formatting error.
pub fn str_to_state_vec(input: &str) -> (r: Result<Vec<State>, ParseError>)
    ensures
        spec_pattern_ok(input@) ==> (r matches Ok(v) && v@ == spec_states(input@)),
        !spec_pattern_ok(input@) ==> (r matches Err(e) && e@ == ParseErrorView::Formatting),
{
    let n = input.unicode_len();
    let mut result: Vec<State> = Vec::new();
    let mut i: usize = 0;
    while i < n
        invariant
            i <= n,
            n == input@.len(),
            result@ == spec_states(input@.take(i as int)),
            forall|k: int|
                0 <= k < i ==> spec_char_in_class(#[trigger] input@[k], CharClass::Pattern),
        decreases n - i,
    {
        let ch = input.get_char(i);
        if ch == '0' {
            result.push(State::False);
        } else if ch == '1' {
            result.push(State::True);
        } else if ch == '#' {
            result.push(State::Any);
        } else {
            assert(!spec_pattern_ok(input@));
            return Err(ParseError::Formatting);
        }
        proof {
            assert(result@ =~= spec_states(input@.take(i + 1 as int)));
        }
        i = i + 1;
    }
    proof {
        assert(input@.take(n as int) =~= input@);
    }
    Ok(result)
}

/// Ghost form of `Operation`.
pub struct OperationView {
    pub counter: u32,
    pub micro_operations: Seq<i64>,
}

/// One decode-matrix row: an explicit counter address and the set of
/// resolved microcode line indices active on that row.
#[derive(Debug, Clone)]
pub struct Operation {
    pub counter: u32,
    pub micro_operations: Vec<i64>,
}

impl View for Operation {
    type V = OperationView;

    open spec fn view(&self) -> OperationView {
        OperationView { counter: self.counter, micro_operations: self.micro_operations@ }
    }
}

/// Ghost form of `Instruction`.
pub struct InstructionView {
    pub opcodes: Seq<Seq<State>>,
    pub operations: Seq<OperationView>,
}

/// One decode group: a state vector per configured opcode field, in
/// configured order, and the ordered operations of the group.
#[derive(Debug, Clone)]
pub struct Instruction {
    pub opcodes: Vec<Vec<State>>,
    pub operations: Vec<Operation>,
}

impl View for Instruction {
    type V = InstructionView;

    open spec fn view(&self) -> InstructionView {
        InstructionView {
            opcodes: self.opcodes@.map(|i: int, v: Vec<State>| v@),
            operations: self.operations@.map(|i: int, o: Operation| o@),
        }
    }
}

impl Instruction {
    pub fn new() -> (r: Self)
        ensures
            r@.opcodes == Seq::<Seq<State>>::empty(),
            r@.operations == Seq::<OperationView>::empty(),
    {
        let r = Instruction { opcodes: Vec::new(), operations: Vec::new() };
        proof {
            assert(r@.opcodes =~= Seq::<Seq<State>>::empty());
            assert(r@.operations =~= Seq::<OperationView>::empty());
        }
        r
    }
}

// ---------------------------------------------------------------------
// The grammar, stated over character sequences. Each function returns
// the position one past what it consumed, together with what it parsed.
// ---------------------------------------------------------------------
/// One `name = pattern` field inside a bracket block.
pub open spec fn spec_parse_opcode(s: Seq<char>, i: int) -> Option<(int, (Seq<char>, Seq<char>))> {
    let we = spec_scan(s, CharClass::Word, i);
    if we <= i {
        None
    } else {
        let j = spec_ws_end(s, false, we);
        if j < s.len() && s[j] == '=' {
            let k = spec_ws_end(s, false, j + 1);
            let pe = spec_scan(s, CharClass::Pattern, k);
            if pe <= k {
                None
            } else {
                Some((pe, (s.subrange(i, we), s.subrange(k, pe))))
            }
        } else {
            None
        }
    }
}

/// A non-empty, whitespace-separated run of fields.
pub open spec fn spec_parse_opcode_items(s: Seq<char>, i: int) -> Option<
    (int, Seq<(Seq<char>, Seq<char>)>),
>
    decreases s.len() - i,
{
    match spec_parse_opcode(s, i) {
        None => None,
        Some((e, item)) => {
            if i < e {
                let j = spec_ws_end(s, false, e);
                if e < j && spec_parse_opcode(s, j) is Some {
                    match spec_parse_opcode_items(s, j) {
                        Some((end, rest)) => Some((end, seq![item] + rest)),
                        None => Some((e, seq![item])),
                    }
                } else {
                    Some((e, seq![item]))
                }
            } else {
                None
            }
        },
    }
}

/// A whole bracket block `[ field* ]`; `None` is an `OpcodeFormatting`
/// error.
pub open spec fn spec_parse_opcode_block(s: Seq<char>, i: int) -> Option<
    (int, Seq<(Seq<char>, Seq<char>)>),
> {
    if 0 <= i && i < s.len() && s[i] == '[' {
        let j = spec_ws_end(s, false, i + 1);
        if spec_parse_opcode(s, j) is Some {
            match spec_parse_opcode_items(s, j) {
                Some((e, items)) => {
                    let k = spec_ws_end(s, false, e);
                    if k < s.len() && s[k] == ']' {
                        Some((k + 1, items))
                    } else {
                        None
                    }
                },
                None => None,
            }
        } else {
            if j < s.len() && s[j] == ']' {
                Some((j + 1, Seq::empty()))
            } else {
                None
            }
        }
    } else {
        None
    }
}

/// The first name-resolution or width error among the parsed fields,
/// scanning from `k`, if any.
pub open spec fn spec_check_items(
    items: Seq<(Seq<char>, Seq<char>)>,
    fields: Seq<(Seq<char>, u64)>,
    k: int,
) -> Option<ParseErrorView>
    decreases items.len() - k,
{
    if k < 0 || k >= items.len() {
        None
    } else {
        match spec_field_width(fields, items[k].0) {
            None => Some(ParseErrorView::MissingOpcode(items[k].0)),
            Some(w) => {
                if items[k].1.len() != w {
                    Some(ParseErrorView::OpcodeLength(items[k].0))
                } else {
                    spec_check_items(items, fields, k + 1)
                }
            },
        }
    }
}

/// The pattern the block gives for field `name`; with several, the last
/// one wins.
pub open spec fn spec_last_pattern(items: Seq<(Seq<char>, Seq<char>)>, name: Seq<char>) -> Option<
    Seq<char>,
>
    decreases items.len(),
{
    if items.len() == 0 {
        None
    } else if items.last().0 == name {
        Some(items.last().1)
    } else {
        spec_last_pattern(items.drop_last(), name)
    }
}

/// The state vectors of one instruction, one per configured field in
/// configured order; a field the block omits defaults to all wildcards
/// of its configured width.
pub open spec fn spec_instruction_opcodes(
    items: Seq<(Seq<char>, Seq<char>)>,
    fields: Seq<(Seq<char>, u64)>,
) -> Seq<Seq<State>> {
    Seq::new(
        fields.len(),
        |k: int|
            match spec_last_pattern(items, fields[k].0) {
                Some(p) => spec_states(p),
                None => Seq::new(fields[k].1 as nat, |m: int| State::Any),
            },
    )
}

/// A non-empty, whitespace-separated run of symbol tokens.
pub open spec fn spec_parse_symbols(s: Seq<char>, i: int) -> Option<(int, Seq<Seq<char>>)>
    decreases s.len() - i,
{
    let e = spec_scan(s, CharClass::Word, i);
    if e <= i {
        None
    } else {
        let j = spec_ws_end(s, false, e);
        if e < j && spec_scan(s, CharClass::Word, j) > j {
            match spec_parse_symbols(s, j) {
                Some((end, syms)) => Some((end, seq![s.subrange(i, e)] + syms)),
                None => Some((e, seq![s.subrange(i, e)])),
            }
        } else {
            Some((e, seq![s.subrange(i, e)]))
        }
    }
}

/// Resolves each symbol token against the microcode table, scanning from
/// `k`; an unconfigured token is an error, never defaulted.
pub open spec fn spec_resolve_symbols(
    syms: Seq<Seq<char>>,
    table: Seq<(Seq<char>, i64)>,
    k: int,
) -> Result<Seq<i64>, ParseErrorView>
    decreases syms.len() - k,
{
    if k < 0 || k >= syms.len() {
        Ok(Seq::empty())
    } else {
        match spec_micro_index(table, syms[k]) {
            None => Err(ParseErrorView::MissingInstruction(syms[k])),
            Some(v) => match spec_resolve_symbols(syms, table, k + 1) {
                Ok(rest) => Ok(seq![v] + rest),
                Err(e) => Err(e),
            },
        }
    }
}

/// One operation line: a decimal counter, whitespace, and one or more
/// symbols.
pub open spec fn spec_parse_operation_line(s: Seq<char>, i: int, cfg: ConfigView) -> Result<
    (int, OperationView),
    ParseErrorView,
> {
    let de = spec_scan(s, CharClass::Digit, i);
    if de <= i {
        Err(ParseErrorView::InstructionFormatting)
    } else {
        let j = spec_ws_end(s, false, de);
        if j <= de {
            Err(ParseErrorView::InstructionFormatting)
        } else {
            match spec_parse_symbols(s, j) {
                None => Err(ParseErrorView::InstructionFormatting),
                Some((end, syms)) => {
                    if spec_dec_val(s.subrange(i, de)) > u32::MAX {
                        Err(ParseErrorView::CounterFormatting)
                    } else {
                        match spec_resolve_symbols(syms, cfg.microcode_map, 0) {
                            Err(e) => Err(e),
                            Ok(ops) => Ok(
                                (
                                    end,
                                    OperationView {
                                        counter: spec_dec_val(s.subrange(i, de)) as u32,
                                        micro_operations: ops,
                                    },
                                ),
                            ),
                        }
                    }
                },
            }
        }
    }
}

/// Whether a counter value fits the configured address space.
pub open spec fn spec_counter_fits(c: u32, bits: u64) -> bool {
    bits >= 32 || (c as nat) < pow2(bits as nat)
}

/// The operation lines that follow a bracket block, up to the next
/// block or the end of the input. The returned position leaves any
/// trailing whitespace unconsumed.
pub open spec fn spec_parse_operations(s: Seq<char>, i: int, cfg: ConfigView) -> Result<
    (int, Seq<OperationView>),
    ParseErrorView,
>
    decreases s.len() - i,
{
    let j = spec_ws_end(s, true, i);
    if j >= s.len() || s[j] == '[' {
        Ok((i, Seq::empty()))
    } else if j <= i {
        Err(ParseErrorView::InstructionFormatting)
    } else {
        match spec_parse_operation_line(s, j, cfg) {
            Err(e) => Err(e),
            Ok((e2, op)) => {
                if !spec_counter_fits(op.counter, cfg.counter_bit_length) {
                    Err(ParseErrorView::CounterOverflow)
                } else if j < e2 && e2 <= s.len() {
                    match spec_parse_operations(s, e2, cfg) {
                        Err(e) => Err(e),
                        Ok((end, rest)) => Ok((end, seq![op] + rest)),
                    }
                } else {
                    Err(ParseErrorView::InstructionFormatting)
                }
            },
        }
    }
}

/// One whole instruction starting at `i`: a bracket block, its
/// resolution against the configuration, and its operation lines.
pub open spec fn spec_parse_instruction_at(s: Seq<char>, i: int, cfg: ConfigView) -> Result<
    (int, InstructionView),
    ParseErrorView,
> {
    match spec_parse_opcode_block(s, i) {
        None => Err(ParseErrorView::OpcodeFormatting),
        Some((b, items)) => match spec_check_items(items, cfg.opcodes, 0) {
            Some(e) => Err(e),
            None => match spec_parse_operations(s, b, cfg) {
                Err(e) => Err(e),
                Ok((end, ops)) => Ok(
                    (
                        end,
                        InstructionView {
                            opcodes: spec_instruction_opcodes(items, cfg.opcodes),
                            operations: ops,
                        },
                    ),
                ),
            },
        },
    }
}

/// The instruction stream from `i` to the end of the input.
pub open spec fn spec_parse_stream(s: Seq<char>, i: int, cfg: ConfigView) -> Result<
    Seq<InstructionView>,
    ParseErrorView,
>
    decreases s.len() - i,
{
    if i >= s.len() {
        Ok(Seq::empty())
    } else {
        match spec_parse_instruction_at(s, i, cfg) {
            Err(e) => Err(e),
            Ok((k, instr)) => {
                let k2 = spec_ws_end(s, true, k);
                if i < k2 && k2 <= s.len() {
                    match spec_parse_stream(s, k2, cfg) {
                        Err(e) => Err(e),
                        Ok(rest) => Ok(seq![instr] + rest),
                    }
                } else {
                    Err(ParseErrorView::OpcodeFormatting)
                }
            },
        }
    }
}

/// The whole text: optional leading whitespace, then the stream.
pub open spec fn spec_parse_instructions(s: Seq<char>, cfg: ConfigView) -> Result<
    Seq<InstructionView>,
    ParseErrorView,
> {
    spec_parse_stream(s, spec_ws_end(s, true, 0), cfg)
}

// ---------------------------------------------------------------------
// Every parser consumes what it parsed: the returned position lies
// strictly past its start and within the input. Patterns that a parse
// yields hold `{0,1,#}` characters only.
// ---------------------------------------------------------------------
proof fn lemma_parse_opcode_pos(s: Seq<char>, i: int)
    requires
        0 <= i <= s.len(),
    ensures
        spec_parse_opcode(s, i) matches Some(r) ==> i < r.0 <= s.len() && spec_pattern_ok(r.1.1),
{
    lemma_scan_bounds(s, CharClass::Word, i);
    let we = spec_scan(s, CharClass::Word, i);
    if i < we {
        lemma_ws_end_bounds(s, false, we, false);
        let j = spec_ws_end(s, false, we);
        if j < s.len() && s[j] == '=' {
            lemma_ws_end_bounds(s, false, j + 1, false);
            let k = spec_ws_end(s, false, j + 1);
            lemma_scan_bounds(s, CharClass::Pattern, k);
            let pe = spec_scan(s, CharClass::Pattern, k);
            if k < pe {
                let pat = s.subrange(k, pe);
                assert forall|m: int| 0 <= m < pat.len() implies spec_char_in_class(
                    #[trigger] pat[m],
                    CharClass::Pattern,
                ) by {
                    assert(pat[m] == s[k + m]);
                }
            }
        }
    }
}

proof fn lemma_parse_opcode_items_some(s: Seq<char>, i: int)
    requires
        0 <= i <= s.len(),
        spec_parse_opcode(s, i) is Some,
    ensures
        spec_parse_opcode_items(s, i) matches Some(r) && i < r.0 <= s.len() && (forall|k: int|
            0 <= k < r.1.len() ==> spec_pattern_ok((#[trigger] r.1[k]).1)),
    decreases s.len() - i,
{
    lemma_parse_opcode_pos(s, i);
    let (e, item) = spec_parse_opcode(s, i)->Some_0;
    let j = spec_ws_end(s, false, e);
    lemma_ws_end_bounds(s, false, e, false);
    if e < j && spec_parse_opcode(s, j) is Some {
        lemma_parse_opcode_items_some(s, j);
        let r2 = spec_parse_opcode_items(s, j)->Some_0;
        let full = seq![item] + r2.1;
        assert forall|k: int| 0 <= k < full.len() implies spec_pattern_ok(
            (#[trigger] full[k]).1,
        ) by {
            if k == 0 {
                assert(full[k] == item);
            } else {
                assert(full[k] == r2.1[k - 1]);
            }
        }
    } else {
        let full = seq![item];
        assert(full[0] == item);
    }
}

proof fn lemma_parse_opcode_block_pos(s: Seq<char>, i: int)
    requires
        0 <= i <= s.len(),
    ensures
        spec_parse_opcode_block(s, i) matches Some(r) ==> i < r.0 <= s.len() && (forall|k: int|
            0 <= k < r.1.len() ==> spec_pattern_ok((#[trigger] r.1[k]).1)),
{
    if 0 <= i && i < s.len() && s[i] == '[' {
        lemma_ws_end_bounds(s, false, i + 1, false);
        let j = spec_ws_end(s, false, i + 1);
        if spec_parse_opcode(s, j) is Some {
            lemma_parse_opcode_items_some(s, j);
            let r2 = spec_parse_opcode_items(s, j)->Some_0;
            lemma_ws_end_bounds(s, false, r2.0, false);
        }
    }
}

proof fn lemma_parse_symbols_pos(s: Seq<char>, i: int)
    requires
        0 <= i <= s.len(),
    ensures
        spec_parse_symbols(s, i) matches Some(r) ==> i < r.0 <= s.len(),
    decreases s.len() - i,
{
    lemma_scan_bounds(s, CharClass::Word, i);
    let e = spec_scan(s, CharClass::Word, i);
    if i < e {
        lemma_ws_end_bounds(s, false, e, false);
        let j = spec_ws_end(s, false, e);
        if e < j && spec_scan(s, CharClass::Word, j) > j {
            lemma_parse_symbols_pos(s, j);
        }
    }
}

// ---------------------------------------------------------------------
// The executable parser. Each function computes exactly what its spec
// counterpart denotes.
// ---------------------------------------------------------------------
/// Ghost form of a parsed field list.
pub open spec fn spec_items_view(items: Seq<(String, String)>) -> Seq<(Seq<char>, Seq<char>)> {
    items.map(|q: int, p: (String, String)| (p.0@, p.1@))
}

/// Ghost form of a parsed symbol list.
pub open spec fn spec_syms_view(syms: Seq<String>) -> Seq<Seq<char>> {
    syms.map(|q: int, w: String| w@)
}

fn parse_opcode_at(s: &str, n: usize, i: usize) -> (r: Option<(usize, String, String)>)
    requires
        n == s@.len(),
        i <= n,
    ensures
        r is Some <==> spec_parse_opcode(s@, i as int) is Some,
        r matches Some(t) ==> spec_parse_opcode(s@, i as int) == Some((t.0 as int, (t.1@, t.2@)))
            && i < t.0 <= n,
{
    let we = scan(s, n, CharClass::Word, i);
    if we == i {
        return None;
    }
    let j = ws_end(s, n, false, we);
    if j >= n {
        return None;
    }
    if s.get_char(j) != '=' {
        return None;
    }
    let k = ws_end(s, n, false, j + 1);
    let pe = scan(s, n, CharClass::Pattern, k);
    if pe == k {
        return None;
    }
    let name = token(s, i, we);
    let pat = token(s, k, pe);
    Some((pe, name, pat))
}

fn parse_opcode_items_at(s: &str, n: usize, i: usize) -> (r: (usize, Vec<(String, String)>))
    requires
        n == s@.len(),
        i <= n,
        spec_parse_opcode(s@, i as int) is Some,
    ensures
        spec_parse_opcode_items(s@, i as int) == Some((r.0 as int, spec_items_view(r.1@))),
        i < r.0 <= n,
{
    let mut items: Vec<(String, String)> = Vec::new();
    let mut cur: usize = i;
    proof {
        lemma_parse_opcode_items_some(s@, i as int);
    }
    loop
        invariant_except_break
            spec_parse_opcode(s@, cur as int) is Some,
            (match spec_parse_opcode_items(s@, cur as int) {
                Some(p2) => spec_parse_opcode_items(s@, i as int) == Some(
                    (p2.0, spec_items_view(items@) + p2.1),
                ),
                None => false,
            }),
        invariant
            n == s@.len(),
            i <= cur <= n,
        ensures
            (match spec_parse_opcode_items(s@, i as int) {
                Some(p0) => cur as int == p0.0 && spec_items_view(items@) == p0.1 && i < cur <= n,
                None => false,
            }),
        decreases n - cur,
    {
        proof {
            lemma_parse_opcode_items_some(s@, cur as int);
        }
        let (e, name, pat) = match parse_opcode_at(s, n, cur) {
            Some(t) => t,
            None => {
                return vstd::pervasive::unreached();
            },
        };
        let ghost old_items = items@;
        items.push((name, pat));
        proof {
            assert(spec_items_view(items@) =~= spec_items_view(old_items) + seq![(name@, pat@)]);
        }
        let j = ws_end(s, n, false, e);
        let mut advance = false;
        if j > e {
            match parse_opcode_at(s, n, j) {
                Some(_) => {
                    advance = true;
                },
                None => {},
            }
        }
        if advance {
            proof {
                lemma_parse_opcode_items_some(s@, j as int);
                let pj = spec_parse_opcode_items(s@, j as int)->Some_0;
                assert(spec_parse_opcode_items(s@, cur as int) == Some(
                    (pj.0, seq![(name@, pat@)] + pj.1),
                ));
                assert(spec_items_view(old_items) + (seq![(name@, pat@)] + pj.1)
                    =~= spec_items_view(items@) + pj.1);
            }
            cur = j;
        } else {
            proof {
                assert(spec_parse_opcode_items(s@, cur as int) == Some(
                    (e as int, seq![(name@, pat@)]),
                ));
            }
            cur = e;
            break ;
        }
    }
    (cur, items)
}

fn parse_opcode_block_at(s: &str, n: usize, i: usize) -> (r: Option<(usize, Vec<(String, String)>)>)
    requires
        n == s@.len(),
        i <= n,
    ensures
        r is Some <==> spec_parse_opcode_block(s@, i as int) is Some,
        r matches Some(t) ==> spec_parse_opcode_block(s@, i as int) == Some(
            (t.0 as int, spec_items_view(t.1@)),
        ) && i < t.0 <= n,
{
    if i >= n {
        return None;
    }
    if s.get_char(i) != '[' {
        return None;
    }
    let j = ws_end(s, n, false, i + 1);
    match parse_opcode_at(s, n, j) {
        Some(_) => {
            let (e, items) = parse_opcode_items_at(s, n, j);
            let k = ws_end(s, n, false, e);
            if k < n && s.get_char(k) == ']' {
                Some((k + 1, items))
            } else {
                None
            }
        },
        None => {
            if j < n && s.get_char(j) == ']' {
                let items: Vec<(String, String)> = Vec::new();
                proof {
                    assert(spec_items_view(items@) =~= Seq::<(Seq<char>, Seq<char>)>::empty());
                }
                Some((j + 1, items))
            } else {
                None
            }
        },
    }
}

fn parse_symbols_at(s: &str, n: usize, i: usize) -> (r: Option<(usize, Vec<String>)>)
    requires
        n == s@.len(),
        i <= n,
    ensures
        r is Some <==> spec_parse_symbols(s@, i as int) is Some,
        r matches Some(t) ==> spec_parse_symbols(s@, i as int) == Some(
            (t.0 as int, spec_syms_view(t.1@)),
        ) && i < t.0 <= n,
{
    let e0 = scan(s, n, CharClass::Word, i);
    if e0 == i {
        return None;
    }
    let mut syms: Vec<String> = Vec::new();
    let mut cur: usize = i;
    loop
        invariant_except_break
            spec_scan(s@, CharClass::Word, cur as int) > cur,
            (match spec_parse_symbols(s@, cur as int) {
                Some(p2) => spec_parse_symbols(s@, i as int) == Some(
                    (p2.0, spec_syms_view(syms@) + p2.1),
                ),
                None => false,
            }),
        invariant
            n == s@.len(),
            i <= cur <= n,
        ensures
            (match spec_parse_symbols(s@, i as int) {
                Some(p0) => cur as int == p0.0 && spec_syms_view(syms@) == p0.1 && i < cur <= n,
                None => false,
            }),
        decreases n - cur,
    {
        proof {
            lemma_parse_symbols_pos(s@, cur as int);
        }
        let e = scan(s, n, CharClass::Word, cur);
        let w = token(s, cur, e);
        let ghost old_syms = syms@;
        syms.push(w);
        proof {
            assert(spec_syms_view(syms@) =~= spec_syms_view(old_syms) + seq![s@.subrange(
                cur as int,
                e as int,
            )]);
        }
        let j = ws_end(s, n, false, e);
        let mut advance = false;
        if j > e {
            let e2 = scan(s, n, CharClass::Word, j);
            if e2 > j {
                advance = true;
            }
        }
        if advance {
            proof {
                lemma_parse_symbols_pos(s@, j as int);
                match spec_parse_symbols(s@, j as int) {
                    Some(pj) => {
                        assert(spec_parse_symbols(s@, cur as int) == Some(
                            (pj.0, seq![s@.subrange(cur as int, e as int)] + pj.1),
                        ));
                        assert(spec_syms_view(old_syms) + (seq![s@.subrange(cur as int, e as int)]
                            + pj.1) =~= spec_syms_view(syms@) + pj.1);
                    },
                    None => {
                        assert(false);
                    },
                }
            }
            cur = j;
        } else {
            proof {
                assert(spec_parse_symbols(s@, cur as int) == Some(
                    (e as int, seq![s@.subrange(cur as int, e as int)]),
                ));
                assert(spec_syms_view(old_syms) + seq![s@.subrange(cur as int, e as int)]
                    =~= spec_syms_view(syms@));
            }
            cur = e;
            break ;
        }
    }
    Some((cur, syms))
}

/// Whether `counter` fits the configured counter address space.
pub fn counter_fits(counter: u32, bits: u64) -> (b: bool)
    ensures
        b == spec_counter_fits(counter, bits),
{
    if bits >= 32 {
        true
    } else {
        let mut p: u64 = 1;
        let mut m: u64 = 0;
        proof {
            vstd::arithmetic::power2::lemma2_to64();
        }
        while m < bits
            invariant
                m <= bits < 32,
                p == pow2(m as nat),
            decreases bits - m,
        {
            proof {
                vstd::arithmetic::power2::lemma2_to64();
                if m < 31 {
                    vstd::arithmetic::power2::lemma_pow2_strictly_increases(m as nat, 31);
                }
                vstd::arithmetic::power2::lemma_pow2_unfold((m + 1) as nat);
            }
            p = p * 2;
            m = m + 1;
        }
        (counter as u64) < p
    }
}

#[verifier::loop_isolation(false)]
fn parse_operation_line_at(s: &str, n: usize, i: usize, config: &Config) -> (r: Result<
    (usize, Operation),
    ParseError,
>)
    requires
        n == s@.len(),
        i <= n,
    ensures
        (match spec_parse_operation_line(s@, i as int, config@) {
            Ok(p) => r matches Ok(t) && t.0 as int == p.0 && t.1@ == p.1 && i < t.0 <= n,
            Err(ev) => r matches Err(e) && e@ == ev,
        }),
{
    let de = scan(s, n, CharClass::Digit, i);
    if de == i {
        return Err(ParseError::InstructionFormatting);
    }
    let j = ws_end(s, n, false, de);
    if j == de {
        return Err(ParseError::InstructionFormatting);
    }
    let (end, syms) = match parse_symbols_at(s, n, j) {
        Some(t) => t,
        None => {
            return Err(ParseError::InstructionFormatting);
        },
    };
    proof {
        lemma_scan_bounds(s@, CharClass::Digit, i as int);
    }
    let counter = match parse_u32(s, n, i, de) {
        Some(v) => v,
        None => {
            return Err(ParseError::CounterFormatting);
        },
    };
    let ghost sv = spec_syms_view(syms@);
    let mut ops: Vec<i64> = Vec::new();
    let mut k: usize = 0;
    let count = syms.len();
    while k < count
        invariant
            count == syms@.len(),
            k <= count,
            sv == spec_syms_view(syms@),
            (match spec_resolve_symbols(sv, config@.microcode_map, k as int) {
                Ok(rest) => spec_resolve_symbols(sv, config@.microcode_map, 0) == Ok::<
                    Seq<i64>,
                    ParseErrorView,
                >(ops@ + rest),
                Err(e2) => spec_resolve_symbols(sv, config@.microcode_map, 0) == Err::<
                    Seq<i64>,
                    ParseErrorView,
                >(e2),
            }),
        decreases count - k,
    {
        match lookup_micro_index(config, &syms[k]) {
            Some(v) => {
                let ghost old_ops = ops@;
                ops.push(v);
                proof {
                    match spec_resolve_symbols(sv, config@.microcode_map, k + 1 as int) {
                        Ok(rest) => {
                            assert(old_ops + (seq![v as i64] + rest) =~= ops@ + rest);
                        },
                        Err(_) => {},
                    }
                }
            },
            None => {
                proof {
                    assert(sv[k as int] == syms@[k as int]@);
                    assert(spec_resolve_symbols(sv, config@.microcode_map, k as int) == Err::<
                        Seq<i64>,
                        ParseErrorView,
                    >(ParseErrorView::MissingInstruction(sv[k as int])));
                }
                return Err(ParseError::MissingInstruction(syms[k].clone()));
            },
        }
        k = k + 1;
    }
    proof {
        assert(spec_resolve_symbols(sv, config@.microcode_map, count as int) == Ok::<
            Seq<i64>,
            ParseErrorView,
        >(Seq::empty()));
        assert(ops@ + Seq::<i64>::empty() =~= ops@);
        assert(counter as int == spec_dec_val(s@.subrange(i as int, de as int)));
    }
    Ok((end, Operation { counter, micro_operations: ops }))
}

#[verifier::loop_isolation(false)]
fn build_opcodes(items: &Vec<(String, String)>, config: &Config) -> (r: Result<
    Vec<Vec<State>>,
    ParseError,
>)
    requires
        forall|k: int| 0 <= k < items@.len() ==> spec_pattern_ok((#[trigger] items@[k]).1@),
    ensures
        (match spec_check_items(spec_items_view(items@), config@.opcodes, 0) {
            Some(ev) => r matches Err(e) && e@ == ev,
            None => r matches Ok(v) && v@.map(|q: int, w: Vec<State>| w@)
                == spec_instruction_opcodes(spec_items_view(items@), config@.opcodes),
        }),
{
    let ghost iv = spec_items_view(items@);
    let ghost fields = config@.opcodes;
    let icount = items.len();
    let mut k: usize = 0;
    while k < icount
        invariant
            icount == items@.len(),
            k <= icount,
            iv == spec_items_view(items@),
            fields == config@.opcodes,
            spec_check_items(iv, fields, 0) == spec_check_items(iv, fields, k as int),
        decreases icount - k,
    {
        match lookup_opcode_width(config, &items[k].0) {
            None => {
                return Err(ParseError::MissingOpcode(items[k].0.clone()));
            },
            Some(w) => {
                let plen = items[k].1.as_str().unicode_len();
                if plen as u64 != w {
                    return Err(ParseError::OpcodeLength(items[k].0.clone()));
                }
            },
        }
        k = k + 1;
    }
    let fcount = config.opcodes.len();
    let mut out: Vec<Vec<State>> = Vec::new();
    let mut f: usize = 0;
    while f < fcount
        invariant
            fcount == config.opcodes@.len(),
            f <= fcount,
            iv == spec_items_view(items@),
            fields == config@.opcodes,
            forall|k2: int| 0 <= k2 < items@.len() ==> spec_pattern_ok((#[trigger] items@[k2]).1@),
            out@.len() == f,
            forall|q: int|
                0 <= q < f ==> (#[trigger] out@[q])@ == spec_instruction_opcodes(iv, fields)[q],
        decreases fcount - f,
    {
        let ghost fname = fields[f as int].0;
        let mut found: Option<usize> = None;
        let mut m: usize = 0;
        while m < icount
            invariant
                icount == items@.len(),
                m <= icount,
                iv == spec_items_view(items@),
                f < fcount == config.opcodes@.len(),
                fname == fields[f as int].0,
                fields == config@.opcodes,
                (match found {
                    Some(idx) => idx < m && items@[idx as int].0@ == fname && spec_last_pattern(
                        iv.take(m as int),
                        fname,
                    ) == Some(items@[idx as int].1@),
                    None => spec_last_pattern(iv.take(m as int), fname) is None,
                }),
            decreases icount - m,
        {
            proof {
                assert(iv.take(m + 1 as int).drop_last() =~= iv.take(m as int));
                assert(iv.take(m + 1 as int).last() == iv[m as int]);
            }
            if items[m].0 == config.opcodes[f].0 {
                found = Some(m);
            }
            m = m + 1;
        }
        proof {
            assert(iv.take(icount as int) =~= iv);
        }
        match found {
            Some(idx) => {
                let states = match str_to_state_vec(items[idx].1.as_str()) {
                    Ok(v) => v,
                    Err(_) => {
                        return vstd::pervasive::unreached();
                    },
                };
                out.push(states);
            },
            None => {
                let width = config.opcodes[f].1;
                let mut wild: Vec<State> = Vec::new();
                let mut w2: u64 = 0;
                while w2 < width
                    invariant
                        w2 <= width,
                        wild@.len() == w2,
                        forall|q: int| 0 <= q < w2 ==> wild@[q] == State::Any,
                    decreases width - w2,
                {
                    wild.push(State::Any);
                    w2 = w2 + 1;
                }
                proof {
                    assert(wild@ =~= Seq::new(fields[f as int].1 as nat, |m2: int| State::Any));
                }
                out.push(wild);
            },
        }
        f = f + 1;
    }
    proof {
        assert(out@.map(|q: int, w: Vec<State>| w@) =~= spec_instruction_opcodes(iv, fields));
    }
    Ok(out)
}

fn parse_instruction_at(s: &str, n: usize, i: usize, config: &Config) -> (r: Result<
    (usize, Instruction),
    ParseError,
>)
    requires
        n == s@.len(),
        i <= n,
    ensures
        (match spec_parse_instruction_at(s@, i as int, config@) {
            Ok(p) => r matches Ok(t) && t.0 as int == p.0 && t.1@ == p.1 && i < t.0 <= n,
            Err(ev) => r matches Err(e) && e@ == ev,
        }),
{
    let (b, items) = match parse_opcode_block_at(s, n, i) {
        Some(t) => t,
        None => {
            return Err(ParseError::OpcodeFormatting);
        },
    };
    proof {
        lemma_parse_opcode_block_pos(s@, i as int);
        assert forall|k: int| 0 <= k < items@.len() implies spec_pattern_ok(
            (#[trigger] items@[k]).1@,
        ) by {
            assert(spec_items_view(items@)[k] == (items@[k].0@, items@[k].1@));
        }
    }
    let opcodes = match build_opcodes(&items, config) {
        Ok(v) => v,
        Err(e) => {
            return Err(e);
        },
    };
    let ghost gops = spec_parse_operations(s@, b as int, config@);
    let mut operations: Vec<Operation> = Vec::new();
    let mut cur: usize = b;
    loop
        invariant
            n == s@.len(),
            i < b <= cur <= n,
            spec_parse_opcode_block(s@, i as int) == Some((b as int, spec_items_view(items@))),
            spec_check_items(spec_items_view(items@), config@.opcodes, 0) is None,
            gops == spec_parse_operations(s@, b as int, config@),
            (match spec_parse_operations(s@, cur as int, config@) {
                Ok(p2) => gops matches Ok(q) && q.0 == p2.0 && q.1 == operations@.map(
                    |x: int, o: Operation| o@,
                ) + p2.1,
                Err(e2) => gops == Err::<(int, Seq<OperationView>), ParseErrorView>(e2),
            }),
        ensures
            gops matches Ok(q) && q.0 == cur as int && q.1 == operations@.map(
                |x: int, o: Operation| o@,
            ) && b <= cur <= n,
        decreases n - cur,
    {
        let ghost ops_before = operations@;
        let j = ws_end(s, n, true, cur);
        if j >= n {
            proof {
                assert(operations@.map(|x: int, o: Operation| o@) + Seq::<
                    OperationView,
                >::empty() =~= operations@.map(|x: int, o: Operation| o@));
            }
            break ;
        }
        if s.get_char(j) == '[' {
            proof {
                assert(operations@.map(|x: int, o: Operation| o@) + Seq::<
                    OperationView,
                >::empty() =~= operations@.map(|x: int, o: Operation| o@));
            }
            break ;
        }
        if j == cur {
            return Err(ParseError::InstructionFormatting);
        }
        let (e2, op) = match parse_operation_line_at(s, n, j, config) {
            Ok(t) => t,
            Err(e) => {
                return Err(e);
            },
        };
        if !counter_fits(op.counter, config.counter_bit_length) {
            return Err(ParseError::CounterOverflow);
        }
        operations.push(op);
        proof {
            match spec_parse_operations(s@, e2 as int, config@) {
                Ok(pn) => {
                    assert(ops_before.map(|x: int, o: Operation| o@).push(op@)
                        =~= operations@.map(|x: int, o: Operation| o@));
                    assert(ops_before.map(|x: int, o: Operation| o@) + (seq![op@] + pn.1)
                        =~= operations@.map(|x: int, o: Operation| o@) + pn.1);
                },
                Err(_) => {},
            }
        }
        cur = e2;
    }
    let instr = Instruction { opcodes, operations };
    proof {
        assert(instr@.opcodes == spec_instruction_opcodes(
            spec_items_view(items@),
            config@.opcodes,
        ));
    }
    Ok((cur, instr))
}

/// Parses one instruction from the head of `input` and returns it with
/// the unconsumed remainder of the text.
pub fn parse_instruction(input: &str, config: &Config) -> (r: Result<
    (String, Instruction),
    ParseError,
>)
    ensures
        (match spec_parse_instruction_at(input@, 0, config@) {
            Ok(p) => r matches Ok(t) && t.0@ == input@.subrange(p.0, input@.len() as int) && t.1@
                == p.1,
            Err(ev) => r matches Err(e) && e@ == ev,
        }),
{
    let n = input.unicode_len();
    match parse_instruction_at(input, n, 0, config) {
        Ok((end, instr)) => {
            let rest = token(input, end, n);
            Ok((rest, instr))
        },
        Err(e) => Err(e),
    }
}

proof fn lemma_last_pattern_none(items: Seq<(Seq<char>, Seq<char>)>, name: Seq<char>)
    requires
        forall|m: int| 0 <= m < items.len() ==> (#[trigger] items[m]).0 != name,
    ensures
        spec_last_pattern(items, name) is None,
    decreases items.len(),
{
    if items.len() > 0 {
        assert(items[items.len() - 1].0 != name);
        lemma_last_pattern_none(items.drop_last(), name);
    }
}

/// An instruction whose bracket block gives no pattern for a configured
/// field gets, for that field, the all-wildcard state vector of the
/// field's configured width.
pub proof fn lemma_field_defaulting(
    items: Seq<(Seq<char>, Seq<char>)>,
    fields: Seq<(Seq<char>, u64)>,
    k: int,
)
    requires
        0 <= k < fields.len(),
        forall|m: int| 0 <= m < items.len() ==> (#[trigger] items[m]).0 != fields[k].0,
    ensures
        spec_instruction_opcodes(items, fields)[k] == Seq::new(
            fields[k].1 as nat,
            |m: int| State::Any,
        ),
{
    lemma_last_pattern_none(items, fields[k].0);
}

/// A counter exactly at the size of the configured address space is
/// rejected, while the largest address inside it is accepted: the bound
/// `counter < 2^counter_bit_length` is strict.
pub proof fn lemma_counter_bound(c: u32, bits: u64)
    requires
        bits < 32,
    ensures
        c as nat == pow2(bits as nat) ==> !spec_counter_fits(c, bits),
        c as nat == pow2(bits as nat) - 1 ==> spec_counter_fits(c, bits),
{
}

/// Symbol resolution is complete and exact: a resolved operation holds
/// one index per symbol token, each the integer the table configures
/// for that token; and resolution fails exactly on a token the table
/// does not configure, carrying that token's name, never a default.
pub proof fn lemma_symbol_resolution(syms: Seq<Seq<char>>, table: Seq<(Seq<char>, i64)>, k: int)
    requires
        0 <= k <= syms.len(),
    ensures
        (spec_resolve_symbols(syms, table, k) matches Ok(l) ==> l.len() == syms.len() - k && (
        forall|m: int|
            k <= m < syms.len() ==> spec_micro_index(table, #[trigger] syms[m]) == Some(
                l[m - k],
            ))),
        (spec_resolve_symbols(syms, table, k) matches Err(e) ==> exists|m: int|
            k <= m < syms.len() && spec_micro_index(table, #[trigger] syms[m]) is None && e
                == ParseErrorView::MissingInstruction(syms[m])),
        (forall|m: int| k <= m < syms.len() ==> spec_micro_index(table, #[trigger] syms[m]) is Some)
            ==> spec_resolve_symbols(syms, table, k) is Ok,
    decreases syms.len() - k,
{
    if k < syms.len() {
        lemma_symbol_resolution(syms, table, k + 1);
        match spec_micro_index(table, syms[k]) {
            None => {
                assert(spec_resolve_symbols(syms, table, k) == Err::<Seq<i64>, ParseErrorView>(
                    ParseErrorView::MissingInstruction(syms[k]),
                ));
            },
            Some(v) => {
                match spec_resolve_symbols(syms, table, k + 1) {
                    Ok(rest) => {
                        let l = seq![v] + rest;
                        assert forall|m: int| k <= m < syms.len() implies spec_micro_index(
                            table,
                            #[trigger] syms[m],
                        ) == Some(l[m - k]) by {
                            if m > k {
                                assert(l[m - k] == rest[m - (k + 1)]);
                            }
                        }
                    },
                    Err(_) => {},
                }
            },
        }
    }
}

/// Parses the whole text into its ordered instruction list.
pub fn parse_instructions(input: &str, config: &Config) -> (r: Result<Vec<Instruction>, ParseError>)
    ensures
        (match spec_parse_instructions(input@, config@) {
            Ok(ivs) => r matches Ok(v) && v@.map(|q: int, ins: Instruction| ins@) == ivs,
            Err(ev) => r matches Err(e) && e@ == ev,
        }),
{
    let n = input.unicode_len();
    let start = ws_end(input, n, true, 0);
    let ghost gstream = spec_parse_instructions(input@, config@);
    let mut out: Vec<Instruction> = Vec::new();
    let mut cur: usize = start;
    loop
        invariant
            n == input@.len(),
            cur <= n,
            gstream == spec_parse_instructions(input@, config@),
            (match spec_parse_stream(input@, cur as int, config@) {
                Ok(rest) => gstream == Ok::<Seq<InstructionView>, ParseErrorView>(
                    out@.map(|q: int, ins: Instruction| ins@) + rest,
                ),
                Err(e2) => gstream == Err::<Seq<InstructionView>, ParseErrorView>(e2),
            }),
        ensures
            gstream matches Ok(ivs) && ivs == out@.map(|q: int, ins: Instruction| ins@),
        decreases n - cur,
    {
        if cur >= n {
            proof {
                assert(out@.map(|q: int, ins: Instruction| ins@) + Seq::<
                    InstructionView,
                >::empty() =~= out@.map(|q: int, ins: Instruction| ins@));
            }
            break ;
        }
        let ghost out_before = out@;
        match parse_instruction_at(input, n, cur, config) {
            Err(e) => {
                return Err(e);
            },
            Ok((k, instr)) => {
                out.push(instr);
                let k2 = ws_end(input, n, true, k);
                proof {
                    match spec_parse_stream(input@, k2 as int, config@) {
                        Ok(rest) => {
                            assert(out_before.map(|q: int, ins: Instruction| ins@) + (seq![instr@]
                                + rest) =~= out@.map(|q: int, ins: Instruction| ins@) + rest);
                        },
                        Err(_) => {},
                    }
                }
                cur = k2;
            },
        }
    }
    Ok(out)
}

} // verus!
