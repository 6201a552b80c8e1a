use vstd::prelude::*;

verus! {

/// Ghost form of `Config`: names as character sequences.
pub struct ConfigView {
    pub opcodes: Seq<(Seq<char>, u64)>,
    pub microcode_map: Seq<(Seq<char>, i64)>,
    pub counter_bit_length: u64,
    pub flags_bit_length: u64,
}

/// The compile-time configuration a caller supplies: the ordered opcode
/// fields (name and bit width), the microcode symbol table (name to
/// signed line index; non-negative indices are write lines, negative
/// ones flag/condition lines), and the counter and flag bit widths.
pub struct Config {
    pub opcodes: Vec<(String, u64)>,
    pub microcode_map: Vec<(String, i64)>,
    pub counter_bit_length: u64,
    pub flags_bit_length: u64,
}

impl View for Config {
    type V = ConfigView;

    open spec fn view(&self) -> ConfigView {
        ConfigView {
            opcodes: self.opcodes@.map(|i: int, p: (String, u64)| (p.0@, p.1)),
            microcode_map: self.microcode_map@.map(|i: int, p: (String, i64)| (p.0@, p.1)),
            counter_bit_length: self.counter_bit_length,
            flags_bit_length: self.flags_bit_length,
        }
    }
}

impl ConfigView {
    /// Field and symbol names are unique, as the configuration format
    /// (a JSON object for symbols, named fields) guarantees.
    pub open spec fn wf(self) -> bool {
        &&& forall|i: int, j: int|
            0 <= i < j < self.opcodes.len() ==> (#[trigger] self.opcodes[i]).0 != (
            #[trigger] self.opcodes[j]).0
        &&& forall|i: int, j: int|
            0 <= i < j < self.microcode_map.len() ==> (#[trigger] self.microcode_map[i]).0 != (
            #[trigger] self.microcode_map[j]).0
    }
}

/// First-match lookup of an opcode field's bit width, scanning from `k`.
pub open spec fn spec_field_lookup(fields: Seq<(Seq<char>, u64)>, name: Seq<char>, k: int) -> Option<
    u64,
>
    decreases fields.len() - k,
{
    if k < 0 || k >= fields.len() {
        None
    } else if fields[k].0 == name {
        Some(fields[k].1)
    } else {
        spec_field_lookup(fields, name, k + 1)
    }
}

/// The configured bit width of the opcode field called `name`.
pub open spec fn spec_field_width(fields: Seq<(Seq<char>, u64)>, name: Seq<char>) -> Option<u64> {
    spec_field_lookup(fields, name, 0)
}

/// First-match lookup of a microcode symbol's index, scanning from `k`.
pub open spec fn spec_micro_lookup(table: Seq<(Seq<char>, i64)>, name: Seq<char>, k: int) -> Option<
    i64,
>
    decreases table.len() - k,
{
    if k < 0 || k >= table.len() {
        None
    } else if table[k].0 == name {
        Some(table[k].1)
    } else {
        spec_micro_lookup(table, name, k + 1)
    }
}

/// The signed microcode line index configured for `name`.
pub open spec fn spec_micro_index(table: Seq<(Seq<char>, i64)>, name: Seq<char>) -> Option<i64> {
    spec_micro_lookup(table, name, 0)
}

/// Resolves an opcode field name against the configuration.
pub fn lookup_opcode_width(config: &Config, name: &String) -> (r: Option<u64>)
    ensures
        r == spec_field_width(config@.opcodes, name@),
{
    let n = config.opcodes.len();
    let mut k: usize = 0;
    while k < n
        invariant
            n == config.opcodes@.len(),
            k <= n,
            spec_field_lookup(config@.opcodes, name@, 0) == spec_field_lookup(
                config@.opcodes,
                name@,
                k as int,
            ),
        decreases n - k,
    {
        proof {
            lemma_field_lookup_step(config@.opcodes, name@, k as int);
        }
        if config.opcodes[k].0 == *name {
            return Some(config.opcodes[k].1);
        }
        k = k + 1;
    }
    None
}

proof fn lemma_field_lookup_step(fields: Seq<(Seq<char>, u64)>, name: Seq<char>, k: int)
    requires
        0 <= k < fields.len(),
    ensures
        fields[k].0 == name ==> spec_field_lookup(fields, name, k) == Some(fields[k].1),
        fields[k].0 != name ==> spec_field_lookup(fields, name, k) == spec_field_lookup(
            fields,
            name,
            k + 1,
        ),
{
}

/// Resolves a microcode symbol against the configuration.
pub fn lookup_micro_index(config: &Config, name: &String) -> (r: Option<i64>)
    ensures
        r == spec_micro_index(config@.microcode_map, name@),
{
    let n = config.microcode_map.len();
    let mut k: usize = 0;
    while k < n
        invariant
            n == config.microcode_map@.len(),
            k <= n,
            spec_micro_lookup(config@.microcode_map, name@, 0) == spec_micro_lookup(
                config@.microcode_map,
                name@,
                k as int,
            ),
        decreases n - k,
    {
        proof {
            lemma_micro_lookup_step(config@.microcode_map, name@, k as int);
        }
        if config.microcode_map[k].0 == *name {
            return Some(config.microcode_map[k].1);
        }
        k = k + 1;
    }
    None
}

proof fn lemma_micro_lookup_step(table: Seq<(Seq<char>, i64)>, name: Seq<char>, k: int)
    requires
        0 <= k < table.len(),
    ensures
        table[k].0 == name ==> spec_micro_lookup(table, name, k) == Some(table[k].1),
        table[k].0 != name ==> spec_micro_lookup(table, name, k) == spec_micro_lookup(
            table,
            name,
            k + 1,
        ),
{
}

} // verus!
