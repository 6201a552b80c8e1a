use vstd::prelude::*;
use vstd::string::StringExecFns;

verus! {

/// Ghost form of `ParseError`: the name payloads as character sequences.
pub enum ParseErrorView {
    OpcodeFormatting,
    OpcodeLength(Seq<char>),
    MissingOpcode(Seq<char>),
    MissingInstruction(Seq<char>),
    InstructionFormatting,
    DataType(Seq<char>),
    MissingValue(Seq<char>),
    Formatting,
    CounterOverflow,
    CounterFormatting,
}

/// One terminal compile error. Kinds that concern a particular name (an
/// opcode field, a microcode symbol, a configuration key) carry it.
#[derive(Debug, PartialEq, Eq)]
pub enum ParseError {
    OpcodeFormatting,
    OpcodeLength(String),
    MissingOpcode(String),
    MissingInstruction(String),
    InstructionFormatting,
    DataType(String),
    MissingValue(String),
    Formatting,
    CounterOverflow,
    CounterFormatting,
}

impl View for ParseError {
    type V = ParseErrorView;

    open spec fn view(&self) -> ParseErrorView {
        match self {
            ParseError::OpcodeFormatting => ParseErrorView::OpcodeFormatting,
            ParseError::OpcodeLength(name) => ParseErrorView::OpcodeLength(name@),
            ParseError::MissingOpcode(name) => ParseErrorView::MissingOpcode(name@),
            ParseError::MissingInstruction(name) => ParseErrorView::MissingInstruction(name@),
            ParseError::InstructionFormatting => ParseErrorView::InstructionFormatting,
            ParseError::DataType(key) => ParseErrorView::DataType(key@),
            ParseError::MissingValue(key) => ParseErrorView::MissingValue(key@),
            ParseError::Formatting => ParseErrorView::Formatting,
            ParseError::CounterOverflow => ParseErrorView::CounterOverflow,
            ParseError::CounterFormatting => ParseErrorView::CounterFormatting,
        }
    }
}

impl ParseError {
    /// The diagnostic text of this error.
    pub fn message(&self) -> (m: String)
        ensures
            m@ == self.spec_message(),
    {
        match self {
            ParseError::OpcodeFormatting => String::from_str("Invalid opcode formatting"),
            ParseError::OpcodeLength(name) => String::from_str("Invalid length for opcode '").concat(
                name.as_str(),
            ).concat("'"),
            ParseError::MissingOpcode(name) => String::from_str("Opcode '").concat(
                name.as_str(),
            ).concat("' doesn't exist"),
            ParseError::MissingInstruction(name) => String::from_str("Instruction '").concat(
                name.as_str(),
            ).concat("' doesn't exist"),
            ParseError::InstructionFormatting => String::from_str("Invalid instruction formatting"),
            ParseError::DataType(key) => String::from_str("Invalid data type for '").concat(
                key.as_str(),
            ).concat("'"),
            ParseError::MissingValue(key) => String::from_str("Value '").concat(
                key.as_str(),
            ).concat("' doesn't exist"),
            ParseError::Formatting => String::from_str("Invalid formatting"),
            ParseError::CounterOverflow => String::from_str("Counter overflow"),
            ParseError::CounterFormatting => String::from_str("Invalid counter formatting"),
        }
    }

    pub open spec fn spec_message(&self) -> Seq<char> {
        match self {
            ParseError::OpcodeFormatting => "Invalid opcode formatting"@,
            ParseError::OpcodeLength(name) => "Invalid length for opcode '"@ + name@ + "'"@,
            ParseError::MissingOpcode(name) => "Opcode '"@ + name@ + "' doesn't exist"@,
            ParseError::MissingInstruction(name) => "Instruction '"@ + name@ + "' doesn't exist"@,
            ParseError::InstructionFormatting => "Invalid instruction formatting"@,
            ParseError::DataType(key) => "Invalid data type for '"@ + key@ + "'"@,
            ParseError::MissingValue(key) => "Value '"@ + key@ + "' doesn't exist"@,
            ParseError::Formatting => "Invalid formatting"@,
            ParseError::CounterOverflow => "Counter overflow"@,
            ParseError::CounterFormatting => "Invalid counter formatting"@,
        }
    }
}

/// Ghost form of `BlueprintError`.
pub enum BlueprintErrorView {
    Parse(ParseErrorView),
    Oversize,
    Compression,
}

/// An error of the whole compile: a parse or configuration error, a
/// serialized size that does not fit the chunk format's 32-bit fields,
/// or a failure of the underlying compressor.
#[derive(Debug, PartialEq, Eq)]
pub enum BlueprintError {
    Parse(ParseError),
    Oversize,
    Compression,
}

impl View for BlueprintError {
    type V = BlueprintErrorView;

    open spec fn view(&self) -> BlueprintErrorView {
        match self {
            BlueprintError::Parse(e) => BlueprintErrorView::Parse(e@),
            BlueprintError::Oversize => BlueprintErrorView::Oversize,
            BlueprintError::Compression => BlueprintErrorView::Compression,
        }
    }
}

} // verus!
