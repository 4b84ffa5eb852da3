//! The errors that parsing reports, and how they read.

use vstd::prelude::*;

verus! {

/// Why a text is not an ACON document. Where the error belongs to a line,
/// it carries the number of that line, counted from one.
#[derive(PartialEq, Eq, Clone, Copy, Debug)]
pub enum AconError {
    /// A closing delimiter stands where nothing is open.
    ExcessiveClosingDelimiter(Option<usize>),
    /// A string was found on top of the parse stack. The parser never
    /// reports this: its stack holds arrays and tables only.
    InternalStringTop(Option<usize>),
    /// The parse stack was found empty. The parser never reports this: it
    /// stops at the closing delimiter that would empty the stack.
    MissingStackTop(Option<usize>),
    /// The text ends inside an array.
    TopNodeIsArray,
    /// The text ends inside a table other than the document itself.
    MultipleTopNodes,
    /// The key is already present in the table that the line adds to.
    OverwritingKey(Option<usize>),
    /// A `}` stands where the innermost open nesting is an array.
    WrongClosingDelimiterExpectedArray(Option<usize>),
    /// A `]` stands where the innermost open nesting is a table.
    WrongClosingDelimiterExpectedTable(Option<usize>),
}

/// What follows the first letter in the explanation of a closing delimiter
/// that closes nothing.
pub const EXCESSIVE_CLOSING_DELIMITER: &'static str =
    "here's a closing delimiter that has no matching opening delimiter. Note that\nall delimiters must be the first word on a line to count as such. The only delimiters are {, }, [, ], and $.";

/// What follows the first letter in the explanation of a string on the
/// stack.
pub const INTERNAL_STRING_TOP: &'static str =
    "here's a string on the top of the internal parse stack. This is impossible unless there is a\nbug in the parser. Please report this along with the input to the repository maintainer of ACON.";

/// What follows the first letter in the explanation of an empty stack.
pub const MISSING_STACK_TOP: &'static str =
    "he top of the stack is missing. This indicates an internal error, as it's never supposed to\nhappen. Please contact the maintainer of the ACON repository.";

/// The explanation of an array that is open at the end.
pub const TOP_NODE_IS_ARRAY: &'static str =
    "The top of the stack is an array. This indicates that there is an unterminated array all the way\nuntil the end of the input. Try appending a ']' to the input to see if this solves the issue.";

/// The explanation of a table that is open at the end.
pub const MULTIPLE_TOP_NODES: &'static str =
    "The top of the stack is a table. This indicates that there is an unterminated table all the way\nuntil the end of the input. Try appending a '}' to the input to see if this solves the issue.";

/// What follows the first letter in the explanation of a key that is
/// given twice.
pub const OVERWRITING_KEY: &'static str = "he key is already present in the table.";

/// What follows the first letter in the explanation of a `}` that meets
/// an array.
pub const WRONG_CLOSING_DELIMITER_EXPECTED_ARRAY: &'static str =
    "he closing delimiter did not match the array closing delimiter ]. Make sure all delimiters\nmatch up in the input. Some editors can help you by jumping from/to each delimiter.";

/// What follows the first letter in the explanation of a `]` that meets a
/// table.
pub const WRONG_CLOSING_DELIMITER_EXPECTED_TABLE: &'static str =
    "he closing delimiter did not match the table closing delimiter }. Make sure all delimiters\nuntil the end of the input. Try appending a ']' to the input to see if this solves the issue.";

/// The words that name the line, up to the first letter of the sentence.
pub const ON_LINE: &'static str = "On line ";

/// The end of the words that name the line, with the first letter of the
/// sentence in lower case.
pub const LOWER_T: &'static str = ", t";

/// The first letter of the sentence where no line is named.
pub const UPPER_T: &'static str = "T";

/// The character that writes a number below ten.
pub open spec fn digit_char(d: nat) -> char {
    if d == 0 {
        '0'
    } else if d == 1 {
        '1'
    } else if d == 2 {
        '2'
    } else if d == 3 {
        '3'
    } else if d == 4 {
        '4'
    } else if d == 5 {
        '5'
    } else if d == 6 {
        '6'
    } else if d == 7 {
        '7'
    } else if d == 8 {
        '8'
    } else {
        '9'
    }
}

/// A number written in base ten, without leading zeros.
pub open spec fn decimal(n: nat) -> Seq<char>
    decreases n,
{
    if n < 10 {
        seq![digit_char(n)]
    } else {
        decimal(n / 10).push(digit_char(n % 10))
    }
}

/// How an explanation begins: with the line where the error has one, and
/// in any case with the first letter of the sentence.
pub open spec fn lead_text(line: Option<usize>) -> Seq<char> {
    match line {
        Some(n) => ON_LINE@ + decimal(n as nat) + LOWER_T@,
        None => UPPER_T@,
    }
}

/// Decides `digit_char` for a number below ten.
fn digit_of(d: usize) -> (r: char)
    requires
        d < 10,
    ensures
        r == digit_char(d as nat),
{
    if d == 0 {
        '0'
    } else if d == 1 {
        '1'
    } else if d == 2 {
        '2'
    } else if d == 3 {
        '3'
    } else if d == 4 {
        '4'
    } else if d == 5 {
        '5'
    } else if d == 6 {
        '6'
    } else if d == 7 {
        '7'
    } else if d == 8 {
        '8'
    } else {
        '9'
    }
}

/// Appends a number in base ten.
fn push_decimal(out: &mut String, n: usize)
    ensures
        final(out)@ == old(out)@ + decimal(n as nat),
    decreases n,
{
    if n >= 10 {
        push_decimal(out, n / 10);
    }
    out.push(digit_of(n % 10));
    assert(out@ =~= old(out)@ + decimal(n as nat));
}

/// Starts an explanation.
fn lead(line: Option<usize>) -> (r: String)
    ensures
        r@ == lead_text(line),
{
    let mut out = String::new();
    match line {
        Some(n) => {
            out.append(ON_LINE);
            push_decimal(&mut out, n);
            out.append(LOWER_T);
            assert(out@ =~= lead_text(line));
        },
        None => {
            out.append(UPPER_T);
            assert(out@ =~= lead_text(line));
        },
    }
    out
}

impl AconError {
    /// The explanation of the error, as text.
    pub open spec fn reason_text(self) -> Seq<char> {
        match self {
            AconError::ExcessiveClosingDelimiter(line) => lead_text(line)
                + EXCESSIVE_CLOSING_DELIMITER@,
            AconError::InternalStringTop(line) => lead_text(line) + INTERNAL_STRING_TOP@,
            AconError::MissingStackTop(line) => lead_text(line) + MISSING_STACK_TOP@,
            AconError::TopNodeIsArray => TOP_NODE_IS_ARRAY@,
            AconError::MultipleTopNodes => MULTIPLE_TOP_NODES@,
            AconError::OverwritingKey(line) => lead_text(line) + OVERWRITING_KEY@,
            AconError::WrongClosingDelimiterExpectedArray(line) => lead_text(line)
                + WRONG_CLOSING_DELIMITER_EXPECTED_ARRAY@,
            AconError::WrongClosingDelimiterExpectedTable(line) => lead_text(line)
                + WRONG_CLOSING_DELIMITER_EXPECTED_TABLE@,
        }
    }

    /// A human-friendly explanation of the error.
    pub fn reason(&self) -> (r: String)
        ensures
            r@ == self.reason_text(),
    {
        match *self {
            AconError::ExcessiveClosingDelimiter(line) => lead(line).concat(
                EXCESSIVE_CLOSING_DELIMITER,
            ),
            AconError::InternalStringTop(line) => lead(line).concat(INTERNAL_STRING_TOP),
            AconError::MissingStackTop(line) => lead(line).concat(MISSING_STACK_TOP),
            AconError::TopNodeIsArray => TOP_NODE_IS_ARRAY.to_owned(),
            AconError::MultipleTopNodes => MULTIPLE_TOP_NODES.to_owned(),
            AconError::OverwritingKey(line) => lead(line).concat(OVERWRITING_KEY),
            AconError::WrongClosingDelimiterExpectedArray(line) => lead(line).concat(
                WRONG_CLOSING_DELIMITER_EXPECTED_ARRAY,
            ),
            AconError::WrongClosingDelimiterExpectedTable(line) => lead(line).concat(
                WRONG_CLOSING_DELIMITER_EXPECTED_TABLE,
            ),
        }
    }
}

} // verus!
