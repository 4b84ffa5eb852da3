use acon::AconError;

#[test]
fn explains_each_error_with_its_line() {
    assert_eq!(
        AconError::ExcessiveClosingDelimiter(Some(7)).reason(),
        "On line 7, there's a closing delimiter that has no matching opening delimiter. Note that\nall delimiters must be the first word on a line to count as such. The only delimiters are {, }, [, ], and $."
    );
    assert_eq!(
        AconError::InternalStringTop(Some(10)).reason(),
        "On line 10, there's a string on the top of the internal parse stack. This is impossible unless there is a\nbug in the parser. Please report this along with the input to the repository maintainer of ACON."
    );
    assert_eq!(
        AconError::MissingStackTop(Some(999)).reason(),
        "On line 999, the top of the stack is missing. This indicates an internal error, as it's never supposed to\nhappen. Please contact the maintainer of the ACON repository."
    );
    assert_eq!(
        AconError::OverwritingKey(Some(120)).reason(),
        "On line 120, the key is already present in the table."
    );
    assert_eq!(
        AconError::WrongClosingDelimiterExpectedArray(Some(1)).reason(),
        "On line 1, the closing delimiter did not match the array closing delimiter ]. Make sure all delimiters\nmatch up in the input. Some editors can help you by jumping from/to each delimiter."
    );
    assert_eq!(
        AconError::WrongClosingDelimiterExpectedTable(Some(2)).reason(),
        "On line 2, the closing delimiter did not match the table closing delimiter }. Make sure all delimiters\nuntil the end of the input. Try appending a ']' to the input to see if this solves the issue."
    );
}

#[test]
fn explains_each_error_without_a_line() {
    assert_eq!(
        AconError::ExcessiveClosingDelimiter(None).reason(),
        "There's a closing delimiter that has no matching opening delimiter. Note that\nall delimiters must be the first word on a line to count as such. The only delimiters are {, }, [, ], and $."
    );
    assert_eq!(
        AconError::InternalStringTop(None).reason(),
        "There's a string on the top of the internal parse stack. This is impossible unless there is a\nbug in the parser. Please report this along with the input to the repository maintainer of ACON."
    );
    assert_eq!(
        AconError::MissingStackTop(None).reason(),
        "The top of the stack is missing. This indicates an internal error, as it's never supposed to\nhappen. Please contact the maintainer of the ACON repository."
    );
    assert_eq!(AconError::OverwritingKey(None).reason(), "The key is already present in the table.");
    assert_eq!(
        AconError::WrongClosingDelimiterExpectedArray(None).reason(),
        "The closing delimiter did not match the array closing delimiter ]. Make sure all delimiters\nmatch up in the input. Some editors can help you by jumping from/to each delimiter."
    );
    assert_eq!(
        AconError::WrongClosingDelimiterExpectedTable(None).reason(),
        "The closing delimiter did not match the table closing delimiter }. Make sure all delimiters\nuntil the end of the input. Try appending a ']' to the input to see if this solves the issue."
    );
    assert_eq!(
        AconError::TopNodeIsArray.reason(),
        "The top of the stack is an array. This indicates that there is an unterminated array all the way\nuntil the end of the input. Try appending a ']' to the input to see if this solves the issue."
    );
    assert_eq!(
        AconError::MultipleTopNodes.reason(),
        "The top of the stack is a table. This indicates that there is an unterminated table all the way\nuntil the end of the input. Try appending a '}' to the input to see if this solves the issue."
    );
}

#[test]
fn writes_line_numbers_in_base_ten() {
    let numbers = [0usize, 1, 9, 10, 11, 99, 100, 101, 1234567890, usize::MAX];
    for n in numbers {
        assert_eq!(
            AconError::OverwritingKey(Some(n)).reason(),
            format!("On line {}, the key is already present in the table.", n)
        );
    }
}

#[test]
fn errors_compare_and_copy() {
    let e = AconError::OverwritingKey(Some(3));
    let copy = e;
    assert_eq!(e, copy);
    assert_ne!(e, AconError::OverwritingKey(Some(4)));
    assert_ne!(e, AconError::OverwritingKey(None));
    assert_ne!(AconError::TopNodeIsArray, AconError::MultipleTopNodes);
}

#[test]
fn parser_reports_what_it_explains() {
    let e = "k 1\nk 2".parse::<acon::Acon>().unwrap_err();
    assert_eq!(e.reason(), "On line 2, the key is already present in the table.");
}
