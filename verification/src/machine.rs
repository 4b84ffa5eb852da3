//! What parsing means.
//!
//! A document is read line by line. The reader keeps a stack of the
//! nestings that are open: at the bottom the document itself, a table
//! without a name, and above it every array and table that a line has
//! opened and no line has closed yet. Each line, taken as its sequence of
//! words, moves the stack one step. This module defines that step, the run
//! over all lines and the result of a whole text, as functions of the model.

use crate::error::AconError;
use crate::model::{has_key, put, Entry, Value};
use crate::text::{join, lemma_span, lines_of, span, words_of, Mark, Text};
use vstd::prelude::*;

verus! {

/// An array or a table that is open while the lines that fill it are read.
pub enum Frame {
    /// An open array, with its name and the elements it has so far.
    Array { name: Text, items: Seq<Value> },
    /// An open table, with its name and the entries it has so far.
    Table { name: Text, entries: Seq<Entry> },
}

impl Frame {
    /// The name that the opening line gave; empty where it gave none.
    pub open spec fn name(self) -> Text {
        match self {
            Frame::Array { name, .. } => name,
            Frame::Table { name, .. } => name,
        }
    }

    /// The value that the frame is once it is closed.
    pub open spec fn value(self) -> Value {
        match self {
            Frame::Array { items, .. } => Value::Array(items),
            Frame::Table { entries, .. } => Value::Table(entries),
        }
    }

    /// What the frame becomes as an element of an array: its value where it
    /// has no name, and else a table whose one entry holds the value under
    /// the name.
    pub open spec fn element(self) -> Value {
        if self.name().len() == 0 {
            self.value()
        } else {
            Value::Table(seq![Entry { key: self.name(), value: self.value() }])
        }
    }
}

/// The word that opens a table.
pub open spec fn table_opener() -> Text {
    seq!['{']
}

/// The word that closes a table.
pub open spec fn table_closer() -> Text {
    seq!['}']
}

/// The word that opens an array.
pub open spec fn array_opener() -> Text {
    seq!['[']
}

/// The word that closes an array.
pub open spec fn array_closer() -> Text {
    seq![']']
}

/// The word that closes everything that is open.
pub open spec fn closer_of_all() -> Text {
    seq!['$']
}

/// Whether a word, standing first on its line, is one of the five
/// delimiters.
pub open spec fn is_delimiter(word: Text) -> bool {
    ||| word == table_opener()
    ||| word == table_closer()
    ||| word == array_opener()
    ||| word == array_closer()
    ||| word == closer_of_all()
}

/// The five delimiters are five different words, of one character each.
pub proof fn lemma_delimiters_differ()
    ensures
        table_opener() != table_closer(),
        table_opener() != array_opener(),
        table_opener() != array_closer(),
        table_opener() != closer_of_all(),
        table_closer() != array_opener(),
        table_closer() != array_closer(),
        table_closer() != closer_of_all(),
        array_opener() != array_closer(),
        array_opener() != closer_of_all(),
        array_closer() != closer_of_all(),
{
    assert(table_opener()[0] == '{' && table_closer()[0] == '}' && array_opener()[0] == '['
        && array_closer()[0] == ']' && closer_of_all()[0] == '$');
}

/// The name that an opening line gives: its second word, or the empty text.
pub open spec fn name_of(words: Seq<Text>) -> Text {
    if words.len() > 1 {
        words[1]
    } else {
        Seq::empty()
    }
}

/// The stack before the first line: the document, open and empty.
pub open spec fn start() -> Seq<Frame> {
    seq![Frame::Table { name: Seq::empty(), entries: Seq::empty() }]
}

/// The parent after a closed child has been put into it. An array takes the
/// child as its next element. A table takes it under the child's name, and
/// refuses a name that it already has as a key.
pub open spec fn merge(parent: Frame, child: Frame, line: usize) -> Result<Frame, AconError> {
    match parent {
        Frame::Array { name, items } => Ok(Frame::Array { name, items: items.push(child.element()) }),
        Frame::Table { name, entries } => if has_key(entries, child.name()) {
            Err(AconError::OverwritingKey(Some(line)))
        } else {
            Ok(Frame::Table { name, entries: put(entries, child.name(), child.value()) })
        },
    }
}

/// The stack after its top frame has been put into the frame below it.
pub open spec fn fold_top(stack: Seq<Frame>, line: usize) -> Result<Seq<Frame>, AconError> {
    match merge(stack[stack.len() - 2], stack.last(), line) {
        Ok(parent) => Ok(stack.take(stack.len() - 2).push(parent)),
        Err(e) => Err(e),
    }
}

/// The stack after a line whose first word is `}` or `]`. The word must fit
/// the kind of the top frame, and the top frame must not be the document.
pub open spec fn close(stack: Seq<Frame>, word: Text, line: usize) -> Result<
    Seq<Frame>,
    AconError,
> {
    if stack.last() is Array && word != array_closer() {
        Err(AconError::WrongClosingDelimiterExpectedArray(Some(line)))
    } else if stack.last() is Table && word != table_closer() {
        Err(AconError::WrongClosingDelimiterExpectedTable(Some(line)))
    } else if stack.len() <= 1 {
        Err(AconError::ExcessiveClosingDelimiter(Some(line)))
    } else {
        fold_top(stack, line)
    }
}

/// The stack after a line whose first word is `$`: every frame above the
/// document is put into the frame below it, the topmost first.
pub open spec fn close_all(stack: Seq<Frame>, line: usize) -> Result<Seq<Frame>, AconError>
    decreases stack.len(),
{
    if stack.len() <= 1 {
        Ok(stack)
    } else {
        match fold_top(stack, line) {
            Ok(shorter) => close_all(shorter, line),
            Err(e) => Err(e),
        }
    }
}

/// The top frame after a line that does not begin with a delimiter. An
/// array takes the whole line, its words joined by single spaces, as its
/// next element; a line without words gives the empty string. A table takes
/// the first word as a key and the other words, joined, as the string under
/// it, and refuses a key that it already has; a line without words leaves
/// it as it is.
pub open spec fn append(top: Frame, words: Seq<Text>, line: usize) -> Result<Frame, AconError> {
    match top {
        Frame::Array { name, items } => Ok(
            Frame::Array { name, items: items.push(Value::String(join(words))) },
        ),
        Frame::Table { name, entries } => if words.len() == 0 {
            Ok(top)
        } else if has_key(entries, words[0]) {
            Err(AconError::OverwritingKey(Some(line)))
        } else {
            Ok(
                Frame::Table {
                    name,
                    entries: put(entries, words[0], Value::String(join(words.skip(1)))),
                },
            )
        },
    }
}

/// The stack after one line, given as its words, with its line number.
pub open spec fn step(stack: Seq<Frame>, words: Seq<Text>, line: usize) -> Result<
    Seq<Frame>,
    AconError,
> {
    if words.len() > 0 && words[0] == table_opener() {
        Ok(stack.push(Frame::Table { name: name_of(words), entries: Seq::empty() }))
    } else if words.len() > 0 && words[0] == array_opener() {
        Ok(stack.push(Frame::Array { name: name_of(words), items: Seq::empty() }))
    } else if words.len() > 0 && (words[0] == table_closer() || words[0] == array_closer()) {
        close(stack, words[0], line)
    } else if words.len() > 0 && words[0] == closer_of_all() {
        close_all(stack, line)
    } else {
        match append(stack.last(), words, line) {
            Ok(top) => Ok(stack.drop_last().push(top)),
            Err(e) => Err(e),
        }
    }
}

/// The stack after the lines, where `done` lines have gone before them. The
/// first error ends the run.
pub open spec fn run(stack: Seq<Frame>, lines: Seq<Seq<Text>>, done: nat) -> Result<
    Seq<Frame>,
    AconError,
>
    decreases lines.len(),
{
    if lines.len() == 0 {
        Ok(stack)
    } else {
        match step(stack, lines[0], (done + 1) as usize) {
            Ok(next) => run(next, lines.drop_first(), done + 1),
            Err(e) => Err(e),
        }
    }
}

/// The result at the end of the text: the document, where nothing else is
/// open, and else an error that names the kind of the innermost nesting
/// that was left open.
pub open spec fn finish(stack: Seq<Frame>) -> Result<Value, AconError> {
    if stack.len() == 1 && stack[0] is Table {
        Ok(stack[0].value())
    } else if stack.last() is Array {
        Err(AconError::TopNodeIsArray)
    } else {
        Err(AconError::MultipleTopNodes)
    }
}

/// The result of a run: what `finish` makes of the stack it reached, or
/// the error that ended it.
pub open spec fn conclude(reached: Result<Seq<Frame>, AconError>) -> Result<Value, AconError> {
    match reached {
        Ok(stack) => finish(stack),
        Err(e) => Err(e),
    }
}

/// The result of a document given as the words of each of its lines.
pub open spec fn parse_lines(lines: Seq<Seq<Text>>) -> Result<Value, AconError> {
    conclude(run(start(), lines, 0))
}

/// The words of each of the lines.
pub open spec fn words_of_lines(lines: Seq<Text>) -> Seq<Seq<Text>> {
    Seq::new(lines.len(), |i: int| words_of(lines[i]))
}

/// The words of each line of a text.
pub open spec fn tokens(text: Text) -> Seq<Seq<Text>> {
    words_of_lines(lines_of(text))
}

/// The result of a document given as text.
pub open spec fn parse_text(text: Text) -> Result<Value, AconError> {
    parse_lines(tokens(text))
}

/// The words of the lines of a text are the words of its first line, and
/// then those of the lines of what follows its first line feed.
pub proof fn lemma_tokens_unfold(text: Text)
    requires
        text.len() > 0,
    ensures
        0 <= span(text, Mark::Newline) <= text.len(),
        span(text, Mark::Newline) < text.len() ==> tokens(text) == seq![
            words_of(text.take(span(text, Mark::Newline))),
        ] + tokens(text.skip(span(text, Mark::Newline) + 1)),
        span(text, Mark::Newline) == text.len() ==> tokens(text) == seq![words_of(text)],
{
    lemma_span(text, Mark::Newline);
    let n = span(text, Mark::Newline);
    if n < text.len() {
        let rest = text.skip(n + 1);
        assert(lines_of(text) == seq![text.take(n)] + lines_of(rest));
        lemma_words_of_lines_add(seq![text.take(n)], lines_of(rest));
        assert(words_of_lines(seq![text.take(n)]) =~= seq![words_of(text.take(n))]);
    } else {
        assert(lines_of(text) == seq![text]);
        assert(tokens(text) =~= seq![words_of(text)]);
    }
}

/// The words of two runs of lines are the words of the first and then the
/// words of the second.
pub proof fn lemma_words_of_lines_add(a: Seq<Text>, b: Seq<Text>)
    ensures
        words_of_lines(a + b) == words_of_lines(a) + words_of_lines(b),
{
    assert(words_of_lines(a + b) =~= words_of_lines(a) + words_of_lines(b));
}

/// A run over two runs of lines is the run over the second, begun where
/// the run over the first ends.
pub proof fn lemma_run_add(stack: Seq<Frame>, a: Seq<Seq<Text>>, b: Seq<Seq<Text>>, done: nat)
    ensures
        run(stack, a + b, done) == match run(stack, a, done) {
            Ok(reached) => run(reached, b, done + a.len()),
            Err(e) => Err(e),
        },
    decreases a.len(),
{
    if a.len() == 0 {
        assert(a + b =~= b);
    } else {
        assert((a + b)[0] == a[0]);
        assert((a + b).drop_first() =~= a.drop_first() + b);
        match step(stack, a[0], (done + 1) as usize) {
            Ok(next) => {
                lemma_run_add(next, a.drop_first(), b, done + 1);
            },
            Err(_) => {},
        }
    }
}

/// A run over one line is one step.
pub proof fn lemma_run_one(stack: Seq<Frame>, words: Seq<Text>, done: nat)
    ensures
        run(stack, seq![words], done) == step(stack, words, (done + 1) as usize),
{
    assert(seq![words].drop_first() =~= Seq::<Seq<Text>>::empty());
    match step(stack, words, (done + 1) as usize) {
        Ok(next) => {
            assert(run(next, Seq::<Seq<Text>>::empty(), done + 1) == Ok::<Seq<Frame>, AconError>(
                next,
            ));
        },
        Err(_) => {},
    }
}

} // verus!
