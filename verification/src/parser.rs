//! The parser: from text to an `Acon` tree, or to the first error.

use crate::canon::{is_reported, lemma_parse_fits};
use crate::error::AconError;
use crate::machine::{
    array_closer, array_opener, close, close_all, closer_of_all, conclude, fold_top,
    lemma_delimiters_differ, lemma_tokens_unfold, merge, name_of, parse_text, run, start, step,
    table_closer, table_opener, tokens, Frame,
};
use crate::model::{has_key, lemma_rank_is, put, Entry, Value};
use crate::text::{chars_of, join, join_words, same, scan, split_words, Mark, Text};
use crate::value::{lemma_array_view, views, Acon, Table};
use vstd::prelude::*;

verus! {

/// An array or a table that is open while the lines that fill it are read.
enum Node {
    /// An open array, with its name and the elements it has so far.
    Array { name: String, items: Vec<Acon> },
    /// An open table, with its name and the entries it has so far.
    Table { name: String, table: Table },
}

impl View for Node {
    type V = Frame;

    closed spec fn view(&self) -> Frame {
        match self {
            Node::Array { name, items } => Frame::Array { name: name@, items: views(items@) },
            Node::Table { name, table } => Frame::Table { name: name@, entries: table@ },
        }
    }
}

/// The frames that a stack of nodes stands for.
spec fn frames(stack: Seq<Node>) -> Seq<Frame> {
    Seq::new(stack.len(), |i: int| stack[i]@)
}

/// What a result of the parser stands for.
pub open spec fn outcome(r: Result<Acon, AconError>) -> Result<Value, AconError> {
    match r {
        Ok(tree) => Ok(tree@),
        Err(e) => Err(e),
    }
}

/// The first word of a line, told apart as a delimiter or as ordinary
/// text.
enum Lead {
    OpenTable,
    CloseTable,
    OpenArray,
    CloseArray,
    CloseAll,
    Text,
}

/// Tells the first word of a line apart.
fn lead_of(word: &str) -> (r: Lead)
    ensures
        r is OpenTable <==> word@ == table_opener(),
        r is CloseTable <==> word@ == table_closer(),
        r is OpenArray <==> word@ == array_opener(),
        r is CloseArray <==> word@ == array_closer(),
        r is CloseAll <==> word@ == closer_of_all(),
{
    proof {
        reveal_strlit("{");
        reveal_strlit("}");
        reveal_strlit("[");
        reveal_strlit("]");
        reveal_strlit("$");
        assert("{"@ =~= table_opener());
        assert("}"@ =~= table_closer());
        assert("["@ =~= array_opener());
        assert("]"@ =~= array_closer());
        assert("$"@ =~= closer_of_all());
        lemma_delimiters_differ();
    }
    if same(word, "{") {
        Lead::OpenTable
    } else if same(word, "}") {
        Lead::CloseTable
    } else if same(word, "[") {
        Lead::OpenArray
    } else if same(word, "]") {
        Lead::CloseArray
    } else if same(word, "$") {
        Lead::CloseAll
    } else {
        Lead::Text
    }
}

/// The name that an opening line gives: its second word, or the empty
/// string.
fn name_from(words: &Vec<String>) -> (r: String)
    ensures
        r@ == name_of(words.deep_view()),
{
    if words.len() > 1 {
        words[1].clone()
    } else {
        String::new()
    }
}

/// Puts the document, open and empty, on the stack.
fn push_base_table(stack: &mut Vec<Node>)
    requires
        old(stack)@.len() == 0,
    ensures
        frames(final(stack)@) == start(),
{
    stack.push(Node::Table { name: String::new(), table: Table::new() });
    assert(frames(stack@) =~= start());
}

/// Opens an array with the name that the line gives.
fn push_array(words: &Vec<String>, stack: &mut Vec<Node>)
    ensures
        frames(final(stack)@) == frames(old(stack)@).push(
            Frame::Array { name: name_of(words.deep_view()), items: Seq::empty() },
        ),
{
    let node = Node::Array { name: name_from(words), items: Vec::new() };
    assert(node@->Array_items =~= Seq::<Value>::empty());
    stack.push(node);
    assert(frames(stack@) =~= frames(old(stack)@).push(node@));
}

/// Opens a table with the name that the line gives.
fn push_table(words: &Vec<String>, stack: &mut Vec<Node>)
    ensures
        frames(final(stack)@) == frames(old(stack)@).push(
            Frame::Table { name: name_of(words.deep_view()), entries: Seq::empty() },
        ),
{
    let node = Node::Table { name: name_from(words), table: Table::new() };
    stack.push(node);
    assert(frames(stack@) =~= frames(old(stack)@).push(node@));
}

/// Puts a closed nesting into the one that is to hold it.
fn merge_into(parent: &mut Node, child: Node, line: usize) -> (r: Result<(), AconError>)
    ensures
        match r {
            Ok(()) => merge(old(parent)@, child@, line) == Ok::<Frame, AconError>(final(parent)@),
            Err(e) => merge(old(parent)@, child@, line) == Err::<Frame, AconError>(e),
        },
{
    let (name, value) = match child {
        Node::Array { name, items } => {
            proof {
                lemma_array_view(Acon::Array(items));
            }
            (name, Acon::Array(items))
        },
        Node::Table { name, table } => (name, Acon::Table(table)),
    };
    assert(name@ == child@.name() && value@ == child@.value());
    match parent {
        Node::Array { items, .. } => {
            let ghost before = items@;
            let element = if name.as_str().is_empty() {
                value
            } else {
                let mut wrapper = Table::new();
                proof {
                    lemma_rank_is(Seq::<Entry>::empty(), name@, 0);
                    assert(put(Seq::<Entry>::empty(), name@, value@) =~= seq![
                        Entry { key: name@, value: value@ },
                    ]);
                }
                wrapper.insert(name, value);
                Acon::Table(wrapper)
            };
            assert(element@ == child@.element());
            items.push(element);
            assert(views(items@) =~= views(before).push(element@));
            Ok(())
        },
        Node::Table { table, .. } => {
            if table.contains_key(name.as_str()) {
                Err(AconError::OverwritingKey(Some(line)))
            } else {
                table.insert(name, value);
                Ok(())
            }
        },
    }
}

/// Puts the top of the stack into the nesting below it.
fn fold(stack: &mut Vec<Node>, line: usize) -> (r: Result<(), AconError>)
    requires
        old(stack)@.len() >= 2,
    ensures
        match r {
            Ok(()) => fold_top(frames(old(stack)@), line) == Ok::<Seq<Frame>, AconError>(
                frames(final(stack)@),
            ) && final(stack)@.len() == old(stack)@.len() - 1,
            Err(e) => fold_top(frames(old(stack)@), line) == Err::<Seq<Frame>, AconError>(e),
        },
{
    let ghost before = frames(stack@);
    let top = stack.pop().unwrap();
    let mut parent = stack.pop().unwrap();
    assert(before[before.len() - 2] == parent@ && before.last() == top@);
    match merge_into(&mut parent, top, line) {
        Ok(()) => {
            stack.push(parent);
            assert(frames(stack@) =~= before.take(before.len() - 2).push(parent@));
            Ok(())
        },
        Err(e) => Err(e),
    }
}

/// Closes everything that is open above the document.
fn close_all_nestings(stack: &mut Vec<Node>, line: usize) -> (r: Result<(), AconError>)
    requires
        old(stack)@.len() >= 1,
    ensures
        match r {
            Ok(()) => close_all(frames(old(stack)@), line) == Ok::<Seq<Frame>, AconError>(
                frames(final(stack)@),
            ) && final(stack)@.len() == 1,
            Err(e) => close_all(frames(old(stack)@), line) == Err::<Seq<Frame>, AconError>(e),
        },
{
    while stack.len() > 1
        invariant
            stack@.len() >= 1,
            close_all(frames(old(stack)@), line) == close_all(frames(stack@), line),
        decreases stack@.len(),
    {
        match fold(stack, line) {
            Ok(()) => {},
            Err(e) => {
                return Err(e);
            },
        }
    }
    Ok(())
}

/// Closes the innermost open nesting, which the closing word must fit.
fn close_array_or_table(word: &str, stack: &mut Vec<Node>, line: usize) -> (r: Result<
    (),
    AconError,
>)
    requires
        old(stack)@.len() >= 1,
        word@ == array_closer() || word@ == table_closer(),
    ensures
        match r {
            Ok(()) => close(frames(old(stack)@), word@, line) == Ok::<Seq<Frame>, AconError>(
                frames(final(stack)@),
            ) && final(stack)@.len() >= 1,
            Err(e) => close(frames(old(stack)@), word@, line) == Err::<Seq<Frame>, AconError>(e),
        },
{
    proof {
        reveal_strlit("]");
        assert("]"@ =~= array_closer());
        lemma_delimiters_differ();
        assert(frames(stack@).last() == stack@.last()@);
    }
    let closes_array = same(word, "]");
    let top_is_array = match &stack[stack.len() - 1] {
        Node::Array { .. } => true,
        Node::Table { .. } => false,
    };
    if top_is_array && !closes_array {
        Err(AconError::WrongClosingDelimiterExpectedArray(Some(line)))
    } else if !top_is_array && closes_array {
        Err(AconError::WrongClosingDelimiterExpectedTable(Some(line)))
    } else if stack.len() == 1 {
        Err(AconError::ExcessiveClosingDelimiter(Some(line)))
    } else {
        fold(stack, line)
    }
}

/// Appends the line, as one string, to the array that is open.
fn append_line_to_top_array(array: &mut Vec<Acon>, words: &Vec<String>)
    ensures
        views(final(array)@) == views(old(array)@).push(Value::String(join(words.deep_view()))),
{
    assert(words.deep_view().skip(0) == words.deep_view());
    let element = Acon::String(join_words(words, 0));
    array.push(element);
    assert(views(array@) =~= views(old(array)@).push(element@));
}

/// Adds the entry that the line holds to the table that is open.
fn append_entry_to_top_table(table: &mut Table, words: &Vec<String>, line: usize) -> (r: Result<
    (),
    AconError,
>)
    ensures
        match r {
            Ok(()) => if words.deep_view().len() == 0 {
                final(table)@ == old(table)@
            } else {
                !has_key(old(table)@, words.deep_view()[0]) && final(table)@ == put(
                    old(table)@,
                    words.deep_view()[0],
                    Value::String(join(words.deep_view().skip(1))),
                )
            },
            Err(e) => words.deep_view().len() > 0 && has_key(old(table)@, words.deep_view()[0])
                && e == AconError::OverwritingKey(Some(line)),
        },
{
    if words.len() == 0 {
        return Ok(());
    }
    assert(words.deep_view()[0] == words[0]@);
    if table.contains_key(words[0].as_str()) {
        return Err(AconError::OverwritingKey(Some(line)));
    }
    let value = Acon::String(join_words(words, 1));
    table.insert(words[0].clone(), value);
    Ok(())
}

/// Moves the stack by one line, given as its words.
fn advance(stack: &mut Vec<Node>, words: &Vec<String>, line: usize) -> (r: Result<(), AconError>)
    requires
        old(stack)@.len() >= 1,
    ensures
        match r {
            Ok(()) => step(frames(old(stack)@), words.deep_view(), line) == Ok::<
                Seq<Frame>,
                AconError,
            >(frames(final(stack)@)) && final(stack)@.len() >= 1,
            Err(e) => step(frames(old(stack)@), words.deep_view(), line) == Err::<
                Seq<Frame>,
                AconError,
            >(e),
        },
{
    let lead = if words.len() > 0 {
        assert(words.deep_view()[0] == words[0]@);
        lead_of(words[0].as_str())
    } else {
        Lead::Text
    };
    proof {
        lemma_delimiters_differ();
    }
    match lead {
        Lead::OpenTable => {
            push_table(words, stack);
            Ok(())
        },
        Lead::OpenArray => {
            push_array(words, stack);
            Ok(())
        },
        Lead::CloseTable => close_array_or_table(words[0].as_str(), stack, line),
        Lead::CloseArray => close_array_or_table(words[0].as_str(), stack, line),
        Lead::CloseAll => close_all_nestings(stack, line),
        Lead::Text => {
            let ghost before = frames(stack@);
            let mut top = stack.pop().unwrap();
            assert(before.last() == top@);
            assert(frames(stack@) =~= before.drop_last());
            match &mut top {
                Node::Array { items, .. } => {
                    append_line_to_top_array(items, words);
                },
                Node::Table { table, .. } => {
                    match append_entry_to_top_table(table, words, line) {
                        Ok(()) => {},
                        Err(e) => {
                            return Err(e);
                        },
                    }
                },
            }
            stack.push(top);
            assert(frames(stack@) =~= before.drop_last().push(top@));
            Ok(())
        },
    }
}

impl Acon {
    /// Parses a document. The result is the table that the text stands
    /// for, or the first error that reading it line by line runs into.
    pub fn parse(text: &str) -> (r: Result<Acon, AconError>)
        ensures
            outcome(r) == parse_text(text@),
            r matches Ok(tree) ==> tree is Table && tree@.wf() && tree@.canonical(),
            r matches Err(e) ==> is_reported(e),
    {
        proof {
            lemma_parse_fits(text@);
        }
        let chars = chars_of(text);
        let mut stack: Vec<Node> = Vec::new();
        push_base_table(&mut stack);
        let mut line: usize = 0;
        let mut at: usize = 0;
        assert(chars@.skip(0) == chars@);
        while at < chars.len()
            invariant
                chars@ == text@,
                at <= chars@.len(),
                line <= at,
                stack@.len() >= 1,
                parse_text(text@) == conclude(
                    run(frames(stack@), tokens(chars@.skip(at as int)), line as nat),
                ),
            decreases chars@.len() - at,
        {
            let ghost rest = chars@.skip(at as int);
            let ghost before = frames(stack@);
            let end = scan(chars.as_slice(), at, chars.len(), Mark::Newline);
            let words = split_words(chars.as_slice(), at, end);
            line += 1;
            proof {
                assert(rest == chars@.subrange(at as int, chars@.len() as int));
                assert(rest.take(end - at) == chars@.subrange(at as int, end as int));
                lemma_tokens_unfold(rest);
                if end < chars@.len() {
                    assert(rest.skip(end - at + 1) == chars@.skip(end + 1));
                    assert(tokens(rest).drop_first() =~= tokens(chars@.skip(end + 1)));
                } else {
                    assert(tokens(rest).drop_first() =~= Seq::<Seq<Text>>::empty());
                    assert(chars@.skip(end as int) =~= Seq::<char>::empty());
                }
                assert(tokens(rest)[0] == words.deep_view());
                assert(run(before, tokens(rest), (line - 1) as nat) == match step(
                    before,
                    words.deep_view(),
                    line,
                ) {
                    Ok(next) => run(next, tokens(rest).drop_first(), line as nat),
                    Err(e) => Err(e),
                });
            }
            match advance(&mut stack, &words, line) {
                Ok(()) => {},
                Err(e) => {
                    proof {
                        lemma_parse_fits(text@);
                    }
                    return Err(e);
                },
            }
            at = if end < chars.len() {
                end + 1
            } else {
                end
            };
        }
        assert(chars@.skip(at as int) =~= Seq::<char>::empty());
        assert(tokens(Seq::<char>::empty()) =~= Seq::<Seq<Text>>::empty());
        let ghost reached = frames(stack@);
        let top = stack.pop().unwrap();
        assert(reached.last() == top@);
        match top {
            Node::Array { .. } => Err(AconError::TopNodeIsArray),
            Node::Table { table, .. } => {
                if stack.len() == 0 {
                    assert(reached[0] == top@);
                    Ok(Acon::Table(table))
                } else {
                    Err(AconError::MultipleTopNodes)
                }
            },
        }
    }
}

impl std::str::FromStr for Acon {
    type Err = AconError;

    /// Parses a document, as `Acon::parse` does.
    fn from_str(text: &str) -> (r: Result<Acon, AconError>)
        ensures
            outcome(r) == parse_text(text@),
            r matches Ok(tree) ==> tree is Table && tree@.wf() && tree@.canonical(),
            r matches Err(e) ==> is_reported(e),
    {
        Acon::parse(text)
    }
}

} // verus!
