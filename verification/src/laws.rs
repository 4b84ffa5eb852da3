//! What holds of the format as a whole.
//!
//! Each law is stated over the model and proved from the definitions of
//! the other modules. The functions that run have contracts over the same
//! definitions, so each law holds of them as well.

use crate::canon::{is_reported, lemma_parse_fits};
use crate::error::AconError;
use crate::machine::{
    array_closer, close, close_all, closer_of_all, fold_top, is_delimiter,
    lemma_delimiters_differ, lemma_run_add, lemma_run_one, merge, parse_lines, parse_text, run,
    start, step, table_closer, Frame,
};
use crate::model::{
    ascending, has_key, index_of, lemma_put, lemma_put_other, lookup, put, Entry, Value,
};
use crate::printer::print_text;
use crate::roundtrip::{lemma_round_trip_same, lemma_table_returns};
use crate::text::{
    free_of, is_blank, lemma_span_whole, lemma_words_of_blank, segments_of, words_of, Mark, Text,
};
use vstd::prelude::*;

verus! {

/// In an array, a key that denotes no index, or an index beyond the end,
/// finds nothing; and nothing is ever found in a string.
pub proof fn law_get_finds_nothing(items: Seq<Value>, text: Text, key: Text)
    ensures
        index_of(key) is None ==> Value::Array(items).get(key) is None,
        index_of(key) matches Some(i) ==> Value::Array(items).get(key) == if i < items.len() {
            Some(items[i as int])
        } else {
            None
        },
        Value::String(text).get(key) is None,
{
}

/// Storing a value in a table makes it the value found under its key,
/// keeps the keys in ascending order and leaves what is found under every
/// other key as it was.
pub proof fn law_store(entries: Seq<Entry>, key: Text, value: Value, other: Text)
    requires
        ascending(entries),
        other != key,
    ensures
        ascending(put(entries, key, value)),
        lookup(put(entries, key, value), key) == Some(value),
        lookup(put(entries, key, value), other) == lookup(entries, other),
{
    lemma_put(entries, key, value);
    lemma_put_other(entries, key, value, other);
}

/// A path without a full stop is a key, and a path with one is the key
/// before its first full stop and then the path that follows it.
pub proof fn law_path_by_segments(tree: Value, head: Text, rest: Text)
    requires
        free_of(head, Mark::Dot),
    ensures
        tree.path(head) == tree.get(head),
        tree.path(head + seq!['.'] + rest) == match tree.get(head) {
            Some(child) => child.path(rest),
            None => None,
        },
{
    let whole = head + seq!['.'] + rest;
    assert(head + Seq::<char>::empty() =~= head);
    lemma_span_whole(head, Seq::empty(), Mark::Dot);
    assert(segments_of(head) =~= seq![head]);
    assert(seq![head].drop_first() =~= Seq::<Text>::empty());
    assert(whole =~= head + (seq!['.'] + rest));
    lemma_span_whole(head, seq!['.'] + rest, Mark::Dot);
    assert(whole.take(head.len() as int) =~= head);
    assert(whole.skip(head.len() as int + 1) =~= rest);
    assert(segments_of(whole) =~= seq![head] + segments_of(rest));
    assert((seq![head] + segments_of(rest)).drop_first() =~= segments_of(rest));
    match tree.get(head) {
        Some(child) => {
            assert(child.descend(Seq::<Text>::empty()) == Some(child));
        },
        None => {},
    }
}

/// A line of whitespace alone has no words. So in an array it becomes an
/// element, the empty string, and in a table it changes nothing.
pub proof fn law_blank_line(stack: Seq<Frame>, line: Text, number: usize)
    requires
        stack.len() >= 1,
        is_blank(line),
    ensures
        stack.last() is Array ==> step(stack, words_of(line), number) == Ok::<
            Seq<Frame>,
            AconError,
        >(
            stack.drop_last().push(
                Frame::Array {
                    name: stack.last().name(),
                    items: stack.last()->Array_items.push(Value::String(Seq::empty())),
                },
            ),
        ),
        stack.last() is Table ==> step(stack, words_of(line), number) == Ok::<
            Seq<Frame>,
            AconError,
        >(stack),
{
    lemma_words_of_blank(line);
    assert(stack.drop_last().push(stack.last()) =~= stack);
}

/// The closing word that fits a frame.
pub open spec fn closer_for(frame: Frame) -> Text {
    if frame is Array {
        array_closer()
    } else {
        table_closer()
    }
}

/// The stack after the frames above the document have been closed one by
/// one, each by the word that fits it, as far as `times` goes.
pub open spec fn close_each(stack: Seq<Frame>, times: nat, line: usize) -> Result<
    Seq<Frame>,
    AconError,
>
    decreases times,
{
    if times == 0 {
        Ok(stack)
    } else {
        match close(stack, closer_for(stack.last()), line) {
            Ok(shorter) => close_each(shorter, (times - 1) as nat, line),
            Err(e) => Err(e),
        }
    }
}

/// The lines that close every frame above the document, each by the word
/// that fits it: one line for each frame, the topmost first.
pub open spec fn closing_lines(stack: Seq<Frame>) -> Seq<Seq<Text>>
    decreases stack.len(),
{
    if stack.len() <= 1 {
        Seq::empty()
    } else {
        seq![seq![closer_for(stack.last())]] + closing_lines(stack.drop_last())
    }
}

/// Whether a frame can be put into another does not depend on the line,
/// nor does what comes of it; the line only marks the error.
pub proof fn lemma_merge_any_line(parent: Frame, child: Frame, one: usize, other: usize)
    ensures
        merge(parent, child, one) is Ok ==> merge(parent, child, other) == merge(
            parent,
            child,
            one,
        ),
        merge(parent, child, one) matches Ok(merged) ==> closer_for(merged) == closer_for(parent),
{
}

/// The closing lines of a stack depend on the kinds of its frames alone.
pub proof fn lemma_closing_lines_by_kind(a: Seq<Frame>, b: Seq<Frame>)
    requires
        a.len() == b.len(),
        forall|i: int| 0 <= i < a.len() ==> closer_for(#[trigger] a[i]) == closer_for(b[i]),
    ensures
        closing_lines(a) == closing_lines(b),
    decreases a.len(),
{
    if a.len() > 1 {
        assert(closer_for(a[a.len() - 1]) == closer_for(b[b.len() - 1]));
        assert forall|i: int| 0 <= i < a.drop_last().len() implies closer_for(
            #[trigger] a.drop_last()[i],
        ) == closer_for(b.drop_last()[i]) by {
            assert(a.drop_last()[i] == a[i]);
            assert(b.drop_last()[i] == b[i]);
        }
        lemma_closing_lines_by_kind(a.drop_last(), b.drop_last());
    }
}

/// The word that closes everything closes every frame above the document
/// as the fitting closing words would, one frame after the other.
pub proof fn law_close_all_closes_each(stack: Seq<Frame>, line: usize)
    requires
        stack.len() >= 1,
    ensures
        close_all(stack, line) == close_each(stack, (stack.len() - 1) as nat, line),
        close_all(stack, line) matches Ok(closed) ==> closed.len() == 1,
    decreases stack.len(),
{
    lemma_delimiters_differ();
    if stack.len() > 1 {
        assert(close(stack, closer_for(stack.last()), line) == fold_top(stack, line));
        match fold_top(stack, line) {
            Ok(shorter) => {
                law_close_all_closes_each(shorter, line);
            },
            Err(_) => {},
        }
    }
}

/// Where a line that begins with `$` is read without an error, the stack
/// after it is the stack after the lines that close the open frames one by
/// one, each by the word that fits it.
pub proof fn law_close_all_as_lines(stack: Seq<Frame>, words: Seq<Text>, line: usize, done: nat)
    requires
        stack.len() >= 1,
        words.len() > 0,
        words[0] == closer_of_all(),
        step(stack, words, line) is Ok,
    ensures
        run(stack, closing_lines(stack), done) == step(stack, words, line),
    decreases stack.len(),
{
    lemma_delimiters_differ();
    assert(step(stack, words, line) == close_all(stack, line));
    if stack.len() > 1 {
        let closer = closer_for(stack.last());
        let first = seq![closer];
        let number = (done + 1) as usize;
        let parent = stack[stack.len() - 2];
        lemma_merge_any_line(parent, stack.last(), line, number);
        let shorter = fold_top(stack, line)->Ok_0;
        assert(fold_top(stack, number) == Ok::<Seq<Frame>, AconError>(shorter));
        assert(first[0] == closer);
        assert(step(stack, first, number) == close(stack, closer, number));
        assert(step(stack, first, number) == Ok::<Seq<Frame>, AconError>(shorter));
        lemma_run_one(stack, first, done);
        lemma_run_add(stack, seq![first], closing_lines(stack.drop_last()), done);
        assert forall|i: int| 0 <= i < shorter.len() implies closer_for(#[trigger] shorter[i])
            == closer_for(stack.drop_last()[i]) by {
            if i < shorter.len() - 1 {
                assert(shorter[i] == stack[i]);
            }
        }
        lemma_closing_lines_by_kind(shorter, stack.drop_last());
        assert(step(shorter, words, line) == close_all(shorter, line));
        law_close_all_as_lines(shorter, words, line, done + 1);
    }
}

/// A text that ends while an array or a table is open is refused, and the
/// error tells which of the two the innermost open nesting is.
pub proof fn law_open_at_the_end(lines: Seq<Seq<Text>>)
    requires
        run(start(), lines, 0) matches Ok(stack) && stack.len() > 1,
    ensures
        run(start(), lines, 0)->Ok_0.last() is Array ==> parse_lines(lines) == Err::<
            Value,
            AconError,
        >(AconError::TopNodeIsArray),
        run(start(), lines, 0)->Ok_0.last() is Table ==> parse_lines(lines) == Err::<
            Value,
            AconError,
        >(AconError::MultipleTopNodes),
{
}

/// The first error is the result: a text whose line `n + 1` is refused
/// where the lines before it are read is refused as a whole, with that
/// error.
pub proof fn law_first_error(lines: Seq<Seq<Text>>, n: int, e: AconError)
    requires
        0 <= n < lines.len(),
        run(start(), lines.take(n), 0) matches Ok(stack) && step(stack, lines[n], (n + 1) as usize)
            == Err::<Seq<Frame>, AconError>(e),
    ensures
        parse_lines(lines) == Err::<Value, AconError>(e),
{
    let before = lines.take(n);
    let after = lines.skip(n);
    assert(lines =~= before + after);
    lemma_run_add(start(), before, after, 0);
    assert(after[0] == lines[n]);
}

/// A key is never overwritten. A line that gives a key which the open
/// table has already is refused, at any depth, with the number of that
/// line.
pub proof fn law_duplicate_key(lines: Seq<Seq<Text>>, n: int)
    requires
        0 <= n < lines.len(),
        lines[n].len() > 0,
        !is_delimiter(lines[n][0]),
        run(start(), lines.take(n), 0) matches Ok(stack) && stack.last() is Table && has_key(
            stack.last()->Table_entries,
            lines[n][0],
        ),
    ensures
        parse_lines(lines) == Err::<Value, AconError>(
            AconError::OverwritingKey(Some((n + 1) as usize)),
        ),
{
    law_first_error(lines, n, AconError::OverwritingKey(Some((n + 1) as usize)));
}

/// A name is never overwritten either. A line that closes an array or a
/// table whose name the table around it has already as a key is refused,
/// at any depth, with the number of that line; and so is a line that
/// closes everything.
pub proof fn law_duplicate_name(lines: Seq<Seq<Text>>, n: int)
    requires
        0 <= n < lines.len(),
        lines[n].len() > 0,
        run(start(), lines.take(n), 0) matches Ok(stack) && stack.len() >= 2 && (lines[n][0]
            == closer_for(stack.last()) || lines[n][0] == closer_of_all()) && stack[stack.len()
            - 2] is Table && has_key(stack[stack.len() - 2]->Table_entries, stack.last().name()),
    ensures
        parse_lines(lines) == Err::<Value, AconError>(
            AconError::OverwritingKey(Some((n + 1) as usize)),
        ),
{
    lemma_delimiters_differ();
    law_first_error(lines, n, AconError::OverwritingKey(Some((n + 1) as usize)));
}

/// Printing a tree that has the shape of a parsed tree, and parsing the
/// text, gives the tree as a round trip makes it: with the empty string as
/// one more element at the end of every array, and the same in all else.
pub proof fn law_print_then_parse(tree: Value)
    requires
        tree is Table,
        tree.wf(),
        tree.canonical(),
    ensures
        parse_text(print_text(tree->Table_0)) == Ok::<Value, AconError>(tree.round_trip()),
        tree.round_trip() == tree <==> tree.array_free(),
{
    assert(tree == Value::Table(tree->Table_0));
    lemma_table_returns(tree->Table_0);
    lemma_round_trip_same(tree);
}

/// What parsing gives, printed and parsed again, is what it was, exactly
/// where it holds no array. (The empty line that the printer puts before
/// the end of a block is read as an element where the block is an array.)
pub proof fn law_round_trip(text: Text)
    requires
        parse_text(text) is Ok,
    ensures
        parse_text(text)->Ok_0 is Table,
        parse_text(print_text(parse_text(text)->Ok_0->Table_0)) == parse_text(text)
            <==> parse_text(text)->Ok_0.array_free(),
{
    lemma_parse_fits(text);
    law_print_then_parse(parse_text(text)->Ok_0);
}

/// What parsing gives is a table, with the keys of every table in
/// ascending order and in the shape that the words of a text give; and
/// what it refuses, it refuses with an error that it reports.
pub proof fn law_parse_gives_table(text: Text)
    ensures
        parse_text(text) matches Ok(tree) ==> tree is Table && tree.wf() && tree.canonical(),
        parse_text(text) matches Err(e) ==> is_reported(e),
{
    lemma_parse_fits(text);
}

} // verus!
