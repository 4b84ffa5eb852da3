//! The shape of the trees that the parser gives.
//!
//! Not every tree is the result of parsing a text. What the parser gives
//! is made of words: its strings are words joined by single spaces, its
//! keys are words, and a word that would have been read as a delimiter is
//! never the key of a string, nor the first word of a string in an array.
//! This module names that shape and proves that the parser keeps to it.

use crate::error::AconError;
use crate::machine::{
    append, array_closer, close_all, closer_of_all, fold_top, is_delimiter, merge, parse_text,
    run, start, step, table_closer, tokens, Frame,
};
use crate::model::{has_key, lemma_put, lemma_put_absent, put, rank, Entry, Value};
use crate::text::{
    all_words, is_normal, is_word, join, lemma_join_is_normal, lemma_words_are_words,
    lemma_words_of_join, lines_of, words_of, Text,
};
use vstd::prelude::*;

verus! {

/// Whether a text can be the name of an array or a table: it is a word, or
/// it is empty.
pub open spec fn is_name(key: Text) -> bool {
    key.len() == 0 || is_word(key)
}

/// Whether a text can be the key of a string: it is a word, and not one of
/// the delimiters.
pub open spec fn is_plain(key: Text) -> bool {
    is_word(key) && !is_delimiter(key)
}

/// Whether a line with this text would be read as text: it has no words,
/// or its first word is not one of the delimiters.
pub open spec fn reads_as_text(text: Text) -> bool {
    words_of(text).len() == 0 || !is_delimiter(words_of(text)[0])
}

/// Whether the entry has the shape of an entry that the parser makes: a
/// string under a plain key, or an array or a table under a name.
pub open spec fn entry_fits(entry: Entry) -> bool {
    if entry.value is String {
        is_plain(entry.key)
    } else {
        is_name(entry.key)
    }
}

/// Whether the value has the shape of an element that the parser makes: a
/// string that reads as text, or any array or table.
pub open spec fn item_fits(item: Value) -> bool {
    item matches Value::String(text) ==> reads_as_text(text)
}

impl Value {
    /// Whether the tree has the shape of a parsed tree: every string is
    /// normal, every entry and every element fits.
    pub open spec fn canonical(self) -> bool
        decreases self,
    {
        match self {
            Value::Array(items) => forall|i: int|
                0 <= i < items.len() ==> (#[trigger] items[i]).canonical() && item_fits(items[i]),
            Value::String(text) => is_normal(text),
            Value::Table(entries) => forall|i: int|
                0 <= i < entries.len() ==> (#[trigger] entries[i]).value.canonical() && entry_fits(
                    entries[i],
                ),
        }
    }

    /// Whether the tree holds no array at any depth.
    pub open spec fn array_free(self) -> bool
        decreases self,
    {
        match self {
            Value::Array(_) => false,
            Value::String(_) => true,
            Value::Table(entries) => forall|i: int|
                0 <= i < entries.len() ==> (#[trigger] entries[i]).value.array_free(),
        }
    }
}

/// Whether the frame is one that a run can reach: its name is a name and
/// what it holds is well-formed and canonical.
pub open spec fn frame_fits(frame: Frame) -> bool {
    &&& is_name(frame.name())
    &&& frame.value().wf()
    &&& frame.value().canonical()
}

/// Whether the stack is one that a run can reach: the document at the
/// bottom, a table without a name, and every frame fitting.
pub open spec fn stack_fits(stack: Seq<Frame>) -> bool {
    &&& stack.len() >= 1
    &&& stack[0] is Table
    &&& forall|i: int| 0 <= i < stack.len() ==> frame_fits(#[trigger] stack[i])
}

/// Whether the error is one that the parser reports.
pub open spec fn is_reported(e: AconError) -> bool {
    !(e is InternalStringTop) && !(e is MissingStackTop)
}

/// Storing a fitting entry in a fitting table gives a fitting table.
pub proof fn lemma_put_fits(entries: Seq<Entry>, key: Text, value: Value)
    requires
        Value::Table(entries).wf(),
        Value::Table(entries).canonical(),
        !has_key(entries, key),
        value.wf(),
        value.canonical(),
        entry_fits(Entry { key, value }),
    ensures
        Value::Table(put(entries, key, value)).wf(),
        Value::Table(put(entries, key, value)).canonical(),
{
    lemma_put(entries, key, value);
    lemma_put_absent(entries, key, value);
    let n = rank(entries, key);
    let after = put(entries, key, value);
    assert forall|i: int| 0 <= i < after.len() implies (#[trigger] after[i]).value.wf()
        && after[i].value.canonical() && entry_fits(after[i]) by {
        if i < n {
            assert(after[i] == entries[i]);
        } else if i > n {
            assert(after[i] == entries[i - 1]);
        }
    }
}

/// Putting a fitting child into a fitting parent gives a fitting parent.
pub proof fn lemma_merge_fits(parent: Frame, child: Frame, line: usize)
    requires
        frame_fits(parent),
        frame_fits(child),
    ensures
        merge(parent, child, line) matches Ok(merged) ==> frame_fits(merged) && (merged is Table
            <==> parent is Table),
        merge(parent, child, line) matches Err(e) ==> is_reported(e),
{
    match parent {
        Frame::Array { name, items } => {
            let element = child.element();
            if child.name().len() != 0 {
                let only = Entry { key: child.name(), value: child.value() };
                assert(seq![only][0] == only);
            }
            assert(element.wf() && element.canonical() && item_fits(element));
            let after = items.push(element);
            assert(Value::Array(items)->Array_0 == items);
            assert forall|i: int| 0 <= i < after.len() implies (#[trigger] after[i]).wf()
                && after[i].canonical() && item_fits(after[i]) by {
                if i < items.len() {
                    assert(after[i] == items[i]);
                } else {
                    assert(after[i] == element);
                }
            }
        },
        Frame::Table { name, entries } => {
            if !has_key(entries, child.name()) {
                lemma_put_fits(entries, child.name(), child.value());
            }
        },
    }
}

/// Folding the top of a fitting stack gives a fitting stack.
pub proof fn lemma_fold_fits(stack: Seq<Frame>, line: usize)
    requires
        stack_fits(stack),
        stack.len() >= 2,
    ensures
        fold_top(stack, line) matches Ok(folded) ==> stack_fits(folded) && folded.len()
            == stack.len() - 1,
        fold_top(stack, line) matches Err(e) ==> is_reported(e),
{
    let parent = stack[stack.len() - 2];
    lemma_merge_fits(parent, stack.last(), line);
    if let Ok(merged) = merge(parent, stack.last(), line) {
        let folded = stack.take(stack.len() - 2).push(merged);
        assert forall|i: int| 0 <= i < folded.len() implies frame_fits(#[trigger] folded[i]) by {
            if i < folded.len() - 1 {
                assert(folded[i] == stack[i]);
            }
        }
    }
}

/// Closing everything on a fitting stack gives a fitting stack of the
/// document alone.
pub proof fn lemma_close_all_fits(stack: Seq<Frame>, line: usize)
    requires
        stack_fits(stack),
    ensures
        close_all(stack, line) matches Ok(closed) ==> stack_fits(closed) && closed.len() == 1,
        close_all(stack, line) matches Err(e) ==> is_reported(e),
    decreases stack.len(),
{
    if stack.len() > 1 {
        lemma_fold_fits(stack, line);
        if let Ok(folded) = fold_top(stack, line) {
            lemma_close_all_fits(folded, line);
        }
    }
}

/// A line that is read as text keeps a fitting frame fitting.
pub proof fn lemma_append_fits(top: Frame, words: Seq<Text>, line: usize)
    requires
        frame_fits(top),
        all_words(words),
        words.len() > 0 ==> !is_delimiter(words[0]),
    ensures
        append(top, words, line) matches Ok(longer) ==> frame_fits(longer) && (longer is Table
            <==> top is Table),
        append(top, words, line) matches Err(e) ==> is_reported(e),
{
    match top {
        Frame::Array { name, items } => {
            let element = Value::String(join(words));
            lemma_join_is_normal(words);
            lemma_words_of_join(words);
            assert(element.wf() && element.canonical() && item_fits(element));
            let after = items.push(element);
            assert(Value::Array(items)->Array_0 == items);
            assert forall|i: int| 0 <= i < after.len() implies (#[trigger] after[i]).wf()
                && after[i].canonical() && item_fits(after[i]) by {
                if i < items.len() {
                    assert(after[i] == items[i]);
                } else {
                    assert(after[i] == element);
                }
            }
        },
        Frame::Table { name, entries } => {
            if words.len() > 0 && !has_key(entries, words[0]) {
                let rest = words.skip(1);
                assert(all_words(rest)) by {
                    assert forall|i: int| 0 <= i < rest.len() implies is_word(#[trigger] rest[i]) by {
                        assert(rest[i] == words[i + 1]);
                    }
                }
                lemma_join_is_normal(rest);
                lemma_put_fits(entries, words[0], Value::String(join(rest)));
            }
        },
    }
}

/// One line keeps a fitting stack fitting.
pub proof fn lemma_step_fits(stack: Seq<Frame>, words: Seq<Text>, line: usize)
    requires
        stack_fits(stack),
        all_words(words),
    ensures
        step(stack, words, line) matches Ok(next) ==> stack_fits(next),
        step(stack, words, line) matches Err(e) ==> is_reported(e),
{
    if words.len() > 1 {
        assert(is_word(words[1]));
    }
    match step(stack, words, line) {
        Ok(next) => {
            if words.len() > 0 && is_delimiter(words[0]) {
                if words[0] == table_closer() || words[0]
                    == array_closer() {
                    lemma_fold_fits(stack, line);
                } else if words[0] == closer_of_all() {
                    lemma_close_all_fits(stack, line);
                } else {
                    assert forall|i: int| 0 <= i < next.len() implies frame_fits(
                        #[trigger] next[i],
                    ) by {
                        if i < stack.len() {
                            assert(next[i] == stack[i]);
                        }
                    }
                }
            } else {
                lemma_append_fits(stack.last(), words, line);
                assert forall|i: int| 0 <= i < next.len() implies frame_fits(#[trigger] next[i]) by {
                    if i < stack.len() - 1 {
                        assert(next[i] == stack[i]);
                    }
                }
            }
        },
        Err(e) => {
            if words.len() > 0 && is_delimiter(words[0]) {
                if words[0] == table_closer() || words[0]
                    == array_closer() {
                    if stack.len() >= 2 {
                        lemma_fold_fits(stack, line);
                    }
                } else if words[0] == closer_of_all() {
                    lemma_close_all_fits(stack, line);
                }
            } else {
                lemma_append_fits(stack.last(), words, line);
            }
        },
    }
}

/// A run keeps a fitting stack fitting.
pub proof fn lemma_run_fits(stack: Seq<Frame>, lines: Seq<Seq<Text>>, done: nat)
    requires
        stack_fits(stack),
        forall|i: int| 0 <= i < lines.len() ==> all_words(#[trigger] lines[i]),
    ensures
        run(stack, lines, done) matches Ok(reached) ==> stack_fits(reached),
        run(stack, lines, done) matches Err(e) ==> is_reported(e),
    decreases lines.len(),
{
    if lines.len() > 0 {
        lemma_step_fits(stack, lines[0], (done + 1) as usize);
        if let Ok(next) = step(stack, lines[0], (done + 1) as usize) {
            let rest = lines.drop_first();
            assert forall|i: int| 0 <= i < rest.len() implies all_words(#[trigger] rest[i]) by {
                assert(rest[i] == lines[i + 1]);
            }
            lemma_run_fits(next, rest, done + 1);
        }
    }
}

/// What parsing a text gives is a table, well-formed and canonical; and
/// where it gives an error, the error is one that the parser reports.
pub proof fn lemma_parse_fits(text: Text)
    ensures
        parse_text(text) matches Ok(tree) ==> tree is Table && tree.wf() && tree.canonical(),
        parse_text(text) matches Err(e) ==> is_reported(e),
{
    let lines = tokens(text);
    assert forall|i: int| 0 <= i < lines.len() implies all_words(#[trigger] lines[i]) by {
        lemma_words_are_words(lines_of(text)[i]);
    }
    assert(stack_fits(start())) by {
        assert(start()[0].value().wf());
        assert(start()[0].value().canonical());
    }
    lemma_run_fits(start(), lines, 0);
}

} // verus!
