//! Printing and parsing again.
//!
//! The printer writes a table as lines that the parser reads back into the
//! same table, but for one thing: the empty line that ends every printed
//! block is an element where the block is an array. This module defines
//! what a round trip makes of a tree and proves that printing and parsing
//! make exactly that, for every tree that has the shape of a parsed tree.

use crate::canon::{entry_fits, is_name, item_fits};
use crate::error::AconError;
use crate::machine::{
    append, finish, fold_top, lemma_delimiters_differ, lemma_run_add, lemma_run_one,
    lemma_words_of_lines_add, merge, name_of, parse_text, run, start, step, tokens,
    words_of_lines, Frame,
};
use crate::model::{ascending, lemma_put_last, Entry, Value};
use crate::printer::{
    entries_lines, entry_lines, items_lines, lemma_unlines_add, lemma_unlines_one, print_text,
    unlines,
};
use crate::text::{
    all_words, free_of, is_blank, is_normal, is_space, is_word, join, lemma_lines_after_line,
    lemma_words_across_space, lemma_words_after_blank, lemma_words_are_words, lemma_words_of_blank,
    lemma_words_of_word, lines_of, precedes, words_of, Mark, Text,
};
use vstd::prelude::*;

verus! {

/// Whether the text is made of tabs alone.
pub open spec fn is_indent(indent: Text) -> bool {
    forall|i: int| 0 <= i < indent.len() ==> #[trigger] indent[i] == '\t'
}

/// Whether no line holds a line feed.
pub open spec fn all_plain(lines: Seq<Text>) -> bool {
    forall|i: int| 0 <= i < lines.len() ==> free_of(#[trigger] lines[i], Mark::Newline)
}

/// What joining words gives holds no line feed.
pub proof fn lemma_join_plain(words: Seq<Text>)
    requires
        all_words(words),
    ensures
        free_of(join(words), Mark::Newline),
    decreases words.len(),
{
    if words.len() == 0 {
    } else if words.len() == 1 {
        assert(is_word(words[0]));
        assert forall|i: int| 0 <= i < words[0].len() implies !Mark::Newline.hits(
            #[trigger] words[0][i],
        ) by {
            assert(!is_space(words[0][i]));
        }
    } else {
        let front = words.drop_last();
        assert(all_words(front)) by {
            assert forall|i: int| 0 <= i < front.len() implies is_word(#[trigger] front[i]) by {
                assert(front[i] == words[i]);
            }
        }
        lemma_join_plain(front);
        let last = words.last();
        assert(is_word(last));
        let joined = join(words);
        assert forall|i: int| 0 <= i < joined.len() implies !Mark::Newline.hits(
            #[trigger] joined[i],
        ) by {
            if i < join(front).len() {
                assert(joined[i] == join(front)[i]);
            } else if i > join(front).len() {
                assert(joined[i] == last[i - join(front).len() - 1]);
                assert(!is_space(last[i - join(front).len() - 1]));
            }
        }
    }
}

/// A normal text holds no line feed.
pub proof fn lemma_normal_plain(text: Text)
    requires
        is_normal(text),
    ensures
        free_of(text, Mark::Newline),
{
    lemma_words_are_words(text);
    lemma_join_plain(words_of(text));
}

/// A name holds no line feed.
pub proof fn lemma_name_plain(key: Text)
    requires
        is_name(key),
    ensures
        free_of(key, Mark::Newline),
{
    assert forall|i: int| 0 <= i < key.len() implies !Mark::Newline.hits(#[trigger] key[i]) by {
        assert(!is_space(key[i]));
    }
}

/// The text of lines without line feeds has exactly those lines.
pub proof fn lemma_lines_of_unlines(lines: Seq<Text>)
    requires
        all_plain(lines),
    ensures
        lines_of(unlines(lines)) == lines,
    decreases lines.len(),
{
    if lines.len() == 0 {
    } else {
        let first = lines[0];
        let rest = lines.drop_first();
        assert(lines =~= seq![first] + rest);
        lemma_unlines_add(seq![first], rest);
        lemma_unlines_one(first);
        assert(all_plain(rest)) by {
            assert forall|i: int| 0 <= i < rest.len() implies free_of(
                #[trigger] rest[i],
                Mark::Newline,
            ) by {
                assert(rest[i] == lines[i + 1]);
            }
        }
        lemma_lines_of_unlines(rest);
        lemma_lines_after_line(first, unlines(rest));
    }
}

/// The words of the line that prints a string: the key, and then the
/// words of the text.
pub proof fn lemma_words_of_string_line(indent: Text, key: Text, text: Text)
    requires
        is_indent(indent),
        is_word(key),
    ensures
        words_of(indent + key + seq![' '] + text) == seq![key] + words_of(text),
{
    let line = indent + key + seq![' '] + text;
    assert(is_blank(indent));
    assert(line =~= indent + (key + seq![' '] + text));
    lemma_words_after_blank(indent, key + seq![' '] + text);
    lemma_words_across_space(key, ' ', text);
    lemma_words_of_word(key);
}

/// The words of the line that opens a block: the opening word, and then
/// the name where there is one.
pub proof fn lemma_words_of_opening_line(indent: Text, opener: char, key: Text)
    requires
        is_indent(indent),
        !is_space(opener),
        is_name(key),
    ensures
        words_of(indent + seq![opener, ' '] + key) == if key.len() == 0 {
            seq![seq![opener]]
        } else {
            seq![seq![opener], key]
        },
        name_of(words_of(indent + seq![opener, ' '] + key)) == key,
{
    let line = indent + seq![opener, ' '] + key;
    assert(is_blank(indent));
    assert(line =~= indent + (seq![opener] + seq![' '] + key));
    lemma_words_after_blank(indent, seq![opener] + seq![' '] + key);
    lemma_words_across_space(seq![opener], ' ', key);
    assert(is_word(seq![opener]));
    lemma_words_of_word(seq![opener]);
    if key.len() == 0 {
        assert(words_of(key) =~= Seq::<Text>::empty());
        assert(seq![seq![opener]] + Seq::<Text>::empty() =~= seq![seq![opener]]);
        assert(key =~= Seq::<char>::empty());
    } else {
        lemma_words_of_word(key);
        assert(seq![seq![opener]] + seq![key] =~= seq![seq![opener], key]);
    }
}

/// The one word of the line that closes a block.
pub proof fn lemma_words_of_closing_line(indent: Text, closer: char)
    requires
        is_indent(indent),
        !is_space(closer),
    ensures
        words_of(indent + seq![closer]) == seq![seq![closer]],
{
    assert(is_blank(indent));
    lemma_words_after_blank(indent, seq![closer]);
    assert(is_word(seq![closer]));
    lemma_words_of_word(seq![closer]);
}

/// Two runs of lines without line feeds make one.
pub proof fn lemma_all_plain_add(a: Seq<Text>, b: Seq<Text>)
    requires
        all_plain(a),
        all_plain(b),
    ensures
        all_plain(a + b),
{
    assert forall|i: int| 0 <= i < (a + b).len() implies free_of(
        #[trigger] (a + b)[i],
        Mark::Newline,
    ) by {
        if i < a.len() {
            assert((a + b)[i] == a[i]);
        } else {
            assert((a + b)[i] == b[i - a.len()]);
        }
    }
}

/// The line that opens or closes a block holds no line feed.
pub proof fn lemma_block_line_plain(indent: Text, word: Text, key: Text)
    requires
        is_indent(indent),
        free_of(word, Mark::Newline),
        free_of(key, Mark::Newline),
    ensures
        free_of(indent + word + key, Mark::Newline),
{
    let line = indent + word + key;
    assert forall|i: int| 0 <= i < line.len() implies !Mark::Newline.hits(#[trigger] line[i]) by {
        if i < indent.len() {
            assert(line[i] == indent[i]);
        } else if i < indent.len() + word.len() {
            assert(line[i] == word[i - indent.len()]);
        } else {
            assert(line[i] == key[i - indent.len() - word.len()]);
        }
    }
}

/// The lines that print a canonical value hold no line feed.
pub proof fn lemma_entry_lines_plain(key: Text, value: Value, indent: Text)
    requires
        is_indent(indent),
        free_of(key, Mark::Newline),
        value.canonical(),
    ensures
        all_plain(entry_lines(key, value, indent)),
    decreases value,
{
    let deeper = indent.push('\t');
    let blank = Seq::<char>::empty();
    match value {
        Value::String(text) => {
            lemma_normal_plain(text);
            lemma_block_line_plain(indent, key, seq![' '] + text);
            assert(indent + key + seq![' '] + text =~= indent + key + (seq![' '] + text));
            assert(entry_lines(key, value, indent)[0] == indent + key + seq![' '] + text);
        },
        Value::Array(items) => {
            assert(value->Array_0 == items);
            lemma_items_lines_plain(items, deeper);
            lemma_block_line_plain(indent, seq!['[', ' '], key);
            lemma_block_line_plain(indent, seq![']'], blank);
            assert(indent + seq![']'] + blank =~= indent + seq![']']);
            let head = seq![indent + seq!['[', ' '] + key];
            let tail = seq![blank, indent + seq![']']];
            assert(all_plain(head));
            assert(all_plain(tail));
            lemma_all_plain_add(head, items_lines(items, deeper));
            lemma_all_plain_add(head + items_lines(items, deeper), tail);
        },
        Value::Table(entries) => {
            assert(value->Table_0 == entries);
            lemma_entries_lines_plain(entries, deeper);
            lemma_block_line_plain(indent, seq!['{', ' '], key);
            lemma_block_line_plain(indent, seq!['}'], blank);
            assert(indent + seq!['}'] + blank =~= indent + seq!['}']);
            let head = seq![indent + seq!['{', ' '] + key];
            let tail = seq![blank, indent + seq!['}']];
            assert(all_plain(head));
            assert(all_plain(tail));
            lemma_all_plain_add(head, entries_lines(entries, deeper));
            lemma_all_plain_add(head + entries_lines(entries, deeper), tail);
        },
    }
}

/// The lines that print the elements of a canonical array hold no line
/// feed.
pub proof fn lemma_items_lines_plain(items: Seq<Value>, indent: Text)
    requires
        is_indent(indent),
        forall|i: int| 0 <= i < items.len() ==> (#[trigger] items[i]).canonical(),
    ensures
        all_plain(items_lines(items, indent)),
    decreases items,
{
    if items.len() > 0 {
        let front = items.drop_last();
        assert forall|i: int| 0 <= i < front.len() implies (#[trigger] front[i]).canonical() by {
            assert(front[i] == items[i]);
        }
        lemma_items_lines_plain(front, indent);
        assert(items[items.len() - 1] == items.last());
        lemma_entry_lines_plain(Seq::empty(), items.last(), indent);
        lemma_all_plain_add(
            items_lines(front, indent),
            entry_lines(Seq::empty(), items.last(), indent),
        );
    }
}

/// The lines that print the entries of a canonical table hold no line
/// feed.
pub proof fn lemma_entries_lines_plain(entries: Seq<Entry>, indent: Text)
    requires
        is_indent(indent),
        forall|i: int|
            0 <= i < entries.len() ==> (#[trigger] entries[i]).value.canonical() && entry_fits(
                entries[i],
            ),
    ensures
        all_plain(entries_lines(entries, indent)),
    decreases entries,
{
    if entries.len() > 0 {
        let front = entries.drop_last();
        let last = entries.last();
        assert forall|i: int| 0 <= i < front.len() implies (#[trigger] front[i]).value.canonical()
            && entry_fits(front[i]) by {
            assert(front[i] == entries[i]);
        }
        lemma_entries_lines_plain(front, indent);
        assert(entries[entries.len() - 1] == last);
        lemma_name_plain(last.key);
        lemma_entry_lines_plain(last.key, last.value, indent);
        lemma_all_plain_add(
            entries_lines(front, indent),
            entry_lines(last.key, last.value, indent),
        );
    }
}

impl Value {
    /// What printing and parsing again makes of the tree. Nothing changes
    /// but the arrays: each has one more element at its end, the empty
    /// string, because the empty line that ends every printed block is
    /// read as an element where the block is an array.
    pub open spec fn round_trip(self) -> Value
        decreases self,
    {
        match self {
            Value::Array(items) => Value::Array(
                round_trip_items(items).push(Value::String(Seq::empty())),
            ),
            Value::String(_) => self,
            Value::Table(entries) => Value::Table(round_trip_entries(entries)),
        }
    }
}

/// What printing and parsing again makes of the elements of an array.
pub open spec fn round_trip_items(items: Seq<Value>) -> Seq<Value>
    decreases items,
{
    if items.len() == 0 {
        Seq::empty()
    } else {
        round_trip_items(items.drop_last()).push(items.last().round_trip())
    }
}

/// What printing and parsing again makes of the entries of a table.
pub open spec fn round_trip_entries(entries: Seq<Entry>) -> Seq<Entry>
    decreases entries,
{
    if entries.len() == 0 {
        Seq::empty()
    } else {
        round_trip_entries(entries.drop_last()).push(
            Entry { key: entries.last().key, value: entries.last().value.round_trip() },
        )
    }
}

/// Whether the elements are ones that the parser makes: each is
/// well-formed and canonical, and fits.
pub open spec fn items_fit(items: Seq<Value>) -> bool {
    forall|i: int|
        0 <= i < items.len() ==> {
            &&& (#[trigger] items[i]).wf()
            &&& items[i].canonical()
            &&& item_fits(items[i])
        }
}

/// Whether the entries are ones that the parser makes: each value is
/// well-formed and canonical, and each entry fits.
pub open spec fn entries_fit(entries: Seq<Entry>) -> bool {
    forall|i: int|
        0 <= i < entries.len() ==> {
            &&& (#[trigger] entries[i]).value.wf()
            &&& entries[i].value.canonical()
            &&& entry_fits(entries[i])
        }
}

/// The stack with `entries` as the entries of its top frame.
pub open spec fn with_entries(stack: Seq<Frame>, entries: Seq<Entry>) -> Seq<Frame> {
    stack.drop_last().push(Frame::Table { name: stack.last().name(), entries })
}

/// The stack with `items` as the elements of its top frame.
pub open spec fn with_items(stack: Seq<Frame>, items: Seq<Value>) -> Seq<Frame> {
    stack.drop_last().push(Frame::Array { name: stack.last().name(), items })
}

/// The frame as it is after an empty line: an array has the empty string
/// as one more element, a table is as it was.
pub open spec fn after_blank(frame: Frame) -> Frame {
    match frame {
        Frame::Array { name, items } => Frame::Array {
            name,
            items: items.push(Value::String(Seq::empty())),
        },
        Frame::Table { .. } => frame,
    }
}

/// The character that closes a frame.
pub open spec fn closing_char(frame: Frame) -> char {
    if frame is Array {
        ']'
    } else {
        '}'
    }
}

/// The entries of a table keep their number and their keys through a
/// round trip.
pub proof fn lemma_round_trip_keys(entries: Seq<Entry>)
    ensures
        round_trip_entries(entries).len() == entries.len(),
        forall|i: int|
            0 <= i < entries.len() ==> (#[trigger] round_trip_entries(entries)[i]).key
                == entries[i].key,
    decreases entries.len(),
{
    if entries.len() > 0 {
        let front = entries.drop_last();
        lemma_round_trip_keys(front);
        assert forall|i: int| 0 <= i < entries.len() implies (#[trigger] round_trip_entries(
            entries,
        )[i]).key == entries[i].key by {
            if i < front.len() {
                assert(round_trip_entries(entries)[i] == round_trip_entries(front)[i]);
                assert(front[i] == entries[i]);
            }
        }
    }
}

/// A run over the lines of a block is the step over the line that opens
/// it, the run over its body and the run over its last two lines, one
/// after the other.
pub proof fn lemma_run_block(
    stack: Seq<Frame>,
    opening: Seq<Text>,
    body: Seq<Seq<Text>>,
    ending: Seq<Seq<Text>>,
    opened: Seq<Frame>,
    filled: Seq<Frame>,
    done: nat,
)
    requires
        step(stack, opening, (done + 1) as usize) == Ok::<Seq<Frame>, AconError>(opened),
        run(opened, body, done + 1) == Ok::<Seq<Frame>, AconError>(filled),
    ensures
        run(stack, seq![opening] + body + ending, done) == run(filled, ending, done + 1 + body.len()),
{
    lemma_run_one(stack, opening, done);
    lemma_run_add(stack, seq![opening], body, done);
    lemma_run_add(stack, seq![opening] + body, ending, done);
}

/// Reading the line that opens a table puts an empty table of that name on
/// the stack.
pub proof fn lemma_table_opens(stack: Seq<Frame>, indent: Text, key: Text, number: usize)
    requires
        is_indent(indent),
        is_name(key),
    ensures
        step(stack, words_of(indent + seq!['{', ' '] + key), number) == Ok::<
            Seq<Frame>,
            AconError,
        >(stack.push(Frame::Table { name: key, entries: Seq::empty() })),
{
    lemma_words_of_opening_line(indent, '{', key);
    lemma_delimiters_differ();
}

/// Reading the line that opens an array puts an empty array of that name
/// on the stack.
pub proof fn lemma_array_opens(stack: Seq<Frame>, indent: Text, key: Text, number: usize)
    requires
        is_indent(indent),
        is_name(key),
    ensures
        step(stack, words_of(indent + seq!['[', ' '] + key), number) == Ok::<
            Seq<Frame>,
            AconError,
        >(stack.push(Frame::Array { name: key, items: Seq::empty() })),
{
    lemma_words_of_opening_line(indent, '[', key);
    lemma_delimiters_differ();
}

/// Reading the two lines that end a printed block, the empty line and the
/// closing word, puts the top frame, as it is after the empty line, into
/// the frame below it.
pub proof fn lemma_block_ends(stack: Seq<Frame>, indent: Text, done: nat)
    requires
        stack.len() >= 2,
        is_indent(indent),
    ensures
        run(
            stack,
            words_of_lines(seq![Seq::empty(), indent + seq![closing_char(stack.last())]]),
            done,
        ) == fold_top(stack.drop_last().push(after_blank(stack.last())), (done + 2) as usize),
{
    let blank = Seq::<char>::empty();
    let child = stack.last();
    let closing = indent + seq![closing_char(child)];
    let w_blank = words_of(blank);
    let w_close = words_of(closing);
    lemma_words_of_blank(blank);
    lemma_words_of_closing_line(indent, closing_char(child));
    lemma_delimiters_differ();
    assert(words_of_lines(seq![blank, closing]) =~= seq![w_blank] + seq![w_close]);
    let rested = stack.drop_last().push(after_blank(child));
    assert(join(Seq::<Text>::empty()) =~= Seq::<char>::empty());
    assert(step(stack, w_blank, (done + 1) as usize) == Ok::<Seq<Frame>, AconError>(rested));
    lemma_run_one(stack, w_blank, done);
    assert(rested.last() == after_blank(child));
    assert(step(rested, w_close, (done + 2) as usize) == fold_top(rested, (done + 2) as usize));
    lemma_run_one(rested, w_close, done + 1);
    lemma_run_add(stack, seq![w_blank], seq![w_close], done);
}

/// The frame with one more value at its end: under the key where the frame
/// is a table, as the next element where it is an array.
pub open spec fn grown(top: Frame, key: Text, value: Value) -> Frame {
    match top {
        Frame::Array { name, items } => Frame::Array { name, items: items.push(value) },
        Frame::Table { name, entries } => Frame::Table {
            name,
            entries: entries.push(Entry { key, value }),
        },
    }
}

/// Whether the frame takes the value under the key at its end: a table,
/// where the key comes after all its keys and the entry fits; an array,
/// where there is no key and the element fits.
pub open spec fn takes(top: Frame, key: Text, value: Value) -> bool {
    match top {
        Frame::Array { .. } => key.len() == 0 && item_fits(value),
        Frame::Table { entries, .. } => entry_fits(Entry { key, value }) && forall|i: int|
            0 <= i < entries.len() ==> precedes((#[trigger] entries[i]).key, key),
    }
}

/// Putting a child into a parent that takes it makes the parent grow by the
/// child.
pub proof fn lemma_merge_grows(parent: Frame, child: Frame, line: usize)
    requires
        parent is Table ==> forall|i: int|
            0 <= i < parent->Table_entries.len() ==> precedes(
                (#[trigger] parent->Table_entries[i]).key,
                child.name(),
            ),
        parent is Array ==> child.name().len() == 0,
    ensures
        merge(parent, child, line) == Ok::<Frame, AconError>(
            grown(parent, child.name(), child.value()),
        ),
{
    if parent is Table {
        lemma_put_last(parent->Table_entries, child.name(), child.value());
    }
}

/// Reading the line that prints a string adds the string to the frame that
/// is open.
pub proof fn lemma_string_returns(stack: Seq<Frame>, key: Text, text: Text, indent: Text, done: nat)
    requires
        stack.len() >= 1,
        is_indent(indent),
        is_normal(text),
        takes(stack.last(), key, Value::String(text)),
    ensures
        run(stack, words_of_lines(entry_lines(key, Value::String(text), indent)), done) == Ok::<
            Seq<Frame>,
            AconError,
        >(stack.drop_last().push(grown(stack.last(), key, Value::String(text)))),
{
    let line = indent + key + seq![' '] + text;
    let words = words_of(line);
    let number = (done + 1) as usize;
    assert(entry_lines(key, Value::String(text), indent) == seq![line]);
    assert(words_of_lines(seq![line]) =~= seq![words]);
    lemma_run_one(stack, words, done);
    match stack.last() {
        Frame::Array { name, items } => {
            assert(key =~= Seq::<char>::empty());
            assert(line =~= (indent + seq![' ']) + text);
            assert(is_blank(indent + seq![' ']));
            lemma_words_after_blank(indent + seq![' '], text);
            assert(words == words_of(text));
            assert(append(stack.last(), words, number) == Ok::<Frame, AconError>(
                grown(stack.last(), key, Value::String(text)),
            ));
        },
        Frame::Table { name, entries } => {
            lemma_words_of_string_line(indent, key, text);
            assert(words[0] == key);
            assert(words.skip(1) =~= words_of(text));
            lemma_put_last(entries, key, Value::String(text));
            assert(append(stack.last(), words, number) == Ok::<Frame, AconError>(
                grown(stack.last(), key, Value::String(text)),
            ));
        },
    }
}

/// Reading the lines that print a block adds the block, as its body has
/// been read, to the frame that is open.
pub proof fn lemma_block_returns(
    stack: Seq<Frame>,
    key: Text,
    indent: Text,
    body: Seq<Text>,
    empty: Frame,
    full: Frame,
    done: nat,
)
    requires
        stack.len() >= 1,
        is_indent(indent),
        is_name(key),
        empty.name() == key,
        full.name() == key,
        empty is Array <==> full is Array,
        empty is Array ==> empty->Array_items == Seq::<Value>::empty(),
        empty is Table ==> empty->Table_entries == Seq::<Entry>::empty(),
        stack.last() is Table ==> forall|i: int|
            0 <= i < stack.last()->Table_entries.len() ==> precedes(
                (#[trigger] stack.last()->Table_entries[i]).key,
                key,
            ),
        stack.last() is Array ==> key.len() == 0,
        run(stack.push(empty), words_of_lines(body), done + 1) == Ok::<Seq<Frame>, AconError>(
            stack.push(full),
        ),
    ensures
        run(
            stack,
            words_of_lines(
                seq![
                    indent + seq![
                        if empty is Array {
                            '['
                        } else {
                            '{'
                        },
                        ' ',
                    ] + key,
                ] + body + seq![Seq::empty(), indent + seq![closing_char(empty)]],
            ),
            done,
        ) == Ok::<Seq<Frame>, AconError>(
            stack.drop_last().push(grown(stack.last(), key, after_blank(full).value())),
        ),
{
    let opener = if empty is Array {
        '['
    } else {
        '{'
    };
    let opening = indent + seq![opener, ' '] + key;
    let ending = seq![Seq::<char>::empty(), indent + seq![closing_char(empty)]];
    let lines = seq![opening] + body + ending;
    let opened = stack.push(empty);
    let filled = stack.push(full);
    let number = (done + 1) as usize;
    if empty is Array {
        lemma_array_opens(stack, indent, key, number);
    } else {
        lemma_table_opens(stack, indent, key, number);
    }
    assert(step(stack, words_of(opening), number) == Ok::<Seq<Frame>, AconError>(opened));
    lemma_words_of_lines_add(seq![opening] + body, ending);
    lemma_words_of_lines_add(seq![opening], body);
    assert(words_of_lines(seq![opening]) =~= seq![words_of(opening)]);
    lemma_run_block(
        stack,
        words_of(opening),
        words_of_lines(body),
        words_of_lines(ending),
        opened,
        filled,
        done,
    );
    let at_end = done + 1 + words_of_lines(body).len();
    assert(filled.last() == full);
    assert(closing_char(full) == closing_char(empty));
    lemma_block_ends(filled, indent, at_end);
    let rested = filled.drop_last().push(after_blank(full));
    assert(rested[rested.len() - 2] == stack.last());
    assert(after_blank(full).name() == key);
    lemma_merge_grows(stack.last(), after_blank(full), (at_end + 2) as usize);
    assert(rested.take(rested.len() - 2) =~= stack.drop_last());
}

/// Reading the lines that print a value adds the value, as a round trip
/// makes it, to the frame that is open.
pub proof fn lemma_value_returns(stack: Seq<Frame>, key: Text, value: Value, indent: Text, done: nat)
    requires
        stack.len() >= 1,
        is_indent(indent),
        value.wf(),
        value.canonical(),
        takes(stack.last(), key, value),
    ensures
        run(stack, words_of_lines(entry_lines(key, value, indent)), done) == Ok::<
            Seq<Frame>,
            AconError,
        >(stack.drop_last().push(grown(stack.last(), key, value.round_trip()))),
    decreases value,
{
    let deeper = indent.push('\t');
    match value {
        Value::String(text) => {
            lemma_string_returns(stack, key, text, indent, done);
        },
        Value::Array(items) => {
            assert(value->Array_0 == items);
            let empty = Frame::Array { name: key, items: Seq::empty() };
            let again = round_trip_items(items);
            let full = Frame::Array { name: key, items: again };
            assert(items_fit(items));
            lemma_items_return(stack.push(empty), items, deeper, done + 1);
            assert(Seq::<Value>::empty() + again =~= again);
            assert(with_items(stack.push(empty), again) =~= stack.push(full));
            lemma_block_returns(stack, key, indent, items_lines(items, deeper), empty, full, done);
        },
        Value::Table(entries) => {
            assert(value->Table_0 == entries);
            let empty = Frame::Table { name: key, entries: Seq::empty() };
            let again = round_trip_entries(entries);
            let full = Frame::Table { name: key, entries: again };
            assert(entries_fit(entries));
            assert(Seq::<Entry>::empty() + entries =~= entries);
            lemma_entries_return(stack.push(empty), entries, deeper, done + 1);
            assert(Seq::<Entry>::empty() + again =~= again);
            assert(with_entries(stack.push(empty), again) =~= stack.push(full));
            lemma_block_returns(
                stack,
                key,
                indent,
                entries_lines(entries, deeper),
                empty,
                full,
                done,
            );
        },
    }
}

/// Reading the lines that print the elements of an array adds the
/// elements, as a round trip makes them, to the array that is open.
pub proof fn lemma_items_return(stack: Seq<Frame>, items: Seq<Value>, indent: Text, done: nat)
    requires
        stack.len() >= 1,
        stack.last() is Array,
        is_indent(indent),
        items_fit(items),
    ensures
        run(stack, words_of_lines(items_lines(items, indent)), done) == Ok::<
            Seq<Frame>,
            AconError,
        >(with_items(stack, stack.last()->Array_items + round_trip_items(items))),
    decreases items,
{
    let have = stack.last()->Array_items;
    if items.len() == 0 {
        assert(have + round_trip_items(items) =~= have);
        assert(with_items(stack, have) =~= stack);
        assert(words_of_lines(Seq::<Text>::empty()) =~= Seq::<Seq<Text>>::empty());
    } else {
        let front = items.drop_last();
        let last = items.last();
        let first_lines = items_lines(front, indent);
        let last_lines = entry_lines(Seq::empty(), last, indent);
        lemma_words_of_lines_add(first_lines, last_lines);
        assert(items_fit(front)) by {
            assert forall|i: int| 0 <= i < front.len() implies {
                &&& (#[trigger] front[i]).wf()
                &&& front[i].canonical()
                &&& item_fits(front[i])
            } by {
                assert(front[i] == items[i]);
            }
        }
        lemma_items_return(stack, front, indent, done);
        let so_far = have + round_trip_items(front);
        let middle = with_items(stack, so_far);
        assert(items[items.len() - 1] == last);
        lemma_value_returns(
            middle,
            Seq::empty(),
            last,
            indent,
            done + words_of_lines(first_lines).len(),
        );
        assert(so_far.push(last.round_trip()) =~= have + round_trip_items(items));
        assert(middle.drop_last().push(grown(middle.last(), Seq::empty(), last.round_trip()))
            =~= with_items(stack, have + round_trip_items(items)));
        lemma_run_add(stack, words_of_lines(first_lines), words_of_lines(last_lines), done);
    }
}

/// Reading the lines that print the entries of a table adds the entries,
/// as a round trip makes them, to the table that is open, where their keys
/// come in ascending order after all the keys that the table has.
pub proof fn lemma_entries_return(stack: Seq<Frame>, entries: Seq<Entry>, indent: Text, done: nat)
    requires
        stack.len() >= 1,
        stack.last() is Table,
        ascending(stack.last()->Table_entries + entries),
        is_indent(indent),
        entries_fit(entries),
    ensures
        run(stack, words_of_lines(entries_lines(entries, indent)), done) == Ok::<
            Seq<Frame>,
            AconError,
        >(with_entries(stack, stack.last()->Table_entries + round_trip_entries(entries))),
    decreases entries,
{
    let have = stack.last()->Table_entries;
    if entries.len() == 0 {
        assert(have + round_trip_entries(entries) =~= have);
        assert(with_entries(stack, have) =~= stack);
        assert(words_of_lines(Seq::<Text>::empty()) =~= Seq::<Seq<Text>>::empty());
    } else {
        let front = entries.drop_last();
        let last = entries.last();
        let first_lines = entries_lines(front, indent);
        let last_lines = entry_lines(last.key, last.value, indent);
        lemma_words_of_lines_add(first_lines, last_lines);
        assert(ascending(have + front)) by {
            assert forall|i: int, j: int|
                #![trigger (have + front)[i], (have + front)[j]]
                0 <= i < j < (have + front).len() implies precedes(
                (have + front)[i].key,
                (have + front)[j].key,
            ) by {
                assert((have + front)[i] == (have + entries)[i]);
                assert((have + front)[j] == (have + entries)[j]);
            }
        }
        assert(entries_fit(front)) by {
            assert forall|i: int| 0 <= i < front.len() implies {
                &&& (#[trigger] front[i]).value.wf()
                &&& front[i].value.canonical()
                &&& entry_fits(front[i])
            } by {
                assert(front[i] == entries[i]);
            }
        }
        lemma_entries_return(stack, front, indent, done);
        let so_far = have + round_trip_entries(front);
        let middle = with_entries(stack, so_far);
        lemma_round_trip_keys(front);
        assert forall|i: int| 0 <= i < so_far.len() implies precedes(
            (#[trigger] so_far[i]).key,
            last.key,
        ) by {
            let whole = have + entries;
            assert(last == whole[whole.len() - 1]);
            if i < have.len() {
                assert(so_far[i] == whole[i]);
            } else {
                assert(so_far[i] == round_trip_entries(front)[i - have.len()]);
                assert(front[i - have.len()] == whole[i]);
            }
        }
        assert(entries[entries.len() - 1] == last);
        assert(last == Entry { key: last.key, value: last.value });
        lemma_value_returns(
            middle,
            last.key,
            last.value,
            indent,
            done + words_of_lines(first_lines).len(),
        );
        assert(so_far.push(Entry { key: last.key, value: last.value.round_trip() }) =~= have
            + round_trip_entries(entries));
        assert(middle.drop_last().push(grown(middle.last(), last.key, last.value.round_trip()))
            =~= with_entries(stack, have + round_trip_entries(entries)));
        lemma_run_add(stack, words_of_lines(first_lines), words_of_lines(last_lines), done);
    }
}

/// Parsing what prints a table gives the table as a round trip makes it,
/// where the table has the shape of a parsed tree.
pub proof fn lemma_table_returns(entries: Seq<Entry>)
    requires
        Value::Table(entries).wf(),
        Value::Table(entries).canonical(),
    ensures
        parse_text(print_text(entries)) == Ok::<Value, AconError>(
            Value::Table(entries).round_trip(),
        ),
{
    let indent = Seq::<char>::empty();
    let lines = entries_lines(entries, indent);
    let tree = Value::Table(entries);
    assert(tree->Table_0 == entries);
    assert(entries_fit(entries));
    lemma_entries_lines_plain(entries, indent);
    lemma_lines_of_unlines(lines);
    assert(tokens(print_text(entries)) == words_of_lines(lines));
    assert(Seq::<Entry>::empty() + entries =~= entries);
    lemma_entries_return(start(), entries, indent, 0);
    let again = round_trip_entries(entries);
    assert(Seq::<Entry>::empty() + again =~= again);
    let reached = with_entries(start(), again);
    assert(reached =~= seq![Frame::Table { name: Seq::empty(), entries: again }]);
    assert(finish(reached) == Ok::<Value, AconError>(tree.round_trip()));
}

/// A round trip changes nothing exactly where there is no array.
pub proof fn lemma_round_trip_same(value: Value)
    ensures
        value.round_trip() == value <==> value.array_free(),
    decreases value,
{
    match value {
        Value::Array(items) => {
            assert(value->Array_0 == items);
            lemma_round_trip_items_len(items);
        },
        Value::String(_) => {},
        Value::Table(entries) => {
            assert(value->Table_0 == entries);
            lemma_round_trip_entries_same(entries);
            if value.array_free() {
                assert(round_trip_entries(entries) =~= entries);
            } else {
                assert(round_trip_entries(entries) != entries);
            }
        },
    }
}

/// The elements of an array keep their number through a round trip.
pub proof fn lemma_round_trip_items_len(items: Seq<Value>)
    ensures
        round_trip_items(items).len() == items.len(),
    decreases items.len(),
{
    if items.len() > 0 {
        lemma_round_trip_items_len(items.drop_last());
    }
}

/// A round trip leaves the entries of a table as they are exactly where
/// none of their values holds an array.
pub proof fn lemma_round_trip_entries_same(entries: Seq<Entry>)
    ensures
        round_trip_entries(entries) == entries <==> forall|i: int|
            0 <= i < entries.len() ==> (#[trigger] entries[i]).value.array_free(),
    decreases entries,
{
    if entries.len() > 0 {
        let front = entries.drop_last();
        let last = entries.last();
        let again = round_trip_entries(entries);
        lemma_round_trip_entries_same(front);
        lemma_round_trip_same(last.value);
        lemma_round_trip_keys(front);
        lemma_round_trip_keys(entries);
        assert(entries[entries.len() - 1] == last);
        let all_free = forall|i: int|
            0 <= i < entries.len() ==> (#[trigger] entries[i]).value.array_free();
        if all_free {
            assert forall|i: int| 0 <= i < front.len() implies (#[trigger] front[i]).value.array_free() by {
                assert(front[i] == entries[i]);
            }
            assert(again =~= entries);
        }
        if again == entries {
            assert(again.drop_last() =~= round_trip_entries(front));
            assert(again.last().value == last.value.round_trip());
            assert forall|i: int| 0 <= i < entries.len() implies (#[trigger] entries[i]).value.array_free() by {
                if i < front.len() {
                    assert(front[i] == entries[i]);
                    assert(front[i].value.array_free());
                }
            }
        }
    } else {
        assert(round_trip_entries(entries) =~= entries);
    }
}

} // verus!
