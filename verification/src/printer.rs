//! The printer: from a table to the text that stands for it.
//!
//! Every entry of a table is printed in the order of the keys. A string is
//! one line, its key and its text. An array or a table is a block: the line
//! that opens it and gives its name, its contents one level deeper, an empty
//! line, and the line that closes it. Each level of depth is one tab.

use crate::model::{Entry, Value};
use crate::text::Text;
use crate::value::{lemma_array_view, Acon, Table};
use vstd::prelude::*;

verus! {

/// The lines that print `value` under `key`, each line behind `indent`.
pub open spec fn entry_lines(key: Text, value: Value, indent: Text) -> Seq<Text>
    decreases value,
{
    match value {
        Value::String(text) => seq![indent + key + seq![' '] + text],
        Value::Array(items) => seq![indent + seq!['[', ' '] + key] + items_lines(
            items,
            indent.push('\t'),
        ) + seq![Seq::empty(), indent + seq![']']],
        Value::Table(entries) => seq![indent + seq!['{', ' '] + key] + entries_lines(
            entries,
            indent.push('\t'),
        ) + seq![Seq::empty(), indent + seq!['}']],
    }
}

/// The lines that print the elements of an array. An element has no key.
pub open spec fn items_lines(items: Seq<Value>, indent: Text) -> Seq<Text>
    decreases items,
{
    if items.len() == 0 {
        Seq::empty()
    } else {
        items_lines(items.drop_last(), indent) + entry_lines(Seq::empty(), items.last(), indent)
    }
}

/// The lines that print the entries of a table.
pub open spec fn entries_lines(entries: Seq<Entry>, indent: Text) -> Seq<Text>
    decreases entries,
{
    if entries.len() == 0 {
        Seq::empty()
    } else {
        entries_lines(entries.drop_last(), indent) + entry_lines(
            entries.last().key,
            entries.last().value,
            indent,
        )
    }
}

/// The text made of the lines, each followed by a line feed.
pub open spec fn unlines(lines: Seq<Text>) -> Text
    decreases lines.len(),
{
    if lines.len() == 0 {
        Seq::empty()
    } else {
        unlines(lines.drop_last()) + lines.last() + seq!['\n']
    }
}

/// The text that prints a document with these entries.
pub open spec fn print_text(entries: Seq<Entry>) -> Text {
    unlines(entries_lines(entries, Seq::empty()))
}

/// The text of two runs of lines is the text of the first and then the
/// text of the second.
pub proof fn lemma_unlines_add(a: Seq<Text>, b: Seq<Text>)
    ensures
        unlines(a + b) == unlines(a) + unlines(b),
    decreases b.len(),
{
    if b.len() == 0 {
        assert(a + b == a);
    } else {
        lemma_unlines_add(a, b.drop_last());
        assert((a + b).drop_last() == a + b.drop_last());
        assert((a + b).last() == b.last());
    }
}

/// The text of one line.
pub proof fn lemma_unlines_one(line: Text)
    ensures
        unlines(seq![line]) == line + seq!['\n'],
{
    assert(seq![line].drop_last() =~= Seq::<Text>::empty());
    assert(unlines(Seq::<Text>::empty()) =~= Seq::<char>::empty());
    assert(unlines(seq![line]) =~= line + seq!['\n']);
}

/// Writes the line that opens or closes a block: the indent, the word and
/// the name.
fn write_line(out: &mut String, indent: &str, word: &str, name: &str)
    ensures
        final(out)@ == old(out)@ + unlines(seq![indent@ + word@ + name@]),
{
    proof {
        lemma_unlines_one(indent@ + word@ + name@);
    }
    out.append(indent);
    out.append(word);
    out.append(name);
    out.push('\n');
    assert(out@ =~= old(out)@ + (indent@ + word@ + name@ + seq!['\n']));
}

/// Writes the two lines that end a block: an empty line, and the indent
/// with the closing word.
fn write_close(out: &mut String, indent: &str, word: &str)
    ensures
        final(out)@ == old(out)@ + unlines(seq![Seq::empty(), indent@ + word@]),
{
    proof {
        let lines = seq![Seq::<char>::empty(), indent@ + word@];
        assert(lines.drop_last() =~= seq![Seq::<char>::empty()]);
        lemma_unlines_one(Seq::<char>::empty());
    }
    out.push('\n');
    out.append(indent);
    out.append(word);
    out.push('\n');
    assert(out@ =~= old(out)@ + (Seq::<char>::empty() + seq!['\n'] + (indent@ + word@) + seq![
        '\n',
    ]));
}

/// Writes what prints `value` under `key` behind `indent`.
fn write_entry(out: &mut String, key: &str, value: &Acon, indent: &str)
    ensures
        final(out)@ == old(out)@ + unlines(entry_lines(key@, value@, indent@)),
    decreases value,
{
    proof {
        reveal_strlit("[ ");
        reveal_strlit("{ ");
        reveal_strlit("]");
        reveal_strlit("}");
        reveal_strlit("");
        assert("[ "@ =~= seq!['[', ' ']);
        assert("{ "@ =~= seq!['{', ' ']);
        assert("]"@ =~= seq![']']);
        assert("}"@ =~= seq!['}']);
        assert(""@ =~= Seq::<char>::empty());
    }
    match value {
        Acon::String(text) => {
            proof {
                lemma_unlines_one(indent@ + key@ + seq![' '] + text@);
            }
            out.append(indent);
            out.append(key);
            out.push(' ');
            out.append(text.as_str());
            out.push('\n');
            assert(out@ =~= old(out)@ + (indent@ + key@ + seq![' '] + text@ + seq!['\n']));
        },
        Acon::Array(items) => {
            let mut deeper = indent.to_owned();
            deeper.push('\t');
            write_line(out, indent, "[ ", key);
            let ghost opened = out@;
            let mut i: usize = 0;
            proof {
                lemma_array_view(*value);
                assert(value@->Array_0.take(0) =~= Seq::<Value>::empty());
                assert(opened + unlines(Seq::<Text>::empty()) == opened);
            }
            while i < items.len()
                invariant
                    *value == Acon::Array(*items),
                    i <= items@.len(),
                    deeper@ == indent@.push('\t'),
                    out@ == opened + unlines(items_lines(value@->Array_0.take(i as int), deeper@)),
                decreases items@.len() - i,
            {
                let ghost done = items_lines(value@->Array_0.take(i as int), deeper@);
                let item = &items[i];
                proof {
                    reveal_strlit("");
                    assert(""@ =~= Seq::<char>::empty());
                    lemma_array_view(*value);
                    let next = value@->Array_0.take(i + 1);
                    assert(next.drop_last() == value@->Array_0.take(i as int));
                    assert(next.last() == item@);
                    lemma_unlines_add(done, entry_lines(Seq::empty(), item@, deeper@));
                    assert(decreases_to!(value => value->Array_0));
                }
                write_entry(out, "", item, deeper.as_str());
                i += 1;
            }
            proof {
                lemma_array_view(*value);
                assert(value@->Array_0.take(i as int) == value@->Array_0);
                let head = seq![indent@ + seq!['[', ' '] + key@];
                let body = items_lines(value@->Array_0, deeper@);
                let tail = seq![Seq::<char>::empty(), indent@ + seq![']']];
                lemma_unlines_add(head, body);
                lemma_unlines_add(head + body, tail);
            }
            write_close(out, indent, "]");
        },
        Acon::Table(table) => {
            let mut deeper = indent.to_owned();
            deeper.push('\t');
            write_line(out, indent, "{ ", key);
            let ghost opened = out@;
            proof {
                assert(opened + unlines(Seq::<Text>::empty()) == opened);
            }
            write_entries(out, table, deeper.as_str());
            proof {
                let head = seq![indent@ + seq!['{', ' '] + key@];
                let body = entries_lines(table@, deeper@);
                let tail = seq![Seq::<char>::empty(), indent@ + seq!['}']];
                lemma_unlines_add(head, body);
                lemma_unlines_add(head + body, tail);
            }
            write_close(out, indent, "}");
        },
    }
}

/// Writes what prints the entries of `table` behind `indent`.
fn write_entries(out: &mut String, table: &Table, indent: &str)
    ensures
        final(out)@ == old(out)@ + unlines(entries_lines(table@, indent@)),
    decreases table,
{
    let ghost begun = out@;
    let mut i: usize = 0;
    proof {
        assert(table@.take(0) =~= Seq::<Entry>::empty());
        assert(begun + unlines(Seq::<Text>::empty()) == begun);
    }
    while i < table.len()
        invariant
            i <= table@.len(),
            out@ == begun + unlines(entries_lines(table@.take(i as int), indent@)),
        decreases table@.len() - i,
    {
        let ghost done = entries_lines(table@.take(i as int), indent@);
        let key = table.key(i);
        let value = table.value(i);
        proof {
            let next = table@.take(i + 1);
            assert(next.drop_last() == table@.take(i as int));
            assert(next.last() == table@[i as int]);
            lemma_unlines_add(done, entry_lines(key@, value@, indent@));
        }
        write_entry(out, key.as_str(), value, indent);
        i += 1;
    }
    assert(table@.take(i as int) == table@);
}

impl Table {
    /// The text that prints a document with the entries of this table.
    pub fn render(&self) -> (r: String)
        ensures
            r@ == print_text(self@),
    {
        let mut out = String::new();
        proof {
            reveal_strlit("");
            assert(""@ =~= Seq::<char>::empty());
        }
        write_entries(&mut out, self, "");
        assert(out@ =~= print_text(self@));
        out
    }
}

impl Acon {
    /// The text that prints the document, where this value is a table. An
    /// array or a string is no document and has no text.
    pub fn render(&self) -> (r: Option<String>)
        ensures
            match r {
                Some(text) => self@ is Table && text@ == print_text(self@->Table_0),
                None => !(self@ is Table),
            },
    {
        match self {
            Acon::Table(table) => Some(table.render()),
            _ => None,
        }
    }
}

} // verus!
