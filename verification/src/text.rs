//! Characters, words, lines and path segments.
//!
//! An ACON document is read one line at a time and each line is read as a
//! run of whitespace-separated words. This module says what those lines and
//! words are, over sequences of characters, and holds the scanners that
//! compute them.

use vstd::prelude::*;
use vstd::std_specs::iter::IteratorSpec;

verus! {

/// A piece of text, as a sequence of Unicode scalar values.
pub type Text = Seq<char>;

/// Whether `c` is whitespace: one of the code points with the Unicode
/// property `White_Space`.
pub open spec fn is_space(c: char) -> bool {
    ||| '\u{9}' <= c <= '\u{D}'
    ||| c == ' '
    ||| c == '\u{85}'
    ||| c == '\u{A0}'
    ||| c == '\u{1680}'
    ||| '\u{2000}' <= c <= '\u{200A}'
    ||| c == '\u{2028}'
    ||| c == '\u{2029}'
    ||| c == '\u{202F}'
    ||| c == '\u{205F}'
    ||| c == '\u{3000}'
}

/// The separators that cut a text into pieces.
#[derive(Clone, Copy, PartialEq, Eq, Debug)]
pub enum Mark {
    /// Any whitespace character; separates the words of a line.
    Space,
    /// The line feed; ends a line.
    Newline,
    /// The full stop; separates the segments of a path.
    Dot,
}

impl Mark {
    /// Whether `c` is a separator of this kind.
    pub open spec fn hits(self, c: char) -> bool {
        match self {
            Mark::Space => is_space(c),
            Mark::Newline => c == '\n',
            Mark::Dot => c == '.',
        }
    }

    /// Decides `hits` for a character.
    pub fn test(self, c: char) -> (r: bool)
        ensures
            r == self.hits(c),
    {
        match self {
            Mark::Space => is_whitespace(c),
            Mark::Newline => c == '\n',
            Mark::Dot => c == '.',
        }
    }
}

/// Decides `is_space` for a character.
pub fn is_whitespace(c: char) -> (r: bool)
    ensures
        r == is_space(c),
{
    ('\u{9}' <= c && c <= '\u{D}') || c == ' ' || c == '\u{85}' || c == '\u{A0}' || c == '\u{1680}'
        || ('\u{2000}' <= c && c <= '\u{200A}') || c == '\u{2028}' || c == '\u{2029}' || c
        == '\u{202F}' || c == '\u{205F}' || c == '\u{3000}'
}

/// The number of characters of `s` that stand before its first separator
/// of kind `m`; the length of `s` where it holds none.
pub open spec fn span(s: Text, m: Mark) -> int
    decreases s.len(),
{
    if s.len() == 0 || m.hits(s[0]) {
        0
    } else {
        1 + span(s.drop_first(), m)
    }
}

/// Whether no character of `s` is a separator of kind `m`.
pub open spec fn free_of(s: Text, m: Mark) -> bool {
    forall|i: int| 0 <= i < s.len() ==> !m.hits(#[trigger] s[i])
}

/// A word: at least one character, none of them whitespace.
pub open spec fn is_word(w: Text) -> bool {
    w.len() > 0 && free_of(w, Mark::Space)
}

/// `span` is the position of the first separator.
pub proof fn lemma_span(s: Text, m: Mark)
    ensures
        0 <= span(s, m) <= s.len(),
        free_of(s.take(span(s, m)), m),
        span(s, m) < s.len() ==> m.hits(s[span(s, m)]),
    decreases s.len(),
{
    if s.len() == 0 || m.hits(s[0]) {
    } else {
        let t = s.drop_first();
        lemma_span(t, m);
        let n = span(s, m);
        assert forall|i: int| 0 <= i < s.take(n).len() implies !m.hits(#[trigger] s.take(n)[i]) by {
            if i > 0 {
                assert(s.take(n)[i] == t.take(n - 1)[i - 1]);
            }
        }
    }
}

/// A position with no separator before it and one at it is the `span`.
pub proof fn lemma_span_is(s: Text, m: Mark, k: int)
    requires
        0 <= k <= s.len(),
        free_of(s.take(k), m),
        k < s.len() ==> m.hits(s[k]),
    ensures
        span(s, m) == k,
    decreases s.len(),
{
    if s.len() == 0 {
    } else if k == 0 {
    } else {
        assert(s.take(k)[0] == s[0]);
        let t = s.drop_first();
        assert forall|i: int| 0 <= i < t.take(k - 1).len() implies !m.hits(
            #[trigger] t.take(k - 1)[i],
        ) by {
            assert(t.take(k - 1)[i] == s.take(k)[i + 1]);
        }
        lemma_span_is(t, m, k - 1);
    }
}

/// The words of a line: its maximal runs of characters that are not
/// whitespace, from left to right.
pub open spec fn words_of(s: Text) -> Seq<Text>
    decreases s.len(),
{
    if s.len() == 0 {
        Seq::empty()
    } else if is_space(s[0]) {
        words_of(s.drop_first())
    } else {
        let n = span(s, Mark::Space);
        proof {
            lemma_span(s, Mark::Space);
        }
        seq![s.take(n)] + words_of(s.skip(n))
    }
}

/// The lines of a text. A line feed ends a line; what follows the last line
/// feed is a line of its own unless it is empty. A carriage return before
/// the line feed stays in the line: it is whitespace, so no word holds it.
pub open spec fn lines_of(s: Text) -> Seq<Text>
    decreases s.len(),
{
    if s.len() == 0 {
        Seq::empty()
    } else {
        let n = span(s, Mark::Newline);
        proof {
            lemma_span(s, Mark::Newline);
        }
        if n < s.len() {
            seq![s.take(n)] + lines_of(s.skip(n + 1))
        } else {
            seq![s]
        }
    }
}

/// The segments of a dotted path: the pieces between its full stops. There
/// is always at least one, and any of them may be empty.
pub open spec fn segments_of(s: Text) -> Seq<Text>
    decreases s.len(),
{
    let n = span(s, Mark::Dot);
    proof {
        lemma_span(s, Mark::Dot);
    }
    if n < s.len() {
        seq![s.take(n)] + segments_of(s.skip(n + 1))
    } else {
        seq![s]
    }
}

/// The words joined again, with one space between neighbours.
pub open spec fn join(words: Seq<Text>) -> Text
    decreases words.len(),
{
    if words.len() == 0 {
        Seq::empty()
    } else if words.len() == 1 {
        words[0]
    } else {
        join(words.drop_last()) + seq![' '] + words.last()
    }
}

/// Whether every character of `s` is whitespace.
pub open spec fn is_blank(s: Text) -> bool {
    forall|i: int| 0 <= i < s.len() ==> is_space(#[trigger] s[i])
}

/// Whether the text is what joining its own words gives: it neither begins
/// nor ends with whitespace, and its words stand one space apart.
pub open spec fn is_normal(s: Text) -> bool {
    join(words_of(s)) == s
}

/// Whether every text of the sequence is a word.
pub open spec fn all_words(words: Seq<Text>) -> bool {
    forall|i: int| 0 <= i < words.len() ==> is_word(#[trigger] words[i])
}

/// What stands behind a text does not move its first separator, where it
/// has one.
pub proof fn lemma_span_within(a: Text, b: Text, m: Mark)
    requires
        span(a, m) < a.len(),
    ensures
        span(a + b, m) == span(a, m),
{
    lemma_span(a, m);
    let n = span(a, m);
    assert((a + b).take(n) =~= a.take(n));
    assert((a + b)[n] == a[n]);
    lemma_span_is(a + b, m, n);
}

/// A text without separators, followed by a separator, spans its own
/// length.
pub proof fn lemma_span_whole(a: Text, b: Text, m: Mark)
    requires
        free_of(a, m),
        b.len() > 0 ==> m.hits(b[0]),
    ensures
        span(a + b, m) == a.len(),
{
    assert((a + b).take(a.len() as int) =~= a);
    if b.len() > 0 {
        assert((a + b)[a.len() as int] == b[0]);
    }
    lemma_span_is(a + b, m, a.len() as int);
}

/// Every word of a line is a word.
pub proof fn lemma_words_are_words(s: Text)
    ensures
        all_words(words_of(s)),
    decreases s.len(),
{
    if s.len() == 0 {
    } else if is_space(s[0]) {
        lemma_words_are_words(s.drop_first());
    } else {
        let n = span(s, Mark::Space);
        lemma_span(s, Mark::Space);
        lemma_words_are_words(s.skip(n));
        let rest = words_of(s.skip(n));
        assert forall|i: int| 0 <= i < words_of(s).len() implies is_word(
            #[trigger] words_of(s)[i],
        ) by {
            if i > 0 {
                assert(words_of(s)[i] == rest[i - 1]);
            }
        }
    }
}

/// Whitespace in front of a line adds no word.
pub proof fn lemma_words_after_blank(blank: Text, s: Text)
    requires
        is_blank(blank),
    ensures
        words_of(blank + s) == words_of(s),
    decreases blank.len(),
{
    if blank.len() == 0 {
        assert(blank + s =~= s);
    } else {
        assert((blank + s)[0] == blank[0]);
        assert((blank + s).drop_first() =~= blank.drop_first() + s);
        lemma_words_after_blank(blank.drop_first(), s);
    }
}

/// A line of whitespace has no words.
pub proof fn lemma_words_of_blank(blank: Text)
    requires
        is_blank(blank),
    ensures
        words_of(blank) == Seq::<Text>::empty(),
{
    lemma_words_after_blank(blank, Seq::empty());
    assert(blank + Seq::<char>::empty() =~= blank);
}

/// The words of two texts that a whitespace character holds apart are the
/// words of the first and then the words of the second.
pub proof fn lemma_words_across_space(a: Text, c: char, b: Text)
    requires
        is_space(c),
    ensures
        words_of(a + seq![c] + b) == words_of(a) + words_of(b),
    decreases a.len(),
{
    let whole = a + seq![c] + b;
    if a.len() == 0 {
        assert(whole.drop_first() =~= b);
        assert(whole[0] == c);
        assert(words_of(a) + words_of(b) =~= words_of(b));
    } else if is_space(a[0]) {
        assert(whole[0] == a[0]);
        assert(whole.drop_first() =~= a.drop_first() + seq![c] + b);
        lemma_words_across_space(a.drop_first(), c, b);
    } else {
        let n = span(a, Mark::Space);
        lemma_span(a, Mark::Space);
        assert(whole[0] == a[0]);
        assert(whole =~= a + (seq![c] + b));
        if n < a.len() {
            lemma_span_within(a, seq![c] + b, Mark::Space);
        } else {
            assert(a.take(n) =~= a);
            lemma_span_whole(a, seq![c] + b, Mark::Space);
        }
        assert(span(whole, Mark::Space) == n);
        assert(whole.take(n) =~= a.take(n));
        assert(whole.skip(n) =~= a.skip(n) + seq![c] + b);
        lemma_words_across_space(a.skip(n), c, b);
        assert(seq![a.take(n)] + (words_of(a.skip(n)) + words_of(b)) =~= (seq![a.take(n)]
            + words_of(a.skip(n))) + words_of(b));
    }
}

/// A word is the one word of itself.
pub proof fn lemma_words_of_word(w: Text)
    requires
        is_word(w),
    ensures
        words_of(w) == seq![w],
{
    assert(w + Seq::<char>::empty() =~= w);
    lemma_span_whole(w, Seq::empty(), Mark::Space);
    assert(w.take(w.len() as int) =~= w);
    assert(w.skip(w.len() as int) =~= Seq::<char>::empty());
    assert(words_of(w.skip(w.len() as int)) =~= Seq::<Text>::empty());
    assert(!is_space(w[0]));
    assert(words_of(w) =~= seq![w]);
}

/// Joining words and splitting the result gives the words back.
pub proof fn lemma_words_of_join(words: Seq<Text>)
    requires
        all_words(words),
    ensures
        words_of(join(words)) == words,
    decreases words.len(),
{
    if words.len() == 0 {
    } else if words.len() == 1 {
        lemma_words_of_word(words[0]);
        assert(words =~= seq![words[0]]);
    } else {
        let front = words.drop_last();
        assert(all_words(front)) by {
            assert forall|i: int| 0 <= i < front.len() implies is_word(#[trigger] front[i]) by {
                assert(front[i] == words[i]);
            }
        }
        lemma_words_of_join(front);
        lemma_words_across_space(join(front), ' ', words.last());
        lemma_words_of_word(words.last());
        assert(front + seq![words.last()] =~= words);
    }
}

/// What joining words gives is normal.
pub proof fn lemma_join_is_normal(words: Seq<Text>)
    requires
        all_words(words),
    ensures
        is_normal(join(words)),
{
    lemma_words_of_join(words);
}

/// The lines of a text that begins with a whole line: that line, and then
/// the lines of the rest.
pub proof fn lemma_lines_after_line(line: Text, rest: Text)
    requires
        free_of(line, Mark::Newline),
    ensures
        lines_of(line + seq!['\n'] + rest) == seq![line] + lines_of(rest),
{
    let whole = line + seq!['\n'] + rest;
    assert(whole =~= line + (seq!['\n'] + rest));
    lemma_span_whole(line, seq!['\n'] + rest, Mark::Newline);
    assert(whole.take(line.len() as int) =~= line);
    assert(whole.skip(line.len() as int + 1) =~= rest);
}

/// How one text stands to another in the order of the keys of a table.
#[derive(Clone, Copy, PartialEq, Eq, Debug)]
pub enum Order {
    /// The first text comes first.
    Before,
    /// The two texts are the same.
    Same,
    /// The first text comes last.
    After,
}

/// The order of two texts: by their first differing character, the smaller
/// code point first; a proper prefix of a text comes before it.
pub open spec fn order_of(a: Text, b: Text) -> Order
    decreases a.len(),
{
    if a.len() == 0 {
        if b.len() == 0 {
            Order::Same
        } else {
            Order::Before
        }
    } else if b.len() == 0 {
        Order::After
    } else if a[0] == b[0] {
        order_of(a.drop_first(), b.drop_first())
    } else if a[0] < b[0] {
        Order::Before
    } else {
        Order::After
    }
}

/// Whether `a` comes strictly before `b`.
pub open spec fn precedes(a: Text, b: Text) -> bool {
    order_of(a, b) is Before
}

/// Two texts are in the order `Same` exactly when they are equal.
pub proof fn lemma_order_same(a: Text, b: Text)
    ensures
        order_of(a, b) is Same <==> a == b,
    decreases a.len(),
{
    if a.len() == 0 || b.len() == 0 {
        if a.len() == 0 && b.len() == 0 {
            assert(a =~= b);
        }
    } else {
        lemma_order_same(a.drop_first(), b.drop_first());
        if a[0] == b[0] && a.drop_first() == b.drop_first() {
            assert(a =~= seq![a[0]] + a.drop_first());
            assert(b =~= seq![b[0]] + b.drop_first());
        }
    }
}

/// Swapping the two texts swaps `Before` and `After`.
pub proof fn lemma_order_flip(a: Text, b: Text)
    ensures
        order_of(a, b) is Before <==> order_of(b, a) is After,
        order_of(a, b) is After <==> order_of(b, a) is Before,
        order_of(a, b) is Same <==> order_of(b, a) is Same,
    decreases a.len(),
{
    if a.len() != 0 && b.len() != 0 {
        lemma_order_flip(a.drop_first(), b.drop_first());
    }
}

/// `precedes` is transitive.
pub proof fn lemma_precedes_transitive(a: Text, b: Text, c: Text)
    requires
        precedes(a, b),
        precedes(b, c),
    ensures
        precedes(a, c),
    decreases a.len(),
{
    if a.len() != 0 && b.len() != 0 && c.len() != 0 {
        if a[0] == b[0] && b[0] == c[0] {
            lemma_precedes_transitive(a.drop_first(), b.drop_first(), c.drop_first());
        }
    }
}

/// Decides `order_of` for two string slices.
pub fn order(a: &str, b: &str) -> (r: Order)
    ensures
        r == order_of(a@, b@),
{
    let mut left = a.chars();
    let mut right = b.chars();
    loop
        invariant
            left.obeys_prophetic_iter_laws(),
            right.obeys_prophetic_iter_laws(),
            left.decrease() is Some,
            order_of(a@, b@) == order_of(left.remaining(), right.remaining()),
        decreases left.decrease()->0,
    {
        let ghost l = left.remaining();
        let ghost r = right.remaining();
        let x = left.next();
        let y = right.next();
        assert(order_of(a@, b@) == order_of(l, r));
        match (x, y) {
            (None, None) => {
                return Order::Same;
            },
            (None, Some(_)) => {
                return Order::Before;
            },
            (Some(_), None) => {
                return Order::After;
            },
            (Some(p), Some(q)) => {
                if p != q {
                    assert(l[0] == p && r[0] == q);
                    if p < q {
                        return Order::Before;
                    } else {
                        return Order::After;
                    }
                }
            },
        }
    }
}

/// Whether two string slices hold the same text.
pub fn same(a: &str, b: &str) -> (r: bool)
    ensures
        r == (a@ == b@),
{
    proof {
        lemma_order_same(a@, b@);
    }
    match order(a, b) {
        Order::Same => true,
        _ => false,
    }
}

/// `std::string::String::push`, which vstd leaves without a specification.
/// The standard library documents it as appending the given character to
/// the end of the string; the contract says that and nothing more.
pub assume_specification[ std::string::String::push ](s: &mut std::string::String, c: char)
    ensures
        final(s)@ == old(s)@.push(c),
;

/// The characters of a string slice, in order.
pub fn chars_of(s: &str) -> (r: Vec<char>)
    ensures
        r@ == s@,
{
    let mut out: Vec<char> = Vec::new();
    let it = s.chars();
    for c in iter: it
        invariant
            out@ == iter.seq().take(iter.index()),
    {
        out.push(c);
    }
    out
}

/// The string made of the characters `chars[from..to]`.
pub fn string_of(chars: &[char], from: usize, to: usize) -> (r: String)
    requires
        from <= to <= chars@.len(),
    ensures
        r@ == chars@.subrange(from as int, to as int),
{
    let mut out = String::new();
    let mut i: usize = from;
    while i < to
        invariant
            from <= i <= to <= chars@.len(),
            out@ == chars@.subrange(from as int, i as int),
        decreases to - i,
    {
        out.push(chars[i]);
        i += 1;
    }
    out
}

/// The position of the first separator of kind `m` in `chars[from..to]`,
/// or `to` where there is none.
pub fn scan(chars: &[char], from: usize, to: usize, m: Mark) -> (r: usize)
    requires
        from <= to <= chars@.len(),
    ensures
        from <= r <= to,
        r - from == span(chars@.subrange(from as int, to as int), m),
{
    let mut i: usize = from;
    while i < to && !m.test(chars[i])
        invariant
            from <= i <= to <= chars@.len(),
            forall|j: int| from <= j < i ==> !m.hits(chars@[j]),
        decreases to - i,
    {
        i += 1;
    }
    proof {
        let s = chars@.subrange(from as int, to as int);
        assert forall|j: int| 0 <= j < s.take(i - from).len() implies !m.hits(
            #[trigger] s.take(i - from)[j],
        ) by {
            assert(s.take(i - from)[j] == chars@[from + j]);
        }
        lemma_span_is(s, m, i - from);
    }
    i
}

/// The words of the line `chars[from..to]`.
pub fn split_words(chars: &[char], from: usize, to: usize) -> (r: Vec<String>)
    requires
        from <= to <= chars@.len(),
    ensures
        r.deep_view() == words_of(chars@.subrange(from as int, to as int)),
{
    let mut out: Vec<String> = Vec::new();
    let mut i: usize = from;
    while i < to
        invariant
            from <= i <= to <= chars@.len(),
            words_of(chars@.subrange(from as int, to as int)) == out.deep_view() + words_of(
                chars@.subrange(i as int, to as int),
            ),
        decreases to - i,
    {
        let ghost rest = chars@.subrange(i as int, to as int);
        let ghost before = out.deep_view();
        assert(rest[0] == chars@[i as int]);
        if is_whitespace(chars[i]) {
            assert(rest.drop_first() == chars@.subrange(i + 1, to as int));
            i += 1;
        } else {
            let end = scan(chars, i, to, Mark::Space);
            let word = string_of(chars, i, end);
            proof {
                lemma_span(rest, Mark::Space);
                assert(rest.take(end - i) == chars@.subrange(i as int, end as int));
                assert(rest.skip(end - i) == chars@.subrange(end as int, to as int));
            }
            out.push(word);
            assert(out.deep_view() == before.push(word@));
            assert(before + (seq![word@] + words_of(chars@.subrange(end as int, to as int)))
                == before.push(word@) + words_of(chars@.subrange(end as int, to as int)));
            i = end;
        }
    }
    assert(chars@.subrange(i as int, to as int).len() == 0);
    out
}

/// The words from position `from` on, joined by single spaces.
pub fn join_words(words: &Vec<String>, from: usize) -> (r: String)
    requires
        from <= words.len(),
    ensures
        r@ == join(words.deep_view().skip(from as int)),
{
    let mut out = String::new();
    let mut i: usize = from;
    while i < words.len()
        invariant
            from <= i <= words.len(),
            out@ == join(words.deep_view().subrange(from as int, i as int)),
        decreases words.len() - i,
    {
        let ghost done = words.deep_view().subrange(from as int, i as int);
        let ghost next = words.deep_view().subrange(from as int, i + 1);
        assert(next.drop_last() == done);
        assert(next.last() == words[i as int]@);
        if i > from {
            out.push(' ');
        }
        out.append(words[i].as_str());
        i += 1;
    }
    assert(words.deep_view().subrange(from as int, i as int) == words.deep_view().skip(from as int));
    out
}

/// The segments of a dotted path.
pub fn split_segments(chars: &[char]) -> (r: Vec<String>)
    ensures
        r.deep_view() == segments_of(chars@),
{
    let mut out: Vec<String> = Vec::new();
    let mut i: usize = 0;
    assert(chars@.skip(0) == chars@);
    assert(out.deep_view() + segments_of(chars@) == segments_of(chars@));
    loop
        invariant
            i <= chars@.len(),
            segments_of(chars@) == out.deep_view() + segments_of(chars@.skip(i as int)),
        decreases chars@.len() - i,
    {
        let ghost rest = chars@.skip(i as int);
        let ghost before = out.deep_view();
        assert(rest == chars@.subrange(i as int, chars@.len() as int));
        let end = scan(chars, i, chars.len(), Mark::Dot);
        let segment = string_of(chars, i, end);
        assert(rest.take(end - i) == chars@.subrange(i as int, end as int));
        out.push(segment);
        assert(out.deep_view() == before.push(segment@));
        if end < chars.len() {
            assert(rest.skip(end - i + 1) == chars@.skip(end + 1));
            assert(before + (seq![segment@] + segments_of(chars@.skip(end + 1))) == before.push(
                segment@,
            ) + segments_of(chars@.skip(end + 1)));
            i = end + 1;
        } else {
            assert(rest.take(end - i) == rest);
            assert(before + seq![rest] == before.push(segment@));
            return out;
        }
    }
}

} // verus!
