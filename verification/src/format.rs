//! The text form of a cache: one entry per line, the key and the value separated by
//! a tab. Nothing is escaped, so a key must not hold a tab and neither field a line
//! break.
use vstd::prelude::*;

verus! {

/// The character between the key and the value of an entry.
pub const SEPARATOR: char = '\t';

/// The character that ends a line.
pub const LINE_END: char = '\n';

/// The character that is dropped where it stands just before a line end.
pub const CARRIAGE_RETURN: char = '\r';

/// Taken on trust of `String::push`: afterwards the text is what it was, followed by
/// the character.
pub assume_specification[ String::push ](text: &mut String, c: char)
    ensures
        final(text)@ == old(text)@.push(c),
;

/// The index of the first `c` in `s`, or the length of `s` where there is none.
pub open spec fn find(s: Seq<char>, c: char) -> nat
    decreases s.len(),
{
    if s.len() == 0 || s[0] == c {
        0
    } else {
        1 + find(s.drop_first(), c)
    }
}

/// The line that holds one entry, with its line end.
pub open spec fn entry_line(key: Seq<char>, value: Seq<char>) -> Seq<char> {
    key + seq![SEPARATOR] + value + seq![LINE_END]
}

/// The key and the value of a line: what stands before its first tab and what stands
/// after it. A line without a tab holds no entry.
pub open spec fn fields(line: Seq<char>) -> Option<(Seq<char>, Seq<char>)> {
    let at = find(line, SEPARATOR) as int;
    if at < line.len() {
        Some((line.subrange(0, at), line.subrange(at + 1, line.len() as int)))
    } else {
        None
    }
}

/// A line as it was terminated, without the carriage return that may precede the
/// line end.
pub open spec fn chomp(line: Seq<char>) -> Seq<char> {
    if line.len() > 0 && line.last() == CARRIAGE_RETURN {
        line.drop_last()
    } else {
        line
    }
}

/// The lines of a text. A line ends at a line end, which is not part of it, and a
/// carriage return just before the line end is not part of it either. What follows
/// the last line end is a line too, unless it is empty.
pub open spec fn lines(text: Seq<char>) -> Seq<Seq<char>>
    decreases text.len(),
{
    let at = find(text, LINE_END) as int;
    if text.len() == 0 {
        Seq::empty()
    } else if at < text.len() {
        seq![chomp(text.subrange(0, at))] + lines(text.subrange(at + 1, text.len() as int))
    } else {
        seq![text]
    }
}

/// The entries that the given lines hold, in the order of the lines. A line without
/// a tab holds none.
pub open spec fn entries_in(lines: Seq<Seq<char>>) -> Seq<(Seq<char>, Seq<char>)>
    decreases lines.len(),
{
    if lines.len() == 0 {
        Seq::empty()
    } else {
        match fields(lines.last()) {
            Some(entry) => entries_in(lines.drop_last()).push(entry),
            None => entries_in(lines.drop_last()),
        }
    }
}

/// The entries that a text holds.
pub open spec fn entries_of(text: Seq<char>) -> Seq<(Seq<char>, Seq<char>)> {
    entries_in(lines(text))
}

/// The text that holds the given entries, one line each, in their order.
pub open spec fn file_text(entries: Seq<(Seq<char>, Seq<char>)>) -> Seq<char>
    decreases entries.len(),
{
    if entries.len() == 0 {
        Seq::empty()
    } else {
        file_text(entries.drop_last()) + entry_line(entries.last().0, entries.last().1)
    }
}

/// `find` returns the least index at which the character stands.
pub proof fn lemma_find(s: Seq<char>, c: char)
    ensures
        find(s, c) <= s.len(),
        find(s, c) < s.len() ==> s[find(s, c) as int] == c,
        forall|i: int| 0 <= i < find(s, c) ==> s[i] != c,
    decreases s.len(),
{
    if s.len() > 0 && s[0] != c {
        lemma_find(s.drop_first(), c);
        assert forall|i: int| 0 <= i < find(s, c) implies s[i] != c by {
            if i > 0 {
                assert(s[i] == s.drop_first()[i - 1]);
            }
        }
    }
}

/// An index at which the character stands, with none before it, is what `find` returns.
pub proof fn lemma_find_at(s: Seq<char>, c: char, at: int)
    requires
        0 <= at <= s.len(),
        at < s.len() ==> s[at] == c,
        forall|i: int| 0 <= i < at ==> s[i] != c,
    ensures
        find(s, c) == at,
{
    lemma_find(s, c);
}

/// An entry that the text form keeps: its key holds no tab, neither field holds a
/// line end, and the value does not end in a carriage return.
pub open spec fn plain(entry: (Seq<char>, Seq<char>)) -> bool {
    &&& !entry.0.contains(SEPARATOR)
    &&& !entry.0.contains(LINE_END)
    &&& !entry.1.contains(LINE_END)
    &&& (entry.1.len() == 0 || entry.1.last() != CARRIAGE_RETURN)
}

/// A key without a tab, a tab and a value make a line that splits into that key and
/// that value.
pub proof fn lemma_fields_of_joined(key: Seq<char>, value: Seq<char>)
    requires
        !key.contains(SEPARATOR),
    ensures
        fields(key + seq![SEPARATOR] + value) == Some((key, value)),
{
    let line = key + seq![SEPARATOR] + value;
    assert forall|i: int| 0 <= i < key.len() implies line[i] != SEPARATOR by {}
    lemma_find_at(line, SEPARATOR, key.len() as int);
}

/// The line of a plain entry is read back as one line, without its line end.
pub proof fn lemma_line_of_entry(key: Seq<char>, value: Seq<char>)
    requires
        plain((key, value)),
    ensures
        lines(entry_line(key, value)) == seq![key + seq![SEPARATOR] + value],
{
    let body = key + seq![SEPARATOR] + value;
    let text = entry_line(key, value);
    assert forall|i: int| 0 <= i < body.len() implies text[i] != LINE_END by {}
    lemma_find_at(text, LINE_END, body.len() as int);
    assert(text.subrange(0, body.len() as int) == body);
    assert(body.last() != CARRIAGE_RETURN);
    assert(lines(text.subrange(body.len() as int + 1, text.len() as int)) == Seq::<
        Seq<char>,
    >::empty());
}

/// After a text that is empty or ends with a line end, the lines of what follows
/// are read as if it stood alone.
pub proof fn lemma_lines_append(head: Seq<char>, tail: Seq<char>)
    requires
        head.len() == 0 || head.last() == LINE_END,
    ensures
        lines(head + tail) == lines(head) + lines(tail),
    decreases head.len(),
{
    if head.len() > 0 {
        let whole = head + tail;
        lemma_find(head, LINE_END);
        let at = find(head, LINE_END) as int;
        assert forall|i: int| 0 <= i < at implies whole[i] != LINE_END by {}
        lemma_find_at(whole, LINE_END, at);
        let head_rest = head.subrange(at + 1, head.len() as int);
        assert(whole.subrange(0, at) == head.subrange(0, at));
        assert(whole.subrange(at + 1, whole.len() as int) == head_rest + tail);
        lemma_lines_append(head_rest, tail);
        let first = seq![chomp(head.subrange(0, at))];
        assert(first + (lines(head_rest) + lines(tail)) == (first + lines(head_rest)) + lines(
            tail,
        ));
    }
}

/// The entries of two runs of lines, one after the other, are the entries of the
/// first followed by those of the second.
pub proof fn lemma_entries_append(first: Seq<Seq<char>>, second: Seq<Seq<char>>)
    ensures
        entries_in(first + second) == entries_in(first) + entries_in(second),
    decreases second.len(),
{
    if second.len() > 0 {
        assert((first + second).drop_last() == first + second.drop_last());
        lemma_entries_append(first, second.drop_last());
        if let Some(entry) = fields(second.last()) {
            assert((entries_in(first) + entries_in(second.drop_last())).push(entry) == entries_in(
                first,
            ) + entries_in(second.drop_last()).push(entry));
        }
    }
}

/// Plain entries written as text are read back as they were, in their order.
pub proof fn text_round_trip(entries: Seq<(Seq<char>, Seq<char>)>)
    requires
        forall|i: int| 0 <= i < entries.len() ==> plain(#[trigger] entries[i]),
    ensures
        entries_of(file_text(entries)) == entries,
        file_text(entries).len() == 0 || file_text(entries).last() == LINE_END,
    decreases entries.len(),
{
    if entries.len() > 0 {
        let front = entries.drop_last();
        let (key, value) = entries.last();
        text_round_trip(front);
        lemma_lines_append(file_text(front), entry_line(key, value));
        lemma_line_of_entry(key, value);
        lemma_fields_of_joined(key, value);
        let body = key + seq![SEPARATOR] + value;
        lemma_entries_append(lines(file_text(front)), seq![body]);
        assert(seq![body].drop_last() == Seq::<Seq<char>>::empty());
        assert(entries_in(Seq::<Seq<char>>::empty()) == Seq::<(Seq<char>, Seq<char>)>::empty());
        assert(entries_in(seq![body]) == Seq::<(Seq<char>, Seq<char>)>::empty().push(
            (key, value),
        ));
    }
}

/// The characters of a text, one by one.
fn chars_of(text: &str) -> (chars: Vec<char>)
    ensures
        chars@ == text@,
{
    let mut chars: Vec<char> = Vec::new();
    for c in it: text.chars()
        invariant
            chars@ == it.seq().take(it.index()),
            it.seq() == text@,
    {
        chars.push(c);
    }
    chars
}

/// The text made of the characters from index `from` up to, not including, `to`.
fn text_of(chars: &Vec<char>, from: usize, to: usize) -> (text: String)
    requires
        from <= to <= chars.len(),
    ensures
        text@ == chars@.subrange(from as int, to as int),
{
    let mut text = String::new();
    let mut i: usize = from;
    while i < to
        invariant
            from <= i <= to <= chars.len(),
            text@ == chars@.subrange(from as int, i as int),
        decreases to - i,
    {
        text.push(chars[i]);
        i += 1;
    }
    text
}

/// The first index from `from` on at which `c` stands, or the length where there is none.
fn position_from(chars: &Vec<char>, from: usize, c: char) -> (at: usize)
    requires
        from <= chars.len(),
    ensures
        at == from + find(chars@.subrange(from as int, chars.len() as int), c),
        from <= at <= chars.len(),
{
    let mut at: usize = from;
    while at < chars.len() && chars[at] != c
        invariant
            from <= at <= chars.len(),
            forall|i: int| from <= i < at ==> chars@[i] != c,
        decreases chars.len() - at,
    {
        at += 1;
    }
    proof {
        lemma_find_at(chars@.subrange(from as int, chars.len() as int), c, at - from);
    }
    at
}

/// Splits a line into its key and its value at the first tab. A line without a tab
/// gives nothing.
pub fn split_fields(line: &str) -> (parts: Option<(String, String)>)
    ensures
        (match parts {
            Some((key, value)) => fields(line@) == Some((key@, value@)),
            None => fields(line@) is None,
        }),
{
    let chars = chars_of(line);
    let at = position_from(&chars, 0, SEPARATOR);
    assert(chars@.subrange(0, chars.len() as int) == chars@);
    if at < chars.len() {
        Some((text_of(&chars, 0, at), text_of(&chars, at + 1, chars.len())))
    } else {
        None
    }
}

/// Writes an entry as a line, with its line end.
pub fn join_fields(key: &str, value: &str) -> (line: String)
    ensures
        line@ == entry_line(key@, value@),
{
    let mut line = String::new();
    line.append(key);
    line.push(SEPARATOR);
    line.append(value);
    line.push(LINE_END);
    line
}

/// Splits a text into its lines.
pub fn split_lines(text: &str) -> (list: Vec<String>)
    ensures
        list@.map_values(|line: String| line@) == lines(text@),
{
    let chars = chars_of(text);
    let mut list: Vec<String> = Vec::new();
    let mut start: usize = 0;
    assert(chars@.subrange(0, chars.len() as int) == chars@);
    while start < chars.len()
        invariant
            start <= chars.len(),
            lines(text@) == list@.map_values(|line: String| line@) + lines(
                chars@.subrange(start as int, chars.len() as int),
            ),
        decreases chars.len() - start,
    {
        let ghost done = list@.map_values(|line: String| line@);
        let ghost rest = chars@.subrange(start as int, chars.len() as int);
        let at = position_from(&chars, start, LINE_END);
        let end = if at < chars.len() && at > start && chars[at - 1] == CARRIAGE_RETURN {
            at - 1
        } else {
            at
        };
        let line = text_of(&chars, start, end);
        let next = if at < chars.len() {
            at + 1
        } else {
            at
        };
        proof {
            let after = chars@.subrange(next as int, chars.len() as int);
            if at < chars.len() {
                assert(chomp(rest.subrange(0, at - start)) == line@);
                assert(rest.subrange(at - start + 1, rest.len() as int) == after);
            }
        }
        list.push(line);
        start = next;
    }
    assert(list@.map_values(|line: String| line@) + Seq::<Seq<char>>::empty() == list@.map_values(
        |line: String| line@,
    ));
    list
}

/// Reads the entries that a text holds, in the order of its lines. Lines without a
/// tab are passed over.
pub fn read_entries(text: &str) -> (list: Vec<(String, String)>)
    ensures
        list@.map_values(|entry: (String, String)| (entry.0@, entry.1@)) == entries_of(text@),
{
    let all = split_lines(text);
    let mut list: Vec<(String, String)> = Vec::new();
    let ghost read = all@.map_values(|line: String| line@);
    for i in 0..all.len()
        invariant
            read == all@.map_values(|line: String| line@),
            list@.map_values(|entry: (String, String)| (entry.0@, entry.1@)) == entries_in(
                read.take(i as int),
            ),
    {
        let ghost found = list@.map_values(|entry: (String, String)| (entry.0@, entry.1@));
        assert(read.take(i + 1).drop_last() == read.take(i as int));
        match split_fields(all[i].as_str()) {
            Some(entry) => {
                assert(list@.push(entry).map_values(
                    |entry: (String, String)| (entry.0@, entry.1@),
                ) == found.push((entry.0@, entry.1@)));
                list.push(entry);
            },
            None => {},
        }
    }
    assert(read.take(all.len() as int) == read);
    list
}

} // verus!
