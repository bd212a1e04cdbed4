//! Putting text together from fields and lines, so that splitting takes it
//! apart again.

use vstd::prelude::*;
use vstd::string::*;

use crate::sanitize;
use crate::storage;
use crate::text;

verus! {

/// The texts with `separator` between them.
pub open spec fn joined(parts: Seq<Seq<char>>, separator: Seq<char>) -> Seq<char>
    decreases parts.len(),
{
    if parts.len() == 0 {
        seq![]
    } else if parts.len() == 1 {
        parts[0]
    } else {
        joined(parts.drop_last(), separator) + separator + parts.last()
    }
}

/// Joins texts with a separator between them.
pub fn join_texts(parts: &Vec<String>, separator: &str) -> (s: String)
    ensures
        s@ == joined(text::texts(parts@), separator@),
{
    let ghost all = text::texts(parts@);
    let mut s = String::new();
    let mut i: usize = 0;
    assert(s@ =~= joined(all.subrange(0, 0), separator@));
    while i < parts.len()
        invariant
            0 <= i <= parts@.len(),
            all == text::texts(parts@),
            s@ == joined(all.subrange(0, i as int), separator@),
        decreases parts@.len() - i,
    {
        if i > 0 {
            s.append(separator);
        }
        s.append(parts[i].as_str());
        proof {
            let seen = all.subrange(0, i + 1);
            assert(seen.drop_last() =~= all.subrange(0, i as int));
            assert(seen.last() == all[i as int]);
            if i == 0 {
                assert(seen[0] == all[0]);
                assert(s@ =~= seen[0]);
            }
        }
        i += 1;
    }
    assert(all.subrange(0, i as int) =~= all);
    s
}

/// Joins string slices with a separator between them.
pub fn join_strs(parts: &[&str], separator: &str) -> (s: String)
    ensures
        s@ == joined(storage::str_views(parts@), separator@),
{
    let ghost all = storage::str_views(parts@);
    let mut s = String::new();
    let mut i: usize = 0;
    assert(s@ =~= joined(all.subrange(0, 0), separator@));
    while i < parts.len()
        invariant
            0 <= i <= parts@.len(),
            all == storage::str_views(parts@),
            s@ == joined(all.subrange(0, i as int), separator@),
        decreases parts@.len() - i,
    {
        if i > 0 {
            s.append(separator);
        }
        s.append(parts[i]);
        proof {
            let seen = all.subrange(0, i + 1);
            assert(seen.drop_last() =~= all.subrange(0, i as int));
            assert(seen.last() == all[i as int]);
            if i == 0 {
                assert(seen[0] == all[0]);
                assert(s@ =~= seen[0]);
            }
        }
        i += 1;
    }
    assert(all.subrange(0, i as int) =~= all);
    s
}

/// The texts, each with `end` behind it.
pub open spec fn terminated(parts: Seq<Seq<char>>, end: Seq<char>) -> Seq<char>
    decreases parts.len(),
{
    if parts.len() == 0 {
        seq![]
    } else {
        terminated(parts.drop_last(), end) + parts.last() + end
    }
}

/// Puts texts one after the other, each with `end` behind it.
pub fn terminate_texts(parts: &Vec<String>, end: &str) -> (s: String)
    ensures
        s@ == terminated(text::texts(parts@), end@),
{
    let ghost all = text::texts(parts@);
    let mut s = String::new();
    let mut i: usize = 0;
    assert(s@ =~= terminated(all.subrange(0, 0), end@));
    while i < parts.len()
        invariant
            0 <= i <= parts@.len(),
            all == text::texts(parts@),
            s@ == terminated(all.subrange(0, i as int), end@),
        decreases parts@.len() - i,
    {
        let ghost before = s@;
        s.append(parts[i].as_str());
        s.append(end);
        proof {
            let seen = all.subrange(0, i + 1);
            assert(seen.drop_last() =~= all.subrange(0, i as int));
            assert(seen.last() == all[i as int]);
            assert(s@ =~= before + all[i as int] + end@);
        }
        i += 1;
    }
    assert(all.subrange(0, i as int) =~= all);
    s
}

// ---------------------------------------------------------------------
// Taking apart

proof fn lemma_joined_front(parts: Seq<Seq<char>>, separator: Seq<char>)
    requires
        parts.len() > 1,
    ensures
        joined(parts, separator) == parts[0] + separator + joined(parts.drop_first(), separator),
    decreases parts.len(),
{
    let init = parts.drop_last();
    let rest = parts.drop_first();
    if parts.len() == 2 {
        assert(joined(init, separator) == init[0]);
        assert(joined(rest, separator) == rest[0]);
        assert(joined(parts, separator) =~= parts[0] + separator + joined(rest, separator));
    } else {
        lemma_joined_front(init, separator);
        assert(init.drop_first() =~= rest.drop_last());
        assert(rest.last() == parts.last());
        assert(joined(parts, separator) =~= parts[0] + separator + joined(rest, separator));
    }
}

/// Fields that do not hold the separator are what splitting gives back.
pub proof fn law_fields_joined(parts: Seq<Seq<char>>, c: char)
    requires
        parts.len() > 0,
        forall|i: int| 0 <= i < parts.len() ==> !sanitize::holds(#[trigger] parts[i], c),
    ensures
        text::fields(joined(parts, seq![c]), c) == parts,
    decreases parts.len(),
{
    let s = joined(parts, seq![c]);
    let n = parts[0].len() as int;
    assert(!sanitize::holds(parts[0], c));
    if parts.len() == 1 {
        text::lemma_first_index(s, c);
        assert(text::first_index(s, c) == s.len()) by {
            if text::first_index(s, c) < s.len() {
                assert(parts[0][text::first_index(s, c)] == c);
            }
        }
        assert(text::fields(s, c) =~= parts);
    } else {
        let rest = parts.drop_first();
        lemma_joined_front(parts, seq![c]);
        assert(s[n] == c);
        assert forall|j: int| 0 <= j < n implies s[j] != c by {
            assert(parts[0][j] == s[j]);
        }
        text::lemma_first_index_is(s, c, n);
        assert(s.subrange(0, n) =~= parts[0]);
        assert(s.subrange(n + 1, s.len() as int) =~= joined(rest, seq![c]));
        assert forall|i: int| 0 <= i < rest.len() implies !sanitize::holds(
            #[trigger] rest[i],
            c,
        ) by {
            assert(rest[i] == parts[i + 1]);
        }
        law_fields_joined(rest, c);
        assert(text::fields(s, c) =~= parts);
    }
}

proof fn lemma_terminated_front(parts: Seq<Seq<char>>, end: Seq<char>)
    requires
        parts.len() > 0,
    ensures
        terminated(parts, end) == parts[0] + end + terminated(parts.drop_first(), end),
    decreases parts.len(),
{
    let init = parts.drop_last();
    let rest = parts.drop_first();
    if parts.len() == 1 {
        assert(terminated(init, end) =~= seq![]);
        assert(terminated(rest, end) =~= seq![]);
        assert(terminated(parts, end) =~= parts[0] + end + terminated(rest, end));
    } else {
        lemma_terminated_front(init, end);
        assert(init.drop_first() =~= rest.drop_last());
        assert(rest.last() == parts.last());
        assert(terminated(parts, end) =~= parts[0] + end + terminated(rest, end));
    }
}

/// The end of a line: a line feed, with or without a carriage return before
/// it.
pub open spec fn line_end(crlf: bool) -> Seq<char> {
    if crlf {
        seq!['\r', '\n']
    } else {
        seq!['\n']
    }
}

/// Lines without a line feed, and without a carriage return at their end
/// where that is not part of the line's end, are what splitting gives back.
pub proof fn law_lines_terminated(parts: Seq<Seq<char>>, crlf: bool)
    requires
        forall|i: int|
            0 <= i < parts.len() ==> !sanitize::holds(#[trigger] parts[i], '\n') && (crlf
                || parts[i].len() == 0 || parts[i].last() != '\r'),
    ensures
        text::lines(terminated(parts, line_end(crlf))) == parts,
    decreases parts.len(),
{
    let end = line_end(crlf);
    let s = terminated(parts, end);
    if parts.len() == 0 {
        assert(text::lines(s) =~= parts);
    } else {
        let rest = parts.drop_first();
        let head = parts[0];
        lemma_terminated_front(parts, end);
        assert(!sanitize::holds(head, '\n'));
        let n = head.len() + end.len() - 1;
        assert(s[n] == '\n');
        assert forall|j: int| 0 <= j < n implies s[j] != '\n' by {
            if j < head.len() {
                assert(head[j] == s[j]);
            }
        }
        text::lemma_first_index_is(s, '\n', n);
        let line = s.subrange(0, n);
        if crlf {
            assert(line =~= head.push('\r'));
            assert(line.drop_last() =~= head);
        } else {
            assert(line =~= head);
        }
        assert(text::without_cr(line) == head);
        assert(s.subrange(n + 1, s.len() as int) =~= terminated(rest, end));
        assert forall|i: int| 0 <= i < rest.len() implies !sanitize::holds(
            #[trigger] rest[i],
            '\n',
        ) && (crlf || rest[i].len() == 0 || rest[i].last() != '\r') by {
            assert(rest[i] == parts[i + 1]);
        }
        law_lines_terminated(rest, crlf);
        assert(text::lines(s) =~= parts);
    }
}

/// A text that starts and ends with something other than white space.
pub open spec fn is_solid(s: Seq<char>) -> bool {
    s.len() > 0 && !text::is_white(s[0]) && !text::is_white(s.last())
}

/// Trimming a solid text changes nothing, with or without white space round
/// it.
pub proof fn law_trimmed(before: Seq<char>, s: Seq<char>, after: Seq<char>)
    requires
        is_solid(s),
        forall|i: int| 0 <= i < before.len() ==> text::is_white(#[trigger] before[i]),
        forall|i: int| 0 <= i < after.len() ==> text::is_white(#[trigger] after[i]),
    ensures
        text::trimmed(before + s + after) == s,
{
    lemma_trim_start(before, s + after);
    assert(before + s + after =~= before + (s + after));
    lemma_trim_end(s, after);
}

proof fn lemma_trim_start(before: Seq<char>, s: Seq<char>)
    requires
        s.len() > 0,
        !text::is_white(s[0]),
        forall|i: int| 0 <= i < before.len() ==> text::is_white(#[trigger] before[i]),
    ensures
        text::white_len(before + s) == before.len(),
        text::trim_start(before + s) == s,
    decreases before.len(),
{
    let t = before + s;
    if before.len() > 0 {
        let rest = before.drop_first();
        assert forall|i: int| 0 <= i < rest.len() implies text::is_white(#[trigger] rest[i]) by {
            assert(rest[i] == before[i + 1]);
        }
        lemma_trim_start(rest, s);
        assert(text::is_white(before[0]));
        assert(t.drop_first() =~= rest + s);
    } else {
        assert(t =~= s);
    }
    assert(t.subrange(before.len() as int, t.len() as int) =~= s);
}

proof fn lemma_trim_end(s: Seq<char>, after: Seq<char>)
    requires
        s.len() > 0,
        !text::is_white(s.last()),
        forall|i: int| 0 <= i < after.len() ==> text::is_white(#[trigger] after[i]),
    ensures
        text::trim_end(s + after) == s,
    decreases after.len(),
{
    let t = s + after;
    if after.len() > 0 {
        let rest = after.drop_last();
        assert forall|i: int| 0 <= i < rest.len() implies text::is_white(#[trigger] rest[i]) by {
            assert(rest[i] == after[i]);
        }
        lemma_trim_end(s, rest);
        assert(t.last() == after[after.len() - 1]);
        assert(t.drop_last() =~= s + rest);
    } else {
        assert(t =~= s);
    }
}

/// Joining puts the separator between neighbours and nowhere else.
pub proof fn law_joined(parts: Seq<Seq<char>>, last: Seq<char>, separator: Seq<char>)
    ensures
        joined(Seq::<Seq<char>>::empty(), separator).len() == 0,
        joined(seq![last], separator) == last,
        parts.len() > 0 ==> joined(parts.push(last), separator) == joined(parts, separator)
            + separator + last,
{
    if parts.len() > 0 {
        assert(parts.push(last).drop_last() =~= parts);
    }
}

/// A last line without a line feed is a line too, and keeps a carriage return
/// at its end.
pub proof fn law_unterminated_line(parts: Seq<Seq<char>>, last: Seq<char>, crlf: bool)
    requires
        forall|i: int|
            0 <= i < parts.len() ==> !(#[trigger] parts[i]).contains('\n') && (crlf
                || parts[i].len() == 0 || parts[i].last() != '\r'),
        last.len() > 0,
        !last.contains('\n'),
    ensures
        text::lines(terminated(parts, line_end(crlf)) + last) == parts.push(last),
    decreases parts.len(),
{
    let end = line_end(crlf);
    let s = terminated(parts, end) + last;
    if parts.len() == 0 {
        assert(s =~= last);
        text::lemma_first_index(s, '\n');
        let i = text::first_index(s, '\n');
        if i < s.len() {
            assert(last.contains(last[i]));
        }
        assert(text::lines(s) =~= parts.push(last));
    } else {
        let rest = parts.drop_first();
        let head = parts[0];
        lemma_terminated_front(parts, end);
        assert(!head.contains('\n'));
        let n = head.len() + end.len() - 1;
        assert(s[n] == '\n');
        assert forall|j: int| 0 <= j < n implies s[j] != '\n' by {
            if j < head.len() {
                assert(head[j] == s[j]);
                assert(head.contains(head[j]));
            }
        }
        text::lemma_first_index_is(s, '\n', n);
        let line = s.subrange(0, n);
        if crlf {
            assert(line =~= head.push('\r'));
            assert(line.drop_last() =~= head);
        } else {
            assert(line =~= head);
        }
        assert(text::without_cr(line) == head);
        assert(s.subrange(n + 1, s.len() as int) =~= terminated(rest, end) + last);
        assert forall|i: int| 0 <= i < rest.len() implies !(#[trigger] rest[i]).contains('\n') && (
        crlf || rest[i].len() == 0 || rest[i].last() != '\r') by {
            assert(rest[i] == parts[i + 1]);
        }
        law_unterminated_line(rest, last, crlf);
        assert(text::lines(s) =~= parts.push(last));
    }
}

/// A text of white space alone is trimmed to nothing.
pub proof fn law_blank_is_trimmed(s: Seq<char>)
    requires
        forall|i: int| 0 <= i < s.len() ==> text::is_white(#[trigger] s[i]),
    ensures
        text::trimmed(s).len() == 0,
{
    text::lemma_white_len(s);
    if text::white_len(s) < s.len() {
        assert(text::is_white(s[text::white_len(s)]));
    }
}

/// A text of white space alone has no words.
pub proof fn law_no_words(s: Seq<char>)
    requires
        forall|i: int| 0 <= i < s.len() ==> text::is_white(#[trigger] s[i]),
    ensures
        text::words(s).len() == 0,
{
    text::lemma_white_len(s);
    if text::white_len(s) < s.len() {
        assert(text::is_white(s[text::white_len(s)]));
    }
}

/// Splitting into words takes off the first run of characters that are not
/// white space, whatever white space stands before it, and goes on with what
/// is behind it.
pub proof fn law_first_word(before: Seq<char>, word: Seq<char>, rest: Seq<char>)
    requires
        forall|i: int| 0 <= i < before.len() ==> text::is_white(#[trigger] before[i]),
        word.len() > 0,
        forall|i: int| 0 <= i < word.len() ==> !text::is_white(#[trigger] word[i]),
        rest.len() == 0 || text::is_white(rest[0]),
    ensures
        text::words(before + word + rest) == seq![word] + text::words(rest),
{
    let s = before + word + rest;
    let t = word + rest;
    assert(s =~= before + t);
    assert(t[0] == word[0]);
    lemma_trim_start(before, t);
    assert(text::trim_start(s) == t);
    text::lemma_black_len(t);
    let n = text::black_len(t);
    if n < word.len() {
        assert(!text::is_white(word[n]));
        assert(t[n] == word[n]);
    }
    if n > word.len() {
        assert(t[word.len() as int] == rest[0]);
    }
    assert(t.subrange(0, n) =~= word);
    assert(t.subrange(n, t.len() as int) =~= rest);
}

/// Lines end with a line feed, after a carriage return where one is asked
/// for.
pub proof fn law_line_ends()
    ensures
        line_end(true) == seq!['\r', '\n'],
        line_end(false) == seq!['\n'],
{
    assert(line_end(true) =~= seq!['\r', '\n']);
    assert(line_end(false) =~= seq!['\n']);
}

/// Every line is followed by its end, and nothing else stands in the text.
pub proof fn law_terminated(lines: Seq<Seq<char>>, line: Seq<char>, end: Seq<char>)
    ensures
        terminated(seq![], end) == Seq::<char>::empty(),
        terminated(lines.push(line), end) == terminated(lines, end) + line + end,
{
    assert(lines.push(line).drop_last() =~= lines);
}

} // verus!
