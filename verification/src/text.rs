//! Text as sequences of characters: rendering of numbers, splitting,
//! trimming and decimal parsing.

use vstd::prelude::*;
use vstd::string::StringExecFns;

verus! {

// ---------------------------------------------------------------------
// Std functions that the library builds on

/// `String::push` appends one character to the end of the string.
pub assume_specification[ String::push ](s: &mut String, c: char)
    ensures
        final(s)@ == old(s)@.push(c),
;

// ---------------------------------------------------------------------
// Rendering of numbers

/// The character for one digit of base 10 or 16.
pub open spec fn digit(d: int) -> char {
    if d == 0 {
        '0'
    } else if d == 1 {
        '1'
    } else if d == 2 {
        '2'
    } else if d == 3 {
        '3'
    } else if d == 4 {
        '4'
    } else if d == 5 {
        '5'
    } else if d == 6 {
        '6'
    } else if d == 7 {
        '7'
    } else if d == 8 {
        '8'
    } else if d == 9 {
        '9'
    } else if d == 10 {
        'a'
    } else if d == 11 {
        'b'
    } else if d == 12 {
        'c'
    } else if d == 13 {
        'd'
    } else if d == 14 {
        'e'
    } else {
        'f'
    }
}

/// `n` in decimal, without leading zeros.
pub open spec fn dec(n: nat) -> Seq<char>
    decreases n,
{
    if n < 10 {
        seq![digit(n as int)]
    } else {
        dec(n / 10).push(digit((n % 10) as int))
    }
}

/// `n` in lowercase hexadecimal, without leading zeros.
pub open spec fn hex(n: nat) -> Seq<char>
    decreases n,
{
    if n < 16 {
        seq![digit(n as int)]
    } else {
        hex(n / 16).push(digit((n % 16) as int))
    }
}

/// One byte as two lowercase hexadecimal digits.
pub open spec fn hex2(b: u8) -> Seq<char> {
    seq![digit(b as int / 16), digit(b as int % 16)]
}

/// `n` in decimal, padded with zeros to at least three digits.
pub open spec fn dec3(n: nat) -> Seq<char> {
    if n < 10 {
        "00"@ + dec(n)
    } else if n < 100 {
        "0"@ + dec(n)
    } else {
        dec(n)
    }
}

pub fn digit_char(d: u8) -> (c: char)
    requires
        d < 16,
    ensures
        c == digit(d as int),
{
    match d {
        0 => '0',
        1 => '1',
        2 => '2',
        3 => '3',
        4 => '4',
        5 => '5',
        6 => '6',
        7 => '7',
        8 => '8',
        9 => '9',
        10 => 'a',
        11 => 'b',
        12 => 'c',
        13 => 'd',
        14 => 'e',
        _ => 'f',
    }
}

pub fn dec_text(n: u64) -> (s: String)
    ensures
        s@ == dec(n as nat),
    decreases n,
{
    if n < 10 {
        let mut s = String::new();
        s.push(digit_char(n as u8));
        assert(s@ =~= dec(n as nat));
        s
    } else {
        let mut s = dec_text(n / 10);
        s.push(digit_char((n % 10) as u8));
        s
    }
}

pub fn hex_text(n: u64) -> (s: String)
    ensures
        s@ == hex(n as nat),
    decreases n,
{
    if n < 16 {
        let mut s = String::new();
        s.push(digit_char(n as u8));
        assert(s@ =~= hex(n as nat));
        s
    } else {
        let mut s = hex_text(n / 16);
        s.push(digit_char((n % 16) as u8));
        s
    }
}

pub fn hex2_text(b: u8) -> (s: String)
    ensures
        s@ == hex2(b),
{
    let mut s = String::new();
    s.push(digit_char(b / 16));
    s.push(digit_char(b % 16));
    assert(s@ =~= hex2(b));
    s
}

pub fn dec3_text(n: u64) -> (s: String)
    ensures
        s@ == dec3(n as nat),
{
    let d = dec_text(n);
    if n < 10 {
        cat2("00", d.as_str())
    } else if n < 100 {
        cat2("0", d.as_str())
    } else {
        d
    }
}

// ---------------------------------------------------------------------
// Concatenation

pub fn cat2(a: &str, b: &str) -> (s: String)
    ensures
        s@ == a@ + b@,
{
    let mut s = a.to_owned();
    s.append(b);
    s
}

pub fn cat3(a: &str, b: &str, c: &str) -> (s: String)
    ensures
        s@ == a@ + b@ + c@,
{
    let mut s = a.to_owned();
    s.append(b);
    s.append(c);
    s
}

pub fn cat4(a: &str, b: &str, c: &str, d: &str) -> (s: String)
    ensures
        s@ == a@ + b@ + c@ + d@,
{
    let mut s = a.to_owned();
    s.append(b);
    s.append(c);
    s.append(d);
    s
}

// ---------------------------------------------------------------------
// Splitting and trimming

/// Unicode's `White_Space` property.
pub open spec fn is_white(c: char) -> bool {
    let n = c as u32;
    ||| 0x9 <= n <= 0xd
    ||| n == 0x20
    ||| n == 0x85
    ||| n == 0xa0
    ||| n == 0x1680
    ||| 0x2000 <= n <= 0x200a
    ||| n == 0x2028
    ||| n == 0x2029
    ||| n == 0x202f
    ||| n == 0x205f
    ||| n == 0x3000
}

/// The position of the first `c` in `s`, or the length of `s`.
pub open spec fn first_index(s: Seq<char>, c: char) -> int
    decreases s.len(),
{
    if s.len() == 0 || s[0] == c {
        0
    } else {
        1 + first_index(s.drop_first(), c)
    }
}

/// The position of the last `c` in `s`, or -1.
pub open spec fn last_index(s: Seq<char>, c: char) -> int
    decreases s.len(),
{
    if s.len() == 0 {
        -1
    } else if s.last() == c {
        s.len() - 1
    } else {
        last_index(s.drop_last(), c)
    }
}

/// The parts of `s` between the occurrences of `c`.
pub open spec fn fields(s: Seq<char>, c: char) -> Seq<Seq<char>>
    decreases s.len(),
{
    proof {
        lemma_first_index(s, c);
    }
    let i = first_index(s, c);
    if i < s.len() {
        seq![s.subrange(0, i)] + fields(s.subrange(i + 1, s.len() as int), c)
    } else {
        seq![s]
    }
}

/// `s` without one trailing carriage return.
pub open spec fn without_cr(s: Seq<char>) -> Seq<char> {
    if s.len() > 0 && s.last() == '\r' {
        s.drop_last()
    } else {
        s
    }
}

/// The lines of `s`: each ends in a line feed, optionally preceded by a
/// carriage return, or at the end of the text.
pub open spec fn lines(s: Seq<char>) -> Seq<Seq<char>>
    decreases s.len(),
{
    proof {
        lemma_first_index(s, '\n');
    }
    let i = first_index(s, '\n');
    if s.len() == 0 {
        seq![]
    } else if i < s.len() {
        seq![without_cr(s.subrange(0, i))] + lines(s.subrange(i + 1, s.len() as int))
    } else {
        seq![s]
    }
}

/// The number of leading characters of `s` that are white space.
pub open spec fn white_len(s: Seq<char>) -> int
    decreases s.len(),
{
    if s.len() > 0 && is_white(s[0]) {
        1 + white_len(s.drop_first())
    } else {
        0
    }
}

/// The number of leading characters of `s` that are not white space.
pub open spec fn black_len(s: Seq<char>) -> int
    decreases s.len(),
{
    if s.len() > 0 && !is_white(s[0]) {
        1 + black_len(s.drop_first())
    } else {
        0
    }
}

/// `s` without trailing white space.
pub open spec fn trim_end(s: Seq<char>) -> Seq<char>
    decreases s.len(),
{
    if s.len() > 0 && is_white(s.last()) {
        trim_end(s.drop_last())
    } else {
        s
    }
}

/// `s` without leading white space.
pub open spec fn trim_start(s: Seq<char>) -> Seq<char> {
    s.subrange(white_len(s), s.len() as int)
}

/// `s` without leading and trailing white space.
pub open spec fn trimmed(s: Seq<char>) -> Seq<char> {
    trim_end(trim_start(s))
}

/// The maximal runs of characters of `s` that are not white space.
pub open spec fn words(s: Seq<char>) -> Seq<Seq<char>>
    decreases s.len(),
{
    proof {
        lemma_white_len(s);
        lemma_black_len(trim_start(s));
    }
    let t = trim_start(s);
    let n = black_len(t);
    if t.len() == 0 {
        seq![]
    } else {
        seq![t.subrange(0, n)] + words(t.subrange(n, t.len() as int))
    }
}

/// Slices of characters, taken by their views.
pub open spec fn views(v: Seq<&[char]>) -> Seq<Seq<char>> {
    Seq::new(v.len(), |i: int| v[i]@)
}

/// Strings, taken by their views.
pub open spec fn texts(v: Seq<String>) -> Seq<Seq<char>> {
    Seq::new(v.len(), |i: int| v[i]@)
}

pub proof fn lemma_first_index(s: Seq<char>, c: char)
    ensures
        0 <= first_index(s, c) <= s.len(),
        forall|j: int| 0 <= j < first_index(s, c) ==> s[j] != c,
        first_index(s, c) < s.len() ==> s[first_index(s, c)] == c,
    decreases s.len(),
{
    if s.len() > 0 && s[0] != c {
        let t = s.drop_first();
        lemma_first_index(t, c);
        assert forall|j: int| 0 <= j < first_index(s, c) implies s[j] != c by {
            if j > 0 {
                assert(t[j - 1] == s[j]);
            }
        }
    }
}

/// The first occurrence is the only index that is an occurrence with none
/// before it.
pub proof fn lemma_first_index_is(s: Seq<char>, c: char, i: int)
    requires
        0 <= i <= s.len(),
        forall|j: int| 0 <= j < i ==> s[j] != c,
        i < s.len() ==> s[i] == c,
    ensures
        first_index(s, c) == i,
{
    lemma_first_index(s, c);
}

pub proof fn lemma_last_index(s: Seq<char>, c: char)
    ensures
        -1 <= last_index(s, c) < s.len(),
        forall|j: int| last_index(s, c) < j < s.len() ==> s[j] != c,
        last_index(s, c) >= 0 ==> s[last_index(s, c)] == c,
    decreases s.len(),
{
    if s.len() > 0 && s.last() != c {
        let t = s.drop_last();
        lemma_last_index(t, c);
        assert forall|j: int| last_index(s, c) < j < s.len() implies s[j] != c by {
            if j < t.len() {
                assert(t[j] == s[j]);
            }
        }
    }
}

pub proof fn lemma_white_len(s: Seq<char>)
    ensures
        0 <= white_len(s) <= s.len(),
        forall|j: int| 0 <= j < white_len(s) ==> is_white(s[j]),
        white_len(s) < s.len() ==> !is_white(s[white_len(s)]),
    decreases s.len(),
{
    if s.len() > 0 && is_white(s[0]) {
        let t = s.drop_first();
        lemma_white_len(t);
        assert forall|j: int| 0 <= j < white_len(s) implies is_white(s[j]) by {
            if j > 0 {
                assert(t[j - 1] == s[j]);
            }
        }
    }
}

pub proof fn lemma_black_len(s: Seq<char>)
    ensures
        0 <= black_len(s) <= s.len(),
        forall|j: int| 0 <= j < black_len(s) ==> !is_white(s[j]),
        black_len(s) < s.len() ==> is_white(s[black_len(s)]),
        s.len() > 0 && !is_white(s[0]) ==> black_len(s) > 0,
    decreases s.len(),
{
    if s.len() > 0 && !is_white(s[0]) {
        let t = s.drop_first();
        lemma_black_len(t);
        assert forall|j: int| 0 <= j < black_len(s) implies !is_white(s[j]) by {
            if j > 0 {
                assert(t[j - 1] == s[j]);
            }
        }
    }
}

/// The characters of a string.
pub fn chars_of(s: &str) -> (v: Vec<char>)
    ensures
        v@ == s@,
{
    let mut v: Vec<char> = Vec::new();
    for c in it: s.chars()
        invariant
            v@ == it.seq().take(it.index()),
            it.seq() == s@,
    {
        v.push(c);
        assert(v@ =~= it.seq().take(it.index() + 1));
    }
    assert(v@ =~= s@);
    v
}

/// The string made of the given characters.
pub fn string_of(v: &[char]) -> (s: String)
    ensures
        s@ == v@,
{
    let mut s = String::new();
    let mut i: usize = 0;
    while i < v.len()
        invariant
            0 <= i <= v@.len(),
            s@ == v@.subrange(0, i as int),
        decreases v@.len() - i,
    {
        s.push(v[i]);
        i += 1;
        assert(v@.subrange(0, i as int) =~= v@.subrange(0, i - 1).push(v@[i - 1]));
    }
    assert(v@.subrange(0, i as int) =~= v@);
    s
}

pub fn is_white_char(c: char) -> (b: bool)
    ensures
        b == is_white(c),
{
    let n: u32 = c as u32;
    (0x9 <= n && n <= 0xd) || n == 0x20 || n == 0x85 || n == 0xa0 || n == 0x1680 || (0x2000 <= n
        && n <= 0x200a) || n == 0x2028 || n == 0x2029 || n == 0x202f || n == 0x205f || n == 0x3000
}

pub fn find_char(s: &[char], c: char) -> (i: usize)
    ensures
        i == first_index(s@, c),
{
    let mut i: usize = 0;
    while i < s.len() && s[i] != c
        invariant
            0 <= i <= s@.len(),
            forall|j: int| 0 <= j < i ==> s@[j] != c,
        decreases s@.len() - i,
    {
        i += 1;
    }
    proof {
        lemma_first_index_is(s@, c, i as int);
    }
    i
}

/// The position of the last `c` in `s`, if there is one.
pub fn rfind_char(s: &[char], c: char) -> (i: Option<usize>)
    ensures
        match i {
            Some(i) => i == last_index(s@, c),
            None => last_index(s@, c) == -1,
        },
{
    proof {
        lemma_last_index(s@, c);
    }
    let mut n: usize = s.len();
    while n > 0
        invariant
            0 <= n <= s@.len(),
            forall|j: int| n <= j < s@.len() ==> s@[j] != c,
            -1 <= last_index(s@, c) < s@.len(),
            last_index(s@, c) >= 0 ==> s@[last_index(s@, c)] == c,
            forall|j: int| last_index(s@, c) < j < s@.len() ==> s@[j] != c,
        decreases n,
    {
        if s[n - 1] == c {
            return Some(n - 1);
        }
        n -= 1;
    }
    None
}

pub fn cut<'a>(s: &'a [char], from: usize, to: usize) -> (r: &'a [char])
    requires
        from <= to <= s@.len(),
    ensures
        r@ == s@.subrange(from as int, to as int),
{
    vstd::slice::slice_subrange(s, from, to)
}

pub fn split_fields<'a>(s: &'a [char], c: char) -> (out: Vec<&'a [char]>)
    ensures
        views(out@) == fields(s@, c),
{
    let mut out: Vec<&'a [char]> = Vec::new();
    let mut rest: &'a [char] = s;
    assert(views(out@) =~= seq![]);
    assert(views(out@) + fields(rest@, c) =~= fields(s@, c));
    loop
        invariant
            views(out@) + fields(rest@, c) == fields(s@, c),
        decreases rest@.len(),
    {
        let ghost before = out@;
        let i = find_char(rest, c);
        proof {
            lemma_first_index(rest@, c);
        }
        if i < rest.len() {
            let head = cut(rest, 0, i);
            let tail = cut(rest, i + 1, rest.len());
            out.push(head);
            assert(views(out@) =~= views(before).push(head@));
            assert(views(out@) + fields(tail@, c) =~= views(before) + (seq![head@] + fields(
                tail@,
                c,
            )));
            rest = tail;
        } else {
            out.push(rest);
            assert(views(out@) =~= views(before) + seq![rest@]);
            return out;
        }
    }
}

pub fn split_lines<'a>(s: &'a [char]) -> (out: Vec<&'a [char]>)
    ensures
        views(out@) == lines(s@),
{
    let mut out: Vec<&'a [char]> = Vec::new();
    let mut rest: &'a [char] = s;
    assert(views(out@) =~= seq![]);
    assert(views(out@) + lines(rest@) =~= lines(s@));
    while rest.len() > 0
        invariant
            views(out@) + lines(rest@) == lines(s@),
        decreases rest@.len(),
    {
        let ghost before = out@;
        let i = find_char(rest, '\n');
        proof {
            lemma_first_index(rest@, '\n');
        }
        if i < rest.len() {
            let whole = cut(rest, 0, i);
            let tail = cut(rest, i + 1, rest.len());
            let head = if i > 0 && whole[i - 1] == '\r' {
                cut(whole, 0, i - 1)
            } else {
                whole
            };
            assert(head@ =~= without_cr(whole@));
            out.push(head);
            assert(views(out@) =~= views(before).push(head@));
            assert(views(out@) + lines(tail@) =~= views(before) + (seq![head@] + lines(tail@)));
            rest = tail;
        } else {
            let tail = cut(rest, i, i);
            out.push(rest);
            assert(views(out@) =~= views(before).push(rest@));
            assert(lines(rest@) =~= seq![rest@]);
            assert(lines(tail@) =~= seq![]);
            assert(views(out@) + lines(tail@) =~= views(before) + lines(rest@));
            rest = tail;
        }
    }
    assert(lines(rest@) =~= seq![]);
    assert(views(out@) + lines(rest@) =~= views(out@));
    out
}

pub fn white_run(s: &[char]) -> (n: usize)
    ensures
        n == white_len(s@),
{
    let mut n: usize = 0;
    proof {
        lemma_white_len(s@);
    }
    while n < s.len() && is_white_char(s[n])
        invariant
            0 <= n <= white_len(s@) <= s@.len(),
            white_len(s@) < s@.len() ==> !is_white(s@[white_len(s@)]),
            forall|j: int| 0 <= j < white_len(s@) ==> is_white(s@[j]),
        decreases s@.len() - n,
    {
        n += 1;
    }
    n
}

pub fn black_run(s: &[char]) -> (n: usize)
    ensures
        n == black_len(s@),
{
    let mut n: usize = 0;
    proof {
        lemma_black_len(s@);
    }
    while n < s.len() && !is_white_char(s[n])
        invariant
            0 <= n <= black_len(s@) <= s@.len(),
            black_len(s@) < s@.len() ==> is_white(s@[black_len(s@)]),
            forall|j: int| 0 <= j < black_len(s@) ==> !is_white(s@[j]),
        decreases s@.len() - n,
    {
        n += 1;
    }
    n
}

pub fn trim<'a>(s: &'a [char]) -> (r: &'a [char])
    ensures
        r@ == trimmed(s@),
{
    proof {
        lemma_white_len(s@);
    }
    let start = cut(s, white_run(s), s.len());
    let mut n: usize = start.len();
    assert(start@.subrange(0, n as int) =~= start@);
    while n > 0 && is_white_char(start[n - 1])
        invariant
            0 <= n <= start@.len(),
            trim_end(start@.subrange(0, n as int)) == trim_end(start@),
        decreases n,
    {
        n -= 1;
        assert(start@.subrange(0, n + 1).drop_last() =~= start@.subrange(0, n as int));
    }
    let r = cut(start, 0, n);
    r
}

pub fn split_words<'a>(s: &'a [char]) -> (out: Vec<&'a [char]>)
    ensures
        views(out@) == words(s@),
{
    let mut out: Vec<&'a [char]> = Vec::new();
    let mut rest: &'a [char] = s;
    assert(views(out@) =~= seq![]);
    assert(views(out@) + words(rest@) =~= words(s@));
    loop
        invariant
            views(out@) + words(rest@) == words(s@),
        decreases rest@.len(),
    {
        let ghost before = out@;
        proof {
            lemma_white_len(rest@);
            lemma_black_len(trim_start(rest@));
        }
        let t = cut(rest, white_run(rest), rest.len());
        if t.len() == 0 {
            assert(words(rest@) =~= seq![]);
            assert(views(out@) + words(rest@) =~= views(out@));
            return out;
        }
        let n = black_run(t);
        let head = cut(t, 0, n);
        let tail = cut(t, n, t.len());
        out.push(head);
        assert(views(out@) =~= views(before).push(head@));
        assert(views(out@) + words(tail@) =~= views(before) + (seq![head@] + words(tail@)));
        rest = tail;
    }
}

// ---------------------------------------------------------------------
// Comparison

pub fn same_bytes(a: &[u8], b: &[u8]) -> (r: bool)
    ensures
        r == (a@ == b@),
{
    if a.len() != b.len() {
        return false;
    }
    let mut i: usize = 0;
    while i < a.len()
        invariant
            0 <= i <= a@.len() == b@.len(),
            forall|j: int| 0 <= j < i ==> a@[j] == b@[j],
        decreases a@.len() - i,
    {
        if a[i] != b[i] {
            return false;
        }
        i += 1;
    }
    assert(a@ =~= b@);
    true
}

pub fn same_chars(a: &[char], b: &[char]) -> (r: bool)
    ensures
        r == (a@ == b@),
{
    if a.len() != b.len() {
        return false;
    }
    let mut i: usize = 0;
    while i < a.len()
        invariant
            0 <= i <= a@.len() == b@.len(),
            forall|j: int| 0 <= j < i ==> a@[j] == b@[j],
        decreases a@.len() - i,
    {
        if a[i] != b[i] {
            return false;
        }
        i += 1;
    }
    assert(a@ =~= b@);
    true
}

pub fn same_text(a: &str, b: &str) -> (r: bool)
    ensures
        r == (a@ == b@),
{
    proof {
        vstd::utf8::encode_utf8_decode_utf8(a@);
        vstd::utf8::encode_utf8_decode_utf8(b@);
    }
    same_bytes(a.as_bytes(), b.as_bytes())
}

/// The lowercase form of an ASCII letter; any other character unchanged.
pub open spec fn ascii_lower(c: char) -> char {
    if 'A' <= c <= 'Z' {
        (c as u32 + 32) as char
    } else {
        c
    }
}

/// Every ASCII letter of `s` in lowercase.
pub open spec fn ascii_lowered(s: Seq<char>) -> Seq<char> {
    Seq::new(s.len(), |i: int| ascii_lower(s[i]))
}

pub fn ascii_lower_char(c: char) -> (r: char)
    ensures
        r == ascii_lower(c),
{
    match c {
        'A' => 'a',
        'B' => 'b',
        'C' => 'c',
        'D' => 'd',
        'E' => 'e',
        'F' => 'f',
        'G' => 'g',
        'H' => 'h',
        'I' => 'i',
        'J' => 'j',
        'K' => 'k',
        'L' => 'l',
        'M' => 'm',
        'N' => 'n',
        'O' => 'o',
        'P' => 'p',
        'Q' => 'q',
        'R' => 'r',
        'S' => 's',
        'T' => 't',
        'U' => 'u',
        'V' => 'v',
        'W' => 'w',
        'X' => 'x',
        'Y' => 'y',
        'Z' => 'z',
        _ => c,
    }
}

// ---------------------------------------------------------------------
// Decimal parsing

pub open spec fn is_digit(c: char) -> bool {
    '0' <= c <= '9'
}

pub open spec fn all_digits(s: Seq<char>) -> bool {
    forall|i: int| 0 <= i < s.len() ==> is_digit(#[trigger] s[i])
}

/// The number that a run of decimal digits denotes.
pub open spec fn digits_value(s: Seq<char>) -> nat
    decreases s.len(),
{
    if s.len() == 0 {
        0
    } else {
        (digits_value(s.drop_last()) * 10 + (s.last() as u32 - '0' as u32)) as nat
    }
}

/// `s` without one leading plus sign.
pub open spec fn without_plus(s: Seq<char>) -> Seq<char> {
    if s.len() > 0 && s[0] == '+' {
        s.drop_first()
    } else {
        s
    }
}

/// The unsigned decimal number that `s` spells, where it is at most `max`.
pub open spec fn number(s: Seq<char>, max: nat) -> Option<nat> {
    let d = without_plus(s);
    if d.len() > 0 && all_digits(d) && digits_value(d) <= max {
        Some(digits_value(d))
    } else {
        None
    }
}

proof fn lemma_digits_grow(s: Seq<char>, i: int)
    requires
        0 <= i <= s.len(),
        all_digits(s),
    ensures
        digits_value(s.subrange(0, i)) <= digits_value(s),
    decreases s.len(),
{
    if i == s.len() {
        assert(s.subrange(0, i) =~= s);
    } else {
        let t = s.drop_last();
        assert(s.subrange(0, i) =~= t.subrange(0, i));
        lemma_digits_grow(t, i);
        assert(is_digit(s.last()));
    }
}

pub fn parse_number(s: &[char], max: u64) -> (r: Option<u64>)
    ensures
        match r {
            Some(v) => number(s@, max as nat) == Some(v as nat),
            None => number(s@, max as nat) is None,
        },
{
    let d = if s.len() > 0 && s[0] == '+' {
        cut(s, 1, s.len())
    } else {
        s
    };
    assert(d@ =~= without_plus(s@));
    if d.len() == 0 {
        return None;
    }
    let mut value: u64 = 0;
    let mut i: usize = 0;
    assert(d@.subrange(0, 0) =~= seq![]);
    while i < d.len()
        invariant
            0 <= i <= d@.len(),
            d@ == without_plus(s@),
            value == digits_value(d@.subrange(0, i as int)),
            value <= max,
            all_digits(d@.subrange(0, i as int)),
        decreases d@.len() - i,
    {
        let c = d[i];
        let ghost head = d@.subrange(0, i as int);
        let ghost next = d@.subrange(0, i + 1);
        assert(next.drop_last() =~= head);
        if c < '0' || c > '9' {
            assert(!is_digit(d@[i as int]));
            return None;
        }
        let step: u128 = value as u128 * 10 + (c as u32 - '0' as u32) as u128;
        assert(step == digits_value(next));
        if step > max as u128 {
            proof {
                if all_digits(d@) {
                    lemma_digits_grow(d@, i + 1);
                }
            }
            return None;
        }
        value = step as u64;
        i += 1;
        assert(all_digits(next)) by {
            assert forall|j: int| 0 <= j < next.len() implies is_digit(#[trigger] next[j]) by {
                if j < head.len() {
                    assert(head[j] == next[j]);
                }
            }
        }
    }
    assert(d@.subrange(0, i as int) =~= d@);
    Some(value)
}

// ---------------------------------------------------------------------
// Text from bytes

/// The text of `data`, with every malformed part replaced by U+FFFD.
pub uninterp spec fn utf8_lossy(data: Seq<u8>) -> Seq<char>;

/// The text with quotes and escapes, as a debugging output shows it.
pub uninterp spec fn quoted(s: Seq<char>) -> Seq<char>;

/// The text in lowercase, as Unicode defines it.
pub uninterp spec fn lowercase(s: Seq<char>) -> Seq<char>;

/// `str::to_lowercase` gives a text that depends on the characters alone; of
/// an ASCII text it changes the letters `A` to `Z` and nothing else.
#[verifier::external_body]
pub(crate) fn lowercase_text(s: &str) -> (r: String)
    ensures
        r@ == lowercase(s@),
        vstd::utf8::is_ascii_chars(s@) ==> r@ == ascii_lowered(s@),
{
    s.to_lowercase()
}

/// `std::str::from_utf8` succeeds exactly on valid UTF-8, and gives the
/// characters that the bytes encode.
#[verifier::external_body]
pub(crate) fn utf8_text(data: &[u8]) -> (r: Option<&str>)
    ensures
        match r {
            Some(s) => vstd::utf8::valid_utf8(data@) && s@ == vstd::utf8::decode_utf8(data@),
            None => !vstd::utf8::valid_utf8(data@),
        },
{
    std::str::from_utf8(data).ok()
}

/// `String::from_utf8_lossy` gives a text that depends on the bytes alone;
/// on valid UTF-8 it is the text that the bytes encode.
#[verifier::external_body]
pub(crate) fn lossy_text(data: &[u8]) -> (s: String)
    ensures
        s@ == utf8_lossy(data@),
        vstd::utf8::valid_utf8(data@) ==> s@ == vstd::utf8::decode_utf8(data@),
{
    String::from_utf8_lossy(data).into_owned()
}

/// The `Debug` rendering of a string slice, as `{:?}` formats it, depends on
/// its characters alone.
#[verifier::external_body]
pub(crate) fn quoted_text(s: &str) -> (r: String)
    ensures
        r@ == quoted(s@),
{
    format!("{s:?}")
}

/// A copy of a list of strings.
pub fn copy_texts(v: &Vec<String>) -> (out: Vec<String>)
    ensures
        texts(out@) == texts(v@),
{
    let ghost all = texts(v@);
    let mut out: Vec<String> = Vec::new();
    let mut i: usize = 0;
    assert(texts(out@) =~= all.subrange(0, 0));
    while i < v.len()
        invariant
            0 <= i <= v@.len(),
            all == texts(v@),
            texts(out@) == all.subrange(0, i as int),
        decreases v@.len() - i,
    {
        let ghost before = texts(out@);
        out.push(v[i].as_str().to_owned());
        assert(texts(out@) =~= before.push(all[i as int]));
        i += 1;
        assert(texts(out@) =~= all.subrange(0, i as int));
    }
    assert(all.subrange(0, i as int) =~= all);
    out
}

/// `needle` occurs in `s`.
pub open spec fn occurs(s: Seq<char>, needle: Seq<char>) -> bool {
    exists|i: int| #[trigger] occurs_at(s, needle, i)
}

/// `needle` occurs in `s` at position `i`.
pub open spec fn occurs_at(s: Seq<char>, needle: Seq<char>, i: int) -> bool {
    0 <= i <= s.len() - needle.len() && s.subrange(i, i + needle.len()) == needle
}

/// Whether `needle` occurs in `s`.
pub fn contains_chars(s: &[char], needle: &[char]) -> (b: bool)
    ensures
        b == occurs(s@, needle@),
{
    let total: usize = s.len();
    let width: usize = needle.len();
    if width > total {
        return false;
    }
    let mut i: usize = 0;
    while i <= total - width
        invariant
            total == s@.len(),
            width == needle@.len(),
            width <= total,
            0 <= i <= total - width + 1,
            forall|j: int| 0 <= j < i ==> !occurs_at(s@, needle@, j),
        decreases total - i,
    {
        if same_chars(cut(s, i, i + width), needle) {
            assert(occurs_at(s@, needle@, i as int));
            return true;
        }
        if i == total - width {
            assert(forall|j: int| 0 <= j <= i ==> !occurs_at(s@, needle@, j));
            return false;
        }
        i += 1;
    }
    false
}

// ---------------------------------------------------------------------
// Laws

/// `s` spells `n` in the given base: every character is a digit of the base,
/// with lowercase letters for the digits from ten on, and the digits add up
/// to `n`, the last one weighing least.
pub open spec fn spells(s: Seq<char>, n: nat, base: nat) -> bool
    decreases s.len(),
{
    if s.len() == 0 {
        n == 0
    } else {
        let c = s.last() as int;
        let d = if c < 0x61 {
            c - 0x30
        } else {
            c - 0x61 + 10
        };
        &&& 0x30 <= c <= 0x39 || 0x61 <= c <= 0x66
        &&& 0 <= d < base
        &&& n % base == d
        &&& spells(s.drop_last(), n / base, base)
    }
}

/// A decimal rendering spells its number and has no needless zero in front.
pub proof fn law_decimal(n: nat)
    ensures
        spells(dec(n), n, 10),
        dec(n).len() > 0,
        dec(n)[0] == '0' ==> n == 0 && dec(n).len() == 1,
        n < 10 <==> dec(n).len() == 1,
        n < 100 <==> dec(n).len() <= 2,
        n < 1000 <==> dec(n).len() <= 3,
    decreases n,
{
    if n >= 10 {
        law_decimal(n / 10);
        assert(dec(n).drop_last() =~= dec(n / 10));
    } else {
        assert(dec(n).drop_last() =~= seq![]);
        assert(spells(dec(n).drop_last(), n / 10, 10));
    }
}

/// A hexadecimal rendering spells its number and has no needless zero in
/// front.
pub proof fn law_hexadecimal(n: nat)
    ensures
        spells(hex(n), n, 16),
        hex(n).len() > 0,
        hex(n)[0] == '0' ==> n == 0 && hex(n).len() == 1,
    decreases n,
{
    if n >= 16 {
        law_hexadecimal(n / 16);
        assert(hex(n).drop_last() =~= hex(n / 16));
    } else {
        assert(hex(n).drop_last() =~= seq![]);
        assert(spells(hex(n).drop_last(), n / 16, 16));
    }
}

/// A byte is rendered as two digits that spell it.
pub proof fn law_hex_byte(b: u8)
    ensures
        spells(hex2(b), b as nat, 16),
        hex2(b).len() == 2,
{
    let s = hex2(b);
    let t = s.drop_last();
    assert(t.drop_last() =~= seq![]);
    assert(spells(t.drop_last(), (b as nat / 16) / 16, 16));
    assert(t.last() == digit(b as int / 16));
    assert(spells(t, b as nat / 16, 16));
}

/// A number padded to three digits has at least three, spells the number, and
/// is the plain rendering where that has three.
pub proof fn law_three_digits(n: nat)
    ensures
        dec3(n).len() >= 3,
        spells(dec3(n), n, 10),
        n >= 100 ==> dec3(n) == dec(n),
        n < 1000 ==> dec3(n).len() == 3,
{
    law_decimal(n);
    reveal_strlit("0");
    reveal_strlit("00");
    if n < 100 {
        lemma_leading_zeros(dec(n), n, if n < 10 {
            "00"@
        } else {
            "0"@
        });
    }
}

proof fn lemma_leading_zeros(s: Seq<char>, n: nat, zeros: Seq<char>)
    requires
        spells(s, n, 10),
        forall|i: int| 0 <= i < zeros.len() ==> #[trigger] zeros[i] == '0',
    ensures
        spells(zeros + s, n, 10),
    decreases zeros.len() + s.len(),
{
    let t = zeros + s;
    if s.len() > 0 {
        lemma_leading_zeros(s.drop_last(), n / 10, zeros);
        assert(t.drop_last() =~= zeros + s.drop_last());
    } else if zeros.len() > 0 {
        let fewer = zeros.drop_last();
        assert forall|i: int| 0 <= i < fewer.len() implies #[trigger] fewer[i] == '0' by {
            assert(fewer[i] == zeros[i]);
        }
        lemma_leading_zeros(s, 0, fewer);
        assert(t.drop_last() =~= fewer + s);
        assert(t.last() == zeros[zeros.len() - 1]);
    } else {
        assert(t =~= s);
    }
}

/// Reading a decimal number gives the number that was rendered, with or
/// without a plus sign in front, unless it is beyond the limit.
pub proof fn law_number_is_read_back(n: nat, max: nat)
    ensures
        number(dec(n), max) == (if n <= max {
            Some(n)
        } else {
            None
        }),
        number(seq!['+'] + dec(n), max) == number(dec(n), max),
{
    lemma_dec_digits(n);
    law_decimal(n);
    assert(is_digit(dec(n)[0]));
    assert(without_plus(dec(n)) == dec(n));
    let signed = seq!['+'] + dec(n);
    assert(signed.drop_first() =~= dec(n));
    assert(without_plus(signed) == dec(n));
}

proof fn lemma_dec_digits(n: nat)
    ensures
        all_digits(dec(n)),
        digits_value(dec(n)) == n,
    decreases n,
{
    let s = dec(n);
    if n >= 10 {
        lemma_dec_digits(n / 10);
        assert(s.drop_last() =~= dec(n / 10));
        assert forall|i: int| 0 <= i < s.len() implies is_digit(#[trigger] s[i]) by {
            if i < s.len() - 1 {
                assert(dec(n / 10)[i] == s[i]);
            }
        }
    } else {
        assert(s.drop_last() =~= seq![]);
        assert(digits_value(s.drop_last()) == 0);
    }
}

/// What is read as a decimal number spells that number in digits alone, one
/// plus sign aside; nothing else is read as a number.
pub proof fn law_number_is_spelled(s: Seq<char>, max: nat)
    ensures
        number(s, max) matches Some(n) ==> n <= max && (spells(s, n, 10) && s.len() > 0 || (s.len()
            > 1 && s[0] == '+' && spells(s.subrange(1, s.len() as int), n, 10))),
{
    if number(s, max) is Some {
        let d = without_plus(s);
        lemma_digits_spell(d);
        if s[0] == '+' {
            assert(d =~= s.subrange(1, s.len() as int));
        }
    }
}

proof fn lemma_digits_spell(s: Seq<char>)
    requires
        all_digits(s),
    ensures
        spells(s, digits_value(s), 10),
    decreases s.len(),
{
    if s.len() > 0 {
        let init = s.drop_last();
        assert forall|i: int| 0 <= i < init.len() implies is_digit(#[trigger] init[i]) by {
            assert(init[i] == s[i]);
        }
        lemma_digits_spell(init);
        assert(is_digit(s[s.len() - 1]));
    }
}

/// Only the ASCII capitals have another lowercase form, the letter 32 places
/// on.
pub proof fn law_ascii_lower(c: char)
    ensures
        0x41 <= c as int <= 0x5a ==> ascii_lower(c) as int == c as int + 32,
        !(0x41 <= c as int <= 0x5a) ==> ascii_lower(c) == c,
{
}

/// White space is what Unicode lists as such: the ASCII blanks and controls,
/// the next-line control, and the spaces and separators beyond ASCII.
pub proof fn law_white_space(c: char)
    ensures
        c as int <= 0x7f ==> is_white(c) == (c == ' ' || 9 <= c as int <= 13),
        0x80 <= c as int <= 0x167f ==> is_white(c) == (c as int == 0x85 || c as int == 0xa0),
        0x1680 <= c as int ==> is_white(c) == (c as int == 0x1680 || 0x2000 <= c as int <= 0x200a
            || c as int == 0x2028 || c as int == 0x2029 || c as int == 0x202f || c as int == 0x205f
            || c as int == 0x3000),
{
}

/// A text occurs in another exactly where the other is something before it,
/// the text, and something behind it.
pub proof fn law_occurs(s: Seq<char>, needle: Seq<char>, before: Seq<char>, after: Seq<char>)
    ensures
        occurs(before + needle + after, needle),
        occurs(s, needle) ==> exists|i: int|
            0 <= i <= s.len() - needle.len() && s == s.take(i) + needle + #[trigger] s.skip(
                i + needle.len(),
            ),
{
    let whole = before + needle + after;
    let n = before.len() as int;
    assert(whole.subrange(n, n + needle.len()) =~= needle);
    assert(occurs_at(whole, needle, n));
    if occurs(s, needle) {
        let i = choose|i: int| #[trigger] occurs_at(s, needle, i);
        let tail = s.skip(i + needle.len());
        assert(s.subrange(i, i + needle.len()) == needle);
        assert(s =~= s.take(i) + needle + tail) by {
            assert forall|k: int| i <= k < i + needle.len() implies s[k] == needle[k - i] by {
                assert(s.subrange(i, i + needle.len())[k - i] == s[k]);
            }
        }
    }
}

/// A number is rendered in decimal digits alone, and no two numbers are
/// rendered alike.
pub proof fn law_digits_alone(a: nat, b: nat)
    ensures
        forall|i: int| 0 <= i < dec(a).len() ==> '0' <= #[trigger] dec(a)[i] <= '9',
        dec(a) == dec(b) ==> a == b,
{
    lemma_dec_digits(a);
    lemma_dec_digits(b);
    assert forall|i: int| 0 <= i < dec(a).len() implies '0' <= #[trigger] dec(a)[i] <= '9' by {
        assert(is_digit(dec(a)[i]));
    }
}

} // verus!
