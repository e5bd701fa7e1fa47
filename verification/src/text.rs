//! Text building blocks: character-level string construction and
//! number formatting.

use vstd::prelude::*;

verus! {

/// `String::push` appends one character to the end of the string.
pub assume_specification[ String::push ](s: &mut String, ch: char)
    ensures
        final(s)@ == old(s)@.push(ch),
;

/// The upper-case hexadecimal digit for a value below sixteen.
pub open spec fn hex_digit_upper(d: nat) -> char {
    if d < 10 {
        ((48 + d) as u32) as char
    } else {
        ((55 + d) as u32) as char
    }
}

/// Upper-case hexadecimal text of `n`, without leading zeros ("0" for zero).
pub open spec fn hex_upper(n: nat) -> Seq<char>
    decreases n,
{
    if n < 16 {
        seq![hex_digit_upper(n)]
    } else {
        hex_upper(n / 16).push(hex_digit_upper(n % 16))
    }
}

fn hex_digit_char_upper(d: u64) -> (c: char)
    requires
        d < 16,
    ensures
        c == hex_digit_upper(d as nat),
{
    if d < 10 {
        ((48 + d) as u8) as char
    } else {
        ((55 + d) as u8) as char
    }
}

/// Upper-case hexadecimal text of `n`, as `format!("{:X}", n)` writes it.
pub fn to_hex_upper(n: u64) -> (s: String)
    ensures
        s@ == hex_upper(n as nat),
    decreases n,
{
    if n < 16 {
        let mut s = String::new();
        s.push(hex_digit_char_upper(n));
        s
    } else {
        let mut s = to_hex_upper(n / 16);
        s.push(hex_digit_char_upper(n % 16));
        s
    }
}

/// The characters of `s`, one element each.
pub fn chars_of(s: &str) -> (v: Vec<char>)
    ensures
        v@ == s@,
{
    let mut v: Vec<char> = Vec::new();
    for c in it: s.chars()
        invariant
            v@ == it.seq().take(it.index() as int),
    {
        v.push(c);
    }
    v
}

/// Appends the characters of `t` to `s`.
pub fn push_text(s: &mut String, t: &str)
    ensures
        final(s)@ == old(s)@ + t@,
{
    s.append(t);
}

/// The decimal digit character for a value below ten.
pub open spec fn decimal_digit(d: nat) -> char {
    ((48 + d) as u32) as char
}

/// Decimal text of `n`, without leading zeros ("0" for zero).
pub open spec fn decimal(n: nat) -> Seq<char>
    decreases n,
{
    if n < 10 {
        seq![decimal_digit(n)]
    } else {
        decimal(n / 10).push(decimal_digit(n % 10))
    }
}

/// Decimal text of `n`, as `n.to_string()` writes it.
pub fn to_decimal(n: u64) -> (s: String)
    ensures
        s@ == decimal(n as nat),
    decreases n,
{
    if n < 10 {
        let mut s = String::new();
        s.push(((48 + n) as u8) as char);
        s
    } else {
        let mut s = to_decimal(n / 10);
        s.push(((48 + n % 10) as u8) as char);
        s
    }
}

/// `c` repeated `n` times.
pub open spec fn repeat_char(c: char, n: nat) -> Seq<char> {
    Seq::new(n, |i: int| c)
}

/// `text` preceded by enough `fill` characters to make it `width` long
/// (unchanged where it is already that long).
pub open spec fn pad_left(text: Seq<char>, fill: char, width: nat) -> Seq<char> {
    if text.len() >= width {
        text
    } else {
        repeat_char(fill, (width - text.len()) as nat) + text
    }
}

/// `text` followed by enough spaces to make it `width` long
/// (unchanged where it is already that long).
pub open spec fn pad_right(text: Seq<char>, width: nat) -> Seq<char> {
    if text.len() >= width {
        text
    } else {
        text + repeat_char(' ', (width - text.len()) as nat)
    }
}

/// Appends `n` copies of `c` to `s`.
pub fn push_repeated(s: &mut String, c: char, n: usize)
    ensures
        final(s)@ == old(s)@ + repeat_char(c, n as nat),
{
    let ghost start = s@;
    let mut i: usize = 0;
    while i < n
        invariant
            i <= n,
            s@ == start + repeat_char(c, i as nat),
        decreases n - i,
    {
        s.push(c);
        i = i + 1;
        assert(s@ =~= start + repeat_char(c, i as nat));
    }
}

/// `text` right-aligned in a field of `width` characters filled with `fill`,
/// as `format!("{:>width$}")` (or `{:0width$}` for zeros) writes it.
pub fn padded_left(text: &str, fill: char, width: usize) -> (s: String)
    ensures
        s@ == pad_left(text@, fill, width as nat),
{
    let n = text.unicode_len();
    let mut s = String::new();
    if n < width {
        push_repeated(&mut s, fill, width - n);
    }
    push_text(&mut s, text);
    assert(s@ =~= pad_left(text@, fill, width as nat));
    s
}

/// `text` left-aligned in a field of `width` characters, as
/// `format!("{:<width$}")` writes it.
pub fn padded_right(text: &str, width: usize) -> (s: String)
    ensures
        s@ == pad_right(text@, width as nat),
{
    let n = text.unicode_len();
    let mut s = String::new();
    push_text(&mut s, text);
    if n < width {
        push_repeated(&mut s, ' ', width - n);
    }
    assert(s@ =~= pad_right(text@, width as nat));
    s
}

/// Upper-case hexadecimal text of `n`, zero-padded to `width` digits, as
/// `format!("{:0width$X}", n)` writes it.
pub fn to_hex_upper_padded(n: u64, width: usize) -> (s: String)
    ensures
        s@ == pad_left(hex_upper(n as nat), '0', width as nat),
{
    let digits = to_hex_upper(n);
    padded_left(digits.as_str(), '0', width)
}

/// `needle` occurs in `hay` starting at position `i`.
pub open spec fn text_occurs_at(hay: Seq<char>, needle: Seq<char>, i: int) -> bool {
    0 <= i && i + needle.len() <= hay.len() && hay.subrange(i, i + needle.len()) == needle
}

/// `needle` occurs somewhere in `hay` (`str::contains`); the empty text
/// occurs in every text.
pub open spec fn text_contains(hay: Seq<char>, needle: Seq<char>) -> bool {
    exists|i: int| text_occurs_at(hay, needle, i)
}

fn chars_match_at(hay: &Vec<char>, needle: &Vec<char>, i: usize) -> (r: bool)
    requires
        i + needle@.len() <= hay@.len(),
    ensures
        r == text_occurs_at(hay@, needle@, i as int),
{
    let mut j: usize = 0;
    while j < needle.len()
        invariant
            i + needle.len() <= hay.len(),
            j <= needle.len(),
            forall|k: int| 0 <= k < j ==> hay@[i + k] == needle@[k],
        decreases needle.len() - j,
    {
        if hay[i + j] != needle[j] {
            assert(hay@.subrange(i as int, i + needle@.len())[j as int] != needle@[j as int]);
            return false;
        }
        j = j + 1;
    }
    assert(hay@.subrange(i as int, i + needle@.len()) =~= needle@);
    true
}

/// Whether `needle` occurs in `hay`, for character vectors.
pub fn chars_contain(hay: &Vec<char>, needle: &Vec<char>) -> (r: bool)
    ensures
        r == text_contains(hay@, needle@),
{
    if needle.len() == 0 {
        assert(hay@.subrange(0, 0) =~= needle@);
        assert(text_occurs_at(hay@, needle@, 0));
        return true;
    }
    if needle.len() > hay.len() {
        assert(forall|i: int| !text_occurs_at(hay@, needle@, i));
        return false;
    }
    let last = hay.len() - needle.len();
    let mut i: usize = 0;
    while i <= last
        invariant
            needle.len() > 0,
            needle.len() <= hay.len(),
            last == hay.len() - needle.len(),
            i <= last + 1,
            forall|k: int| 0 <= k < i ==> !text_occurs_at(hay@, needle@, k),
        decreases last + 1 - i,
    {
        if chars_match_at(hay, needle, i) {
            return true;
        }
        i = i + 1;
    }
    false
}

/// Whether `needle` occurs in `hay` (`str::contains`).
pub fn contains_text(hay: &str, needle: &str) -> (r: bool)
    ensures
        r == text_contains(hay@, needle@),
{
    let h = chars_of(hay);
    let n = chars_of(needle);
    chars_contain(&h, &n)
}

/// What `str::to_lowercase` returns for a text (full Unicode lower-case
/// mapping, which may change the number of characters).
pub uninterp spec fn lowercase(text: Seq<char>) -> Seq<char>;

/// Every character of `text` is ASCII.
pub open spec fn is_ascii_text(text: Seq<char>) -> bool {
    forall|i: int| 0 <= i < text.len() ==> (#[trigger] text[i] as u32) < 128
}

/// Calls `str::to_lowercase`; the result is the lower-case form of `text`,
/// which depends on `text` alone.  The Unicode lower-case mapping that it
/// applies maps the ASCII letters 'A'..='Z' to 'a'..='z' and leaves every
/// other ASCII character as it is, so on all-ASCII text it is
/// `to_ascii_lowercase`.
#[verifier::external_body]
pub(crate) fn to_lowercase(text: &str) -> (r: String)
    ensures
        r@ == lowercase(text@),
        is_ascii_text(text@) ==> r@ == ascii_lowered(text@),
{
    text.to_lowercase()
}

/// The ASCII upper-case letters mapped to lower case, everything else kept.
pub open spec fn ascii_lower_char(c: char) -> char {
    if 'A' <= c <= 'Z' {
        ((c as u32) + 32) as char
    } else {
        c
    }
}

/// `text` with its ASCII upper-case letters in lower case.
pub open spec fn ascii_lowered(text: Seq<char>) -> Seq<char> {
    text.map_values(|c: char| ascii_lower_char(c))
}

/// `text` with its ASCII upper-case letters in lower case
/// (`str::to_ascii_lowercase`).
pub fn to_ascii_lower(text: &str) -> (s: String)
    ensures
        s@ == ascii_lowered(text@),
{
    let chars = chars_of(text);
    let mut s = String::new();
    let mut i: usize = 0;
    while i < chars.len()
        invariant
            i <= chars@.len(),
            chars@ == text@,
            s@ == ascii_lowered(chars@.take(i as int)),
        decreases chars.len() - i,
    {
        s.push(ascii_lower_char_exec(chars[i]));
        i = i + 1;
        assert(s@ =~= ascii_lowered(chars@.take(i as int)));
    }
    assert(chars@.take(i as int) =~= chars@);
    s
}

/// Two texts are equal once ASCII letters are compared without case
/// (`str::eq_ignore_ascii_case`).
pub open spec fn eq_ignore_ascii_case(a: Seq<char>, b: Seq<char>) -> bool {
    a.len() == b.len() && forall|i: int| 0 <= i < a.len() ==> ascii_lower_char(a[i]) == ascii_lower_char(b[i])
}

fn ascii_lower_char_exec(c: char) -> (r: char)
    ensures
        r == ascii_lower_char(c),
{
    if 'A' <= c && c <= 'Z' {
        ((c as u8) + 32) as char
    } else {
        c
    }
}

/// Whether `a` and `b` are equal ignoring the case of ASCII letters.
pub fn texts_eq_ignore_ascii_case(a: &str, b: &str) -> (r: bool)
    ensures
        r == eq_ignore_ascii_case(a@, b@),
{
    let x = chars_of(a);
    let y = chars_of(b);
    if x.len() != y.len() {
        return false;
    }
    let mut i: usize = 0;
    while i < x.len()
        invariant
            x@ == a@,
            y@ == b@,
            x.len() == y.len(),
            i <= x.len(),
            forall|k: int| 0 <= k < i ==> ascii_lower_char(x@[k]) == ascii_lower_char(y@[k]),
        decreases x.len() - i,
    {
        if ascii_lower_char_exec(x[i]) != ascii_lower_char_exec(y[i]) {
            return false;
        }
        i = i + 1;
    }
    true
}

/// The string made of the characters `chars`.
pub fn string_from_chars(chars: &Vec<char>) -> (s: String)
    ensures
        s@ == chars@,
{
    let mut s = String::new();
    let mut i: usize = 0;
    while i < chars.len()
        invariant
            i <= chars@.len(),
            s@ == chars@.take(i as int),
        decreases chars.len() - i,
    {
        s.push(chars[i]);
        i = i + 1;
        assert(s@ =~= chars@.take(i as int));
    }
    assert(chars@.take(i as int) =~= chars@);
    s
}

/// A line without the carriage return that ended it, if any.
pub open spec fn strip_cr(line: Seq<char>) -> Seq<char> {
    if line.len() > 0 && line.last() == '\r' {
        line.drop_last()
    } else {
        line
    }
}

/// Left-to-right split of `text` at line feeds: the lines ended so far
/// (each without its "\n" or "\r\n") and the line still open.
pub open spec fn line_scan(text: Seq<char>) -> (Seq<Seq<char>>, Seq<char>)
    decreases text.len(),
{
    if text.len() == 0 {
        (Seq::empty(), Seq::empty())
    } else {
        let (done, current) = line_scan(text.drop_last());
        if text.last() == '\n' {
            (done.push(strip_cr(current)), Seq::empty())
        } else {
            (done, current.push(text.last()))
        }
    }
}

/// The lines of `text` as `str::lines` yields them: split at "\n" or
/// "\r\n", terminators removed, and no empty line after a final line ending.
pub open spec fn text_lines(text: Seq<char>) -> Seq<Seq<char>> {
    let (done, current) = line_scan(text);
    if current.len() > 0 {
        done.push(current)
    } else {
        done
    }
}

/// `text` holds no line feed.
pub open spec fn no_newline(text: Seq<char>) -> bool {
    forall|i: int| 0 <= i < text.len() ==> #[trigger] text[i] != '\n'
}

/// No line that `line_scan` yields, finished or open, holds a line feed.
proof fn lemma_line_scan_no_newline(text: Seq<char>)
    ensures
        forall|k: int| 0 <= k < line_scan(text).0.len() ==> no_newline(#[trigger] line_scan(text).0[k]),
        no_newline(line_scan(text).1),
    decreases text.len(),
{
    if text.len() > 0 {
        lemma_line_scan_no_newline(text.drop_last());
        let (done, current) = line_scan(text.drop_last());
        if text.last() == '\n' {
            let line = strip_cr(current);
            assert(no_newline(line)) by {
                if current.len() > 0 && current.last() == '\r' {
                    assert forall|i: int| 0 <= i < line.len() implies #[trigger] line[i] != '\n' by {
                        assert(line[i] == current[i]);
                    }
                }
            }
            assert forall|k: int| 0 <= k < done.push(line).len() implies no_newline(#[trigger] done.push(line)[k]) by {
                if k < done.len() {
                    assert(done.push(line)[k] == done[k]);
                }
            }
            assert(no_newline(Seq::<char>::empty()));
        } else {
            assert forall|i: int| 0 <= i < current.push(text.last()).len() implies #[trigger] current.push(
                text.last(),
            )[i] != '\n' by {
                if i < current.len() {
                    assert(current.push(text.last())[i] == current[i]);
                }
            }
        }
    }
}

/// No line of a text holds a line feed.
pub proof fn lemma_text_lines_no_newline(text: Seq<char>)
    ensures
        forall|k: int| 0 <= k < text_lines(text).len() ==> no_newline(#[trigger] text_lines(text)[k]),
{
    lemma_line_scan_no_newline(text);
    let (done, current) = line_scan(text);
    if current.len() > 0 {
        assert forall|k: int| 0 <= k < done.push(current).len() implies no_newline(#[trigger] done.push(current)[k]) by {
            if k < done.len() {
                assert(done.push(current)[k] == done[k]);
            }
        }
    }
}

/// The pieces of `text` between line feeds, as `str::split('\n')` yields
/// them (one piece for a text without line feed).
pub open spec fn split_newlines(text: Seq<char>) -> Seq<Seq<char>>
    decreases text.len(),
{
    if text.len() == 0 {
        seq![Seq::empty()]
    } else {
        let parts = split_newlines(text.drop_last());
        if text.last() == '\n' {
            parts.push(Seq::empty())
        } else {
            parts.update(parts.len() - 1, parts.last().push(text.last()))
        }
    }
}

proof fn lemma_split_newlines_nonempty(text: Seq<char>)
    ensures
        split_newlines(text).len() >= 1,
    decreases text.len(),
{
    if text.len() > 0 {
        lemma_split_newlines_nonempty(text.drop_last());
    }
}

/// Appending text without line feed extends the last piece.
proof fn lemma_split_newlines_extend(a: Seq<char>, b: Seq<char>)
    requires
        no_newline(b),
    ensures
        split_newlines(a + b) == split_newlines(a).update(
            split_newlines(a).len() - 1,
            split_newlines(a).last() + b,
        ),
    decreases b.len(),
{
    lemma_split_newlines_nonempty(a);
    if b.len() == 0 {
        assert(a + b =~= a);
        assert(split_newlines(a).last() + b =~= split_newlines(a).last());
        assert(split_newlines(a).update(split_newlines(a).len() - 1, split_newlines(a).last()) =~= split_newlines(a));
    } else {
        let b0 = b.drop_last();
        assert(no_newline(b0)) by {
            assert forall|i: int| 0 <= i < b0.len() implies #[trigger] b0[i] != '\n' by {
                assert(b0[i] == b[i]);
            }
        }
        lemma_split_newlines_extend(a, b0);
        assert((a + b).drop_last() =~= a + b0);
        assert((a + b).last() == b.last());
        assert(b[b.len() - 1] != '\n');
        let p = split_newlines(a);
        lemma_split_newlines_nonempty(a + b0);
        assert(p.update(p.len() - 1, p.last() + b0).last() == p.last() + b0);
        assert((p.last() + b0).push(b.last()) =~= p.last() + b);
        assert(split_newlines(a + b) =~= p.update(p.len() - 1, p.last() + b));
    }
}

/// Joining pieces without line feeds by "\n" and splitting the result at
/// line feeds gives the pieces back.
pub proof fn lemma_split_join(pieces: Seq<Seq<char>>)
    requires
        pieces.len() > 0,
        forall|k: int| 0 <= k < pieces.len() ==> no_newline(#[trigger] pieces[k]),
    ensures
        split_newlines(join(pieces, "\n"@)) == pieces,
    decreases pieces.len(),
{
    reveal_strlit("\n");
    let empty = Seq::<char>::empty();
    if pieces.len() == 1 {
        lemma_split_newlines_extend(empty, pieces[0]);
        assert(empty + pieces[0] =~= pieces[0]);
        assert(split_newlines(empty) =~= seq![empty]);
        assert(empty + pieces[0] =~= pieces[0]);
        assert(seq![empty].update(0, empty + pieces[0]) =~= pieces);
    } else {
        let rest = pieces.drop_last();
        assert forall|k: int| 0 <= k < rest.len() implies no_newline(#[trigger] rest[k]) by {
            assert(rest[k] == pieces[k]);
        }
        lemma_split_join(rest);
        let front = join(rest, "\n"@) + "\n"@;
        assert(front.drop_last() =~= join(rest, "\n"@));
        assert(front.last() == '\n');
        assert(split_newlines(front) == rest.push(empty));
        assert(no_newline(pieces.last()));
        lemma_split_newlines_extend(front, pieces.last());
        assert(empty + pieces.last() =~= pieces.last());
        assert(rest.push(empty).update(rest.len() as int, pieces.last()) =~= pieces);
        assert(join(pieces, "\n"@) == front + pieces.last());
    }
}

/// The lines of a text, each as its characters.
pub fn split_lines(text: &Vec<char>) -> (lines: Vec<Vec<char>>)
    ensures
        lines@.map_values(|l: Vec<char>| l@) == text_lines(text@),
{
    let mut done: Vec<Vec<char>> = Vec::new();
    let mut current: Vec<char> = Vec::new();
    let mut i: usize = 0;
    while i < text.len()
        invariant
            i <= text@.len(),
            done@.map_values(|l: Vec<char>| l@) == line_scan(text@.take(i as int)).0,
            current@ == line_scan(text@.take(i as int)).1,
        decreases text.len() - i,
    {
        let c = text[i];
        assert(text@.take(i + 1).drop_last() =~= text@.take(i as int));
        if c == '\n' {
            let ghost before = done@;
            let len = current.len();
            if len > 0 && current[len - 1] == '\r' {
                current.pop();
            }
            let finished = current;
            done.push(finished);
            current = Vec::new();
            assert(done@.map_values(|l: Vec<char>| l@) =~= before.map_values(|l: Vec<char>| l@).push(
                strip_cr(line_scan(text@.take(i as int)).1),
            ));
        } else {
            current.push(c);
        }
        i = i + 1;
    }
    assert(text@.take(i as int) =~= text@);
    if current.len() > 0 {
        let ghost before = done@;
        done.push(current);
        assert(done@.map_values(|l: Vec<char>| l@) =~= before.map_values(|l: Vec<char>| l@).push(
            line_scan(text@).1,
        ));
    }
    done
}

/// The elements of `list` with `sep` between neighbours.
pub open spec fn join(list: Seq<Seq<char>>, sep: Seq<char>) -> Seq<char>
    decreases list.len(),
{
    if list.len() == 0 {
        Seq::empty()
    } else if list.len() == 1 {
        list[0]
    } else {
        join(list.drop_last(), sep) + sep + list.last()
    }
}

/// The texts of a list of strings.
pub open spec fn texts(v: Seq<String>) -> Seq<Seq<char>> {
    v.map_values(|s: String| s@)
}

/// The strings of `list` with `sep` between neighbours (`[String]::join`).
pub fn join_strings(list: &Vec<String>, sep: &str) -> (s: String)
    ensures
        s@ == join(texts(list@), sep@),
{
    let mut s = String::new();
    let mut i: usize = 0;
    while i < list.len()
        invariant
            i <= list@.len(),
            s@ == join(texts(list@).take(i as int), sep@),
        decreases list.len() - i,
    {
        if i > 0 {
            push_text(&mut s, sep);
        }
        push_text(&mut s, list[i].as_str());
        i = i + 1;
        assert(texts(list@).take(i as int).drop_last() =~= texts(list@).take(i - 1));
        assert(texts(list@).take(i as int).last() == list@[i - 1]@);
        if i == 1 {
            assert(texts(list@).take(1) =~= seq![list@[0]@]);
        }
    }
    assert(texts(list@).take(i as int) =~= texts(list@));
    s
}

/// The lower-case hexadecimal digit for a value below sixteen.
pub open spec fn hex_digit_lower(d: nat) -> char {
    if d < 10 {
        ((48 + d) as u32) as char
    } else {
        ((87 + d) as u32) as char
    }
}

/// Lower-case hexadecimal text of `n`, without leading zeros ("0" for zero).
pub open spec fn hex_lower(n: nat) -> Seq<char>
    decreases n,
{
    if n < 16 {
        seq![hex_digit_lower(n)]
    } else {
        hex_lower(n / 16).push(hex_digit_lower(n % 16))
    }
}

/// Lower-case hexadecimal text of `n`, as `format!("{:x}", n)` writes it.
pub fn to_hex_lower(n: u64) -> (s: String)
    ensures
        s@ == hex_lower(n as nat),
    decreases n,
{
    if n < 16 {
        let mut s = String::new();
        let d = n;
        s.push(if d < 10 { ((48 + d) as u8) as char } else { ((87 + d) as u8) as char });
        s
    } else {
        let mut s = to_hex_lower(n / 16);
        let d = n % 16;
        s.push(if d < 10 { ((48 + d) as u8) as char } else { ((87 + d) as u8) as char });
        s
    }
}

/// Whether two texts are equal.
pub fn texts_equal(a: &str, b: &str) -> (r: bool)
    ensures
        r == (a@ == b@),
{
    let x = chars_of(a);
    let y = chars_of(b);
    if x.len() != y.len() {
        return false;
    }
    let mut i: usize = 0;
    while i < x.len()
        invariant
            x@ == a@,
            y@ == b@,
            x.len() == y.len(),
            i <= x.len(),
            forall|k: int| 0 <= k < i ==> x@[k] == y@[k],
        decreases x.len() - i,
    {
        if x[i] != y[i] {
            return false;
        }
        i = i + 1;
    }
    assert(x@ =~= y@);
    true
}

} // verus!
