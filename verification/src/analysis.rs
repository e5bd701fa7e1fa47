//! Findings about the contents of a memory region: the entries that the
//! analyses report, keyed by name.

use vstd::prelude::*;
use vstd::utf8::{decode_utf8, valid_utf8};

use flate2::write::ZlibEncoder;
use flate2::Compression;
use std::io::Write;

use crate::region::{is_committed, protection_label, protection_text, region_is_committed, MemoryRegion};
use crate::scan::{
    ascii_chars, contains_shellcode, detect_file_signatures, detect_strings, extract_strings,
    file_signatures, has_code_patterns, has_code_window, has_shellcode, text_runs,
};
use crate::text::{
    ascii_lowered, chars_of, contains_text, decimal, join, join_strings, lemma_split_join,
    lemma_text_lines_no_newline, no_newline, push_text, split_lines, split_newlines,
    string_from_chars, text_contains, text_lines, texts, texts_equal, to_ascii_lower, to_decimal,
};

verus! {

/// The text that `String::from_utf8_lossy` makes of a byte sequence.
pub uninterp spec fn utf8_lossy(bytes: Seq<u8>) -> Seq<char>;

/// Calls `String::from_utf8_lossy`: the bytes decoded as UTF-8, with each
/// invalid sequence replaced by U+FFFD.  The result depends on the bytes
/// alone, and bytes that are valid UTF-8 decode to exactly their text.
#[verifier::external_body]
fn decode_lossy(bytes: &[u8]) -> (s: String)
    ensures
        s@ == utf8_lossy(bytes@),
        valid_utf8(bytes@) ==> s@ == decode_utf8(bytes@),
{
    String::from_utf8_lossy(bytes).into_owned()
}

/// What compressing `data` with `flate2`'s `ZlibEncoder` at the default
/// level gives: the zlib stream, or `None` where the encoder reports an error.
pub uninterp spec fn zlib_outcome(data: Seq<u8>) -> Option<Seq<u8>>;

/// Compresses `data` with `flate2::write::ZlibEncoder` at the default level.
/// Where the encoder reports an error the result is `None`; otherwise it is
/// the compressed stream.  Either way the outcome depends on `data` alone.
#[verifier::external_body]
fn zlib_compress(data: &[u8]) -> (r: Option<Vec<u8>>)
    ensures
        contents_view(r) == zlib_outcome(data@),
{
    let mut encoder = ZlibEncoder::new(Vec::new(), Compression::default());
    if encoder.write_all(data).is_err() {
        return None;
    }
    encoder.finish().ok()
}

/// The character of the standard base64 alphabet for a value below 64:
/// 'A'..='Z', 'a'..='z', '0'..='9', '+', '/'.
pub open spec fn base64_char(v: int) -> char {
    if v < 26 {
        (65 + v) as char
    } else if v < 52 {
        (71 + v) as char
    } else if v < 62 {
        (v - 4) as char
    } else if v == 62 {
        '+'
    } else {
        '/'
    }
}

/// The standard base64 text of `data` (RFC 4648): each group of three bytes
/// becomes four characters of six bits each, and a final group of one or two
/// bytes is padded with '='.
pub open spec fn base64_text(data: Seq<u8>) -> Seq<char>
    decreases data.len(),
{
    if data.len() == 0 {
        Seq::empty()
    } else {
        let a = data[0] as int;
        if data.len() == 1 {
            seq![base64_char(a / 4), base64_char((a % 4) * 16), '=', '=']
        } else {
            let b = data[1] as int;
            if data.len() == 2 {
                seq![base64_char(a / 4), base64_char((a % 4) * 16 + b / 16), base64_char((b % 16) * 4), '=']
            } else {
                let c = data[2] as int;
                seq![
                    base64_char(a / 4),
                    base64_char((a % 4) * 16 + b / 16),
                    base64_char((b % 16) * 4 + c / 64),
                    base64_char(c % 64),
                ] + base64_text(data.skip(3))
            }
        }
    }
}

/// Calls `base64::encode`, which encodes with the standard alphabet and
/// padding.
#[verifier::external_body]
#[allow(deprecated)]
fn base64_encode(data: &[u8]) -> (s: String)
    ensures
        s@ == base64_text(data@),
{
    base64::encode(data)
}

/// What `base64::decode` gives for a text: the bytes it encodes, or `None`
/// where it is not canonical padded standard base64.
pub uninterp spec fn base64_decoded(text: Seq<char>) -> Option<Seq<u8>>;

/// Calls `base64::decode` (standard alphabet, canonical padding required):
/// the result depends on the text alone, and the text that `base64::encode`
/// writes for some bytes decodes back to exactly those bytes.
#[verifier::external_body]
#[allow(deprecated)]
fn base64_decode(text: &str) -> (r: Option<Vec<u8>>)
    ensures
        contents_view(r) == base64_decoded(text@),
        forall|d: Seq<u8>| text@ == #[trigger] base64_text(d) ==> contents_view(r) == Some(d),
{
    base64::decode(text).ok()
}

/// The length of the zlib-compressed form of `data` (`None` where the
/// encoder failed).  The compression ratio is the data length divided by it.
pub fn compressed_size(data: &[u8]) -> (r: Option<usize>)
    ensures
        r == match zlib_outcome(data@) {
            Some(c) => Some(c.len() as usize),
            None => None,
        },
{
    match zlib_compress(data) {
        Some(c) => Some(c.len()),
        None => None,
    }
}

/// A findings entry seen as texts.
pub open spec fn entry_view(e: (String, String)) -> (Seq<char>, Seq<char>) {
    (e.0@, e.1@)
}

/// Findings entries seen as texts.
pub open spec fn entries_view(v: Seq<(String, String)>) -> Seq<(Seq<char>, Seq<char>)> {
    v.map_values(|e: (String, String)| entry_view(e))
}

/// The findings entry `(key, value)`.
fn entry(key: &str, value: String) -> (e: (String, String))
    ensures
        entry_view(e) == (key@, value@),
{
    (key.to_string(), value)
}

/// The text of a boolean as `bool::to_string` writes it.
pub open spec fn bool_text(b: bool) -> Seq<char> {
    if b {
        "true"@
    } else {
        "false"@
    }
}

fn bool_string(b: bool) -> (s: String)
    ensures
        s@ == bool_text(b),
{
    if b {
        "true".to_string()
    } else {
        "false".to_string()
    }
}

/// A line that may reveal a password: it mentions "pass" or "pwd".
pub open spec fn mentions_password(line: Seq<char>) -> bool {
    text_contains(line, "pass"@) || text_contains(line, "pwd"@)
}

/// `s` without repetitions, each element kept where it first occurs.
pub open spec fn dedup(s: Seq<Seq<char>>) -> Seq<Seq<char>>
    decreases s.len(),
{
    if s.len() == 0 {
        Seq::empty()
    } else {
        let d = dedup(s.drop_last());
        if d.contains(s.last()) {
            d
        } else {
            d.push(s.last())
        }
    }
}

/// The test that picks a line as one that mentions a password.
pub open spec fn password_filter() -> spec_fn(Seq<char>) -> bool {
    |l: Seq<char>| mentions_password(l)
}

/// The lines of the text in `data` (decoded leniently as UTF-8) that
/// mention a password, each distinct line once, in order of first occurrence.
pub open spec fn password_lines(data: Seq<u8>) -> Seq<Seq<char>> {
    dedup(text_lines(utf8_lossy(data)).filter(password_filter()))
}

/// A deduplicated sequence holds no element twice and holds exactly the
/// elements of the original.
pub proof fn lemma_dedup(s: Seq<Seq<char>>)
    ensures
        dedup(s).no_duplicates(),
        forall|x: Seq<char>| dedup(s).contains(x) <==> s.contains(x),
    decreases s.len(),
{
    if s.len() > 0 {
        lemma_dedup(s.drop_last());
        let d = dedup(s.drop_last());
        assert forall|x: Seq<char>| s.contains(x) <==> (s.drop_last().contains(x) || x == s.last()) by {
            if s.contains(x) {
                let i = choose|i: int| 0 <= i < s.len() && s[i] == x;
                if i < s.len() - 1 {
                    assert(s.drop_last()[i] == x);
                }
            }
            if s.drop_last().contains(x) {
                let i = choose|i: int| 0 <= i < s.drop_last().len() && s.drop_last()[i] == x;
                assert(s[i] == x);
            }
            if x == s.last() {
                assert(s[s.len() - 1] == x);
            }
        }
        if !d.contains(s.last()) {
            assert forall|x: Seq<char>| d.push(s.last()).contains(x) <==> (d.contains(x) || x == s.last()) by {
                if d.push(s.last()).contains(x) {
                    let i = choose|i: int| 0 <= i < d.push(s.last()).len() && d.push(s.last())[i] == x;
                    if i < d.len() {
                        assert(d[i] == x);
                    }
                }
                if d.contains(x) {
                    let i = choose|i: int| 0 <= i < d.len() && d[i] == x;
                    assert(d.push(s.last())[i] == x);
                }
                if x == s.last() {
                    assert(d.push(s.last())[d.len() as int] == x);
                }
            }
            assert forall|i: int, j: int|
                0 <= i < d.push(s.last()).len() && 0 <= j < d.push(s.last()).len() && i != j implies d.push(
                    s.last(),
                )[i] != d.push(s.last())[j] by {
                if i < d.len() && j < d.len() {
                    assert(d.push(s.last())[i] == d[i]);
                    assert(d.push(s.last())[j] == d[j]);
                } else if i < d.len() {
                    assert(d.push(s.last())[i] == d[i]);
                    assert(d.contains(d[i]));
                } else if j < d.len() {
                    assert(d.push(s.last())[j] == d[j]);
                    assert(d.contains(d[j]));
                }
            }
        }
    }
}

/// Whether the texts in `list` include `t`.
fn list_has_text(list: &Vec<String>, t: &String) -> (r: bool)
    ensures
        r == texts(list@).contains(t@),
{
    let mut i: usize = 0;
    while i < list.len()
        invariant
            i <= list@.len(),
            forall|k: int| 0 <= k < i ==> list@[k]@ != t@,
        decreases list.len() - i,
    {
        if list[i] == *t {
            assert(texts(list@)[i as int] == t@);
            return true;
        }
        i = i + 1;
    }
    assert forall|k: int| 0 <= k < texts(list@).len() implies texts(list@)[k] != t@ by {
        assert(texts(list@)[k] == list@[k]@);
    }
    false
}

/// The distinct lines of the memory text that mention "pass" or "pwd",
/// each once, in order of first occurrence.
pub fn find_potential_passwords(data: &[u8]) -> (passwords: Vec<String>)
    ensures
        texts(passwords@) == password_lines(data@),
        valid_utf8(data@) ==> utf8_lossy(data@) == decode_utf8(data@),
{
    let text = decode_lossy(data);
    let chars = chars_of(text.as_str());
    let lines = split_lines(&chars);
    let ghost all = text_lines(utf8_lossy(data@));
    let ghost pred = password_filter();
    let pass = "pass".to_string();
    let pwd = "pwd".to_string();
    let pass_chars = chars_of(pass.as_str());
    let pwd_chars = chars_of(pwd.as_str());
    let mut passwords: Vec<String> = Vec::new();
    let mut i: usize = 0;
    while i < lines.len()
        invariant
            i <= lines@.len(),
            lines@.map_values(|l: Vec<char>| l@) == all,
            pred == password_filter(),
            pass_chars@ == "pass"@,
            pwd_chars@ == "pwd"@,
            texts(passwords@) == dedup(all.take(i as int).filter(pred)),
        decreases lines.len() - i,
    {
        let line = &lines[i];
        assert(line@ == all[i as int]);
        let hit = crate::text::chars_contain(line, &pass_chars) || crate::text::chars_contain(line, &pwd_chars);
        proof {
            reveal(Seq::filter);
            let t = all.take(i + 1);
            assert(t.drop_last() =~= all.take(i as int));
            assert(t.last() == all[i as int]);
            assert(pred(all[i as int]) == mentions_password(all[i as int]));
            assert(pred(all[i as int]) == hit);
            if hit {
                assert(t.filter(pred) == all.take(i as int).filter(pred).push(all[i as int]));
                let f = all.take(i as int).filter(pred).push(all[i as int]);
                assert(f.drop_last() =~= all.take(i as int).filter(pred));
                assert(f.last() == all[i as int]);
            } else {
                assert(t.filter(pred) == all.take(i as int).filter(pred));
            }
        }
        if hit {
            let s = string_from_chars(line);
            if !list_has_text(&passwords, &s) {
                let ghost before = passwords@;
                passwords.push(s);
                assert(texts(passwords@) =~= texts(before).push(s@));
            }
        }
        i = i + 1;
    }
    assert(all.take(lines@.len() as int) =~= all);
    passwords
}

/// The figures of an analysis that are computed in floating point, already
/// formatted as text.
pub struct NumericSummary {
    pub entropy: String,
    pub compression_ratio: String,
    pub byte_distribution: String,
}

/// A single entry where `cond` holds, none otherwise.
pub open spec fn optional_entry(cond: bool, key: Seq<char>, value: Seq<char>) -> Seq<(Seq<char>, Seq<char>)> {
    if cond {
        seq![(key, value)]
    } else {
        Seq::empty()
    }
}

/// The text runs of `data` as strings.
pub open spec fn run_texts(data: Seq<u8>) -> Seq<Seq<char>> {
    text_runs(data).map_values(|r: Seq<u8>| ascii_chars(r))
}

/// The entries of a full analysis of `data`: entropy, whether shell code
/// occurs, the text runs, the password lines and the file signatures (each
/// only where there is one), the compression ratio and the byte distribution.
pub open spec fn memory_data_entries(
    data: Seq<u8>,
    entropy: Seq<char>,
    ratio: Seq<char>,
    distribution: Seq<char>,
) -> Seq<(Seq<char>, Seq<char>)> {
    seq![("entropy"@, entropy), ("contains_shellcode"@, bool_text(has_shellcode(data)))]
        + optional_entry(run_texts(data).len() > 0, "strings"@, join(run_texts(data), "\n"@))
        + optional_entry(password_lines(data).len() > 0, "passwords"@, join(password_lines(data), "\n"@))
        + optional_entry(file_signatures(data).len() > 0, "signatures"@, join(file_signatures(data), ", "@))
        + seq![("compression_ratio"@, ratio), ("byte_distribution"@, distribution)]
}

/// Appends the entry `(key, value)` to `entries`.
fn push_entry(entries: &mut Vec<(String, String)>, key: &str, value: String)
    ensures
        entries_view(final(entries)@) == entries_view(old(entries)@).push((key@, value@)),
{
    let ghost before = entries@;
    entries.push(entry(key, value));
    assert(entries_view(entries@) =~= entries_view(before).push((key@, value@)));
}

/// Appends the entries of `more` to `entries`.
fn append_entries(entries: &mut Vec<(String, String)>, more: Vec<(String, String)>)
    ensures
        entries_view(final(entries)@) == entries_view(old(entries)@) + entries_view(more@),
{
    let ghost before = entries@;
    let mut more = more;
    let ghost added = more@;
    entries.append(&mut more);
    assert(entries_view(entries@) =~= entries_view(before) + entries_view(added));
}

/// Looking a key up in two entry lists joined: an entry of the first list wins.
pub proof fn lemma_entry_value_append(
    a: Seq<(Seq<char>, Seq<char>)>,
    b: Seq<(Seq<char>, Seq<char>)>,
    key: Seq<char>,
)
    ensures
        entry_value(a + b, key) == match entry_value(a, key) {
            Some(v) => Some(v),
            None => entry_value(b, key),
        },
    decreases a.len(),
{
    if a.len() > 0 {
        assert((a + b)[0] == a[0]);
        assert((a + b).drop_first() =~= a.drop_first() + b);
        lemma_entry_value_append(a.drop_first(), b, key);
    } else {
        assert(a + b =~= b);
    }
}

/// Looking a key up in a list of at most one entry.
proof fn lemma_entry_value_optional(cond: bool, k: Seq<char>, v: Seq<char>, key: Seq<char>)
    ensures
        entry_value(optional_entry(cond, k, v), key) == if cond && k == key {
            Some(v)
        } else {
            None
        },
{
    let none = Seq::<(Seq<char>, Seq<char>)>::empty();
    assert(entry_value(none, key) is None);
    if cond {
        assert(seq![(k, v)].drop_first() =~= none);
        assert(seq![(k, v)][0] == (k, v));
    }
}

/// The value that a full analysis of `data` reports under `key`: the given
/// entropy, whether shell code occurs, the text runs, the password lines and
/// the file signatures (each only where there is one), the given compression
/// ratio and byte distribution; no other key has a value.
pub open spec fn memory_data_value(
    data: Seq<u8>,
    entropy: Seq<char>,
    ratio: Seq<char>,
    distribution: Seq<char>,
    key: Seq<char>,
) -> Option<Seq<char>> {
    if key == "entropy"@ {
        Some(entropy)
    } else if key == "contains_shellcode"@ {
        Some(bool_text(has_shellcode(data)))
    } else if key == "strings"@ {
        if run_texts(data).len() > 0 {
            Some(join(run_texts(data), "\n"@))
        } else {
            None
        }
    } else if key == "passwords"@ {
        if password_lines(data).len() > 0 {
            Some(join(password_lines(data), "\n"@))
        } else {
            None
        }
    } else if key == "signatures"@ {
        if file_signatures(data).len() > 0 {
            Some(join(file_signatures(data), ", "@))
        } else {
            None
        }
    } else if key == "compression_ratio"@ {
        Some(ratio)
    } else if key == "byte_distribution"@ {
        Some(distribution)
    } else {
        None
    }
}

/// The entries of a full analysis, looked up by key: each key gives the
/// value stated by `memory_data_value`, so the four figures are always
/// there, the text runs, password lines and signatures exactly where there
/// are any, and no other key.
pub proof fn lemma_memory_data_lookup(
    data: Seq<u8>,
    entropy: Seq<char>,
    ratio: Seq<char>,
    distribution: Seq<char>,
    key: Seq<char>,
)
    ensures
        entry_value(memory_data_entries(data, entropy, ratio, distribution), key) == memory_data_value(
            data,
            entropy,
            ratio,
            distribution,
            key,
        ),
{
    reveal_strlit("entropy");
    reveal_strlit("contains_shellcode");
    reveal_strlit("strings");
    reveal_strlit("passwords");
    reveal_strlit("signatures");
    reveal_strlit("compression_ratio");
    reveal_strlit("byte_distribution");
    assert("entropy"@.len() == 7 && "entropy"@[0] == 'e');
    assert("contains_shellcode"@.len() == 18 && "contains_shellcode"@[0] == 'c');
    assert("strings"@.len() == 7 && "strings"@[0] == 's');
    assert("passwords"@.len() == 9 && "passwords"@[0] == 'p');
    assert("signatures"@.len() == 10 && "signatures"@[0] == 's');
    assert("compression_ratio"@.len() == 17 && "compression_ratio"@[0] == 'c');
    assert("byte_distribution"@.len() == 17 && "byte_distribution"@[0] == 'b');
    let head = seq![("entropy"@, entropy), ("contains_shellcode"@, bool_text(has_shellcode(data)))];
    let runs = optional_entry(run_texts(data).len() > 0, "strings"@, join(run_texts(data), "\n"@));
    let pass = optional_entry(
        password_lines(data).len() > 0,
        "passwords"@,
        join(password_lines(data), "\n"@),
    );
    let sigs = optional_entry(file_signatures(data).len() > 0, "signatures"@, join(file_signatures(data), ", "@));
    let tail = seq![("compression_ratio"@, ratio), ("byte_distribution"@, distribution)];
    assert(head =~= optional_entry(true, "entropy"@, entropy) + optional_entry(
        true,
        "contains_shellcode"@,
        bool_text(has_shellcode(data)),
    ));
    assert(tail =~= optional_entry(true, "compression_ratio"@, ratio) + optional_entry(
        true,
        "byte_distribution"@,
        distribution,
    ));
    lemma_entry_value_optional(true, "entropy"@, entropy, key);
    lemma_entry_value_optional(true, "contains_shellcode"@, bool_text(has_shellcode(data)), key);
    lemma_entry_value_optional(run_texts(data).len() > 0, "strings"@, join(run_texts(data), "\n"@), key);
    lemma_entry_value_optional(
        password_lines(data).len() > 0,
        "passwords"@,
        join(password_lines(data), "\n"@),
        key,
    );
    lemma_entry_value_optional(
        file_signatures(data).len() > 0,
        "signatures"@,
        join(file_signatures(data), ", "@),
        key,
    );
    lemma_entry_value_optional(true, "compression_ratio"@, ratio, key);
    lemma_entry_value_optional(true, "byte_distribution"@, distribution, key);
    lemma_entry_value_append(
        optional_entry(true, "entropy"@, entropy),
        optional_entry(true, "contains_shellcode"@, bool_text(has_shellcode(data))),
        key,
    );
    lemma_entry_value_append(
        optional_entry(true, "compression_ratio"@, ratio),
        optional_entry(true, "byte_distribution"@, distribution),
        key,
    );
    lemma_entry_value_append(head, runs, key);
    lemma_entry_value_append(head + runs, pass, key);
    lemma_entry_value_append(head + runs + pass, sigs, key);
    lemma_entry_value_append(head + runs + pass + sigs, tail, key);
    assert(memory_data_entries(data, entropy, ratio, distribution) == head + runs + pass + sigs + tail);
}

/// The entries of a full analysis of `data`, given the figures computed in
/// floating point.
pub fn analyze_memory_data(data: &[u8], numbers: &NumericSummary) -> (entries: Vec<(String, String)>)
    ensures
        entries_view(entries@) == memory_data_entries(
            data@,
            numbers.entropy@,
            numbers.compression_ratio@,
            numbers.byte_distribution@,
        ),
{
    let mut entries: Vec<(String, String)> = Vec::new();
    push_entry(&mut entries, "entropy", numbers.entropy.clone());
    push_entry(&mut entries, "contains_shellcode", bool_string(contains_shellcode(data)));
    let ghost e1 = entries_view(entries@);
    let strings = extract_strings(data);
    assert(texts(strings@) =~= run_texts(data@));
    if strings.len() > 0 {
        push_entry(&mut entries, "strings", join_strings(&strings, "\n"));
    }
    let ghost e2 = entries_view(entries@);
    assert(e2 == e1 + optional_entry(run_texts(data@).len() > 0, "strings"@, join(run_texts(data@), "\n"@)));
    let passwords = find_potential_passwords(data);
    if passwords.len() > 0 {
        push_entry(&mut entries, "passwords", join_strings(&passwords, "\n"));
    }
    let ghost e3 = entries_view(entries@);
    assert(e3 == e2 + optional_entry(password_lines(data@).len() > 0, "passwords"@, join(password_lines(data@), "\n"@)));
    let signatures = detect_file_signatures(data);
    assert(texts(signatures@) =~= file_signatures(data@));
    if signatures.len() > 0 {
        push_entry(&mut entries, "signatures", join_strings(&signatures, ", "));
    }
    let ghost e4 = entries_view(entries@);
    assert(e4 == e3 + optional_entry(file_signatures(data@).len() > 0, "signatures"@, join(file_signatures(data@), ", "@)));
    push_entry(&mut entries, "compression_ratio", numbers.compression_ratio.clone());
    push_entry(&mut entries, "byte_distribution", numbers.byte_distribution.clone());
    assert(entries_view(entries@) =~= memory_data_entries(
        data@,
        numbers.entropy@,
        numbers.compression_ratio@,
        numbers.byte_distribution@,
    ));
    entries
}

/// The entries of a quick analysis of a region, given what was read of it
/// (`None` where the read failed).  A region whose pages are not committed
/// is reported as skipped.
pub open spec fn quick_region_entries(
    region: MemoryRegion,
    contents: Option<Seq<u8>>,
    entropy: Seq<char>,
    ratio: Seq<char>,
    distribution: Seq<char>,
) -> Seq<(Seq<char>, Seq<char>)> {
    if !is_committed(region) {
        seq![("status"@, "skipped"@), ("reason"@, "not committed"@)]
    } else {
        match contents {
            None => Seq::empty(),
            Some(d) => optional_entry(
                file_signatures(d).len() > 0,
                "file_signatures"@,
                join(file_signatures(d), ", "@),
            ) + seq![
                ("is_executable"@, bool_text(region.is_executable)),
                ("is_writable"@, bool_text(region.is_writable)),
            ] + memory_data_entries(d, entropy, ratio, distribution),
        }
    }
}

/// What was read of a region, as a byte sequence.
pub open spec fn contents_view(contents: Option<Vec<u8>>) -> Option<Seq<u8>> {
    match contents {
        Some(v) => Some(v@),
        None => None,
    }
}

/// The entries of a quick analysis of `region`, given what was read of it
/// and the figures computed in floating point from those bytes.
pub fn quick_analyze_region(region: &MemoryRegion, contents: &Option<Vec<u8>>, numbers: &NumericSummary) -> (entries: Vec<(String, String)>)
    ensures
        entries_view(entries@) == quick_region_entries(
            *region,
            contents_view(*contents),
            numbers.entropy@,
            numbers.compression_ratio@,
            numbers.byte_distribution@,
        ),
{
    let mut entries: Vec<(String, String)> = Vec::new();
    if !region_is_committed(region) {
        push_entry(&mut entries, "status", "skipped".to_string());
        push_entry(&mut entries, "reason", "not committed".to_string());
        assert(entries_view(entries@) =~= seq![("status"@, "skipped"@), ("reason"@, "not committed"@)]);
        return entries;
    }
    match contents {
        None => {
            assert(entries_view(entries@) =~= Seq::<(Seq<char>, Seq<char>)>::empty());
        },
        Some(data) => {
            let signatures = detect_file_signatures(data.as_slice());
            assert(texts(signatures@) =~= file_signatures(data@));
            if signatures.len() > 0 {
                push_entry(&mut entries, "file_signatures", join_strings(&signatures, ", "));
            }
            let ghost e1 = entries_view(entries@);
            assert(e1 =~= optional_entry(file_signatures(data@).len() > 0, "file_signatures"@, join(file_signatures(data@), ", "@)));
            push_entry(&mut entries, "is_executable", bool_string(region.is_executable));
            push_entry(&mut entries, "is_writable", bool_string(region.is_writable));
            let ghost e2 = entries_view(entries@);
            let analysis = analyze_memory_data(data.as_slice(), numbers);
            append_entries(&mut entries, analysis);
            assert(entries_view(entries@) =~= quick_region_entries(
                *region,
                contents_view(*contents),
                numbers.entropy@,
                numbers.compression_ratio@,
                numbers.byte_distribution@,
            ));
        },
    }
    entries
}

/// The entries of a text view of a region: its bytes decoded leniently as
/// UTF-8 under "text_content", where something was read.
pub fn analyze_region(contents: &Option<Vec<u8>>) -> (entries: Vec<(String, String)>)
    ensures
        entries_view(entries@) == match contents_view(*contents) {
            Some(d) => seq![("text_content"@, utf8_lossy(d))],
            None => Seq::<(Seq<char>, Seq<char>)>::empty(),
        },
        contents_view(*contents) matches Some(d) ==> (valid_utf8(d) ==> utf8_lossy(d) == decode_utf8(d)),
{
    let mut entries: Vec<(String, String)> = Vec::new();
    match contents {
        Some(data) => {
            push_entry(&mut entries, "text_content", decode_lossy(data.as_slice()));
            assert(entries_view(entries@) =~= seq![("text_content"@, utf8_lossy(data@))]);
        },
        None => {
            assert(entries_view(entries@) =~= Seq::<(Seq<char>, Seq<char>)>::empty());
        },
    }
    entries
}

/// How many bytes of a region's first read are shown as a preview: at most
/// 256, and no more than the region holds.
pub open spec fn preview_length(region: MemoryRegion) -> int {
    if region.size < 256 {
        region.size as int
    } else {
        256
    }
}

/// The first `n` elements of `s`, or all of them where there are fewer.
pub open spec fn first_n(s: Seq<Seq<char>>, n: int) -> Seq<Seq<char>> {
    if s.len() <= n {
        s
    } else {
        s.take(n)
    }
}

/// The protection's text names both executing and writing.
pub open spec fn rwx_protection(protection: u32) -> bool {
    text_contains(protection_label(protection), "EXECUTE"@) && text_contains(
        protection_label(protection),
        "WRITE"@,
    )
}

/// The findings about the text runs of `data`: their number and the first
/// three, where there is any.
pub open spec fn string_entries(data: Seq<u8>) -> Seq<(Seq<char>, Seq<char>)> {
    if run_texts(data).len() > 0 {
        seq![
            ("Strings"@, "Found "@ + decimal(run_texts(data).len()) + " interesting strings"@),
            ("string_preview"@, join(first_n(run_texts(data), 3), ", "@)),
        ]
    } else {
        Seq::empty()
    }
}

/// The finding about high entropy, where the formatted entropy is given.
pub open spec fn entropy_entries(entropy_note: Option<Seq<char>>) -> Seq<(Seq<char>, Seq<char>)> {
    match entropy_note {
        Some(t) => seq![("Entropy"@, "High entropy ("@ + t + ") - possible encryption/compression"@)],
        None => Seq::empty(),
    }
}

/// The findings of the background analysis of a region from the bytes read
/// at its start: a base64 preview, the text runs (count and first three),
/// code patterns, high entropy (where `entropy_note` holds the formatted
/// entropy, given only when it is high), write-and-execute protection, a
/// large size (at least one MiB, with `size_mib` the formatted size) and a
/// low base address (below 0x10000).
pub open spec fn region_findings_entries(
    region: MemoryRegion,
    data: Seq<u8>,
    entropy_note: Option<Seq<char>>,
    size_mib: Seq<char>,
) -> Seq<(Seq<char>, Seq<char>)> {
    seq![("hex_data"@, base64_text(data.take(preview_length(region))))] + string_entries(data)
        + optional_entry(has_code_window(data), "Code"@, "Contains executable code patterns"@)
        + entropy_entries(entropy_note) + layout_entries(region, size_mib)
}

/// The findings about a region's protection, size and address.
pub open spec fn layout_entries(region: MemoryRegion, size_mib: Seq<char>) -> Seq<(Seq<char>, Seq<char>)> {
    optional_entry(
        rwx_protection(region.protection),
        "Protection"@,
        "Suspicious RWX permissions (possible shellcode)"@,
    ) + optional_entry(region.size >= 1024 * 1024, "Size"@, "Large region ("@ + size_mib + " MB)"@)
        + optional_entry(region.base_address < 0x10000, "Address"@, "Suspicious low memory address"@)
}

/// Option of a string seen as its text.
pub open spec fn note_view(note: Option<String>) -> Option<Seq<char>> {
    match note {
        Some(s) => Some(s@),
        None => None,
    }
}

fn string_findings(data: &[u8]) -> (entries: Vec<(String, String)>)
    ensures
        entries_view(entries@) == string_entries(data@),
{
    let mut entries: Vec<(String, String)> = Vec::new();
    match detect_strings(data) {
        Some(strings) => {
            assert(texts(strings@) =~= run_texts(data@));
            let mut count = String::new();
            push_text(&mut count, "Found ");
            let digits = to_decimal(strings.len() as u64);
            push_text(&mut count, digits.as_str());
            push_text(&mut count, " interesting strings");
            push_entry(&mut entries, "Strings", count);
            let mut first: Vec<String> = Vec::new();
            let mut k: usize = 0;
            while k < strings.len() && k < 3
                invariant
                    k <= strings@.len(),
                    k <= 3,
                    texts(first@) == texts(strings@).take(k as int),
                decreases 3 - k,
            {
                let ghost before = first@;
                let c = strings[k].clone();
                assert(c@ == strings@[k as int]@);
                first.push(c);
                assert(first@ == before.push(c));
                assert(texts(first@) =~= texts(before).push(c@));
                k = k + 1;
                assert(texts(first@) =~= texts(strings@).take(k as int));
            }
            assert(texts(first@) =~= first_n(run_texts(data@), 3));
            push_entry(&mut entries, "string_preview", join_strings(&first, ", "));
            assert(entries_view(entries@) =~= string_entries(data@));
        },
        None => {
            assert(entries_view(entries@) =~= string_entries(data@));
        },
    }
    entries
}

fn entropy_findings(entropy_note: &Option<String>) -> (entries: Vec<(String, String)>)
    ensures
        entries_view(entries@) == entropy_entries(note_view(*entropy_note)),
{
    let mut entries: Vec<(String, String)> = Vec::new();
    match entropy_note {
        Some(t) => {
            let mut note = String::new();
            push_text(&mut note, "High entropy (");
            push_text(&mut note, t.as_str());
            push_text(&mut note, ") - possible encryption/compression");
            push_entry(&mut entries, "Entropy", note);
            assert(entries_view(entries@) =~= entropy_entries(note_view(*entropy_note)));
        },
        None => {
            assert(entries_view(entries@) =~= entropy_entries(note_view(*entropy_note)));
        },
    }
    entries
}

/// The findings of the background analysis of `region` from `data`, the
/// bytes read at its start.
pub fn region_findings(region: &MemoryRegion, data: &[u8], entropy_note: &Option<String>, size_mib: &str) -> (entries: Vec<(String, String)>)
    requires
        data@.len() >= preview_length(*region),
    ensures
        entries_view(entries@) == region_findings_entries(*region, data@, note_view(*entropy_note), size_mib@),
{
    let mut entries: Vec<(String, String)> = Vec::new();
    let n: usize = if region.size < 256 {
        region.size
    } else {
        256
    };
    let preview = vstd::slice::slice_subrange(data, 0, n);
    assert(preview@ =~= data@.take(preview_length(*region)));
    push_entry(&mut entries, "hex_data", base64_encode(preview));
    let ghost e1 = entries_view(entries@);
    append_entries(&mut entries, string_findings(data));
    let ghost e2 = entries_view(entries@);
    if has_code_patterns(data) {
        push_entry(&mut entries, "Code", "Contains executable code patterns".to_string());
    }
    let ghost e3 = entries_view(entries@);
    assert(e3 =~= e2 + optional_entry(has_code_window(data@), "Code"@, "Contains executable code patterns"@));
    append_entries(&mut entries, entropy_findings(entropy_note));
    append_entries(&mut entries, layout_findings(region, size_mib));
    assert(entries_view(entries@) =~= region_findings_entries(*region, data@, note_view(*entropy_note), size_mib@));
    entries
}

fn layout_findings(region: &MemoryRegion, size_mib: &str) -> (entries: Vec<(String, String)>)
    ensures
        entries_view(entries@) == layout_entries(*region, size_mib@),
{
    let mut entries: Vec<(String, String)> = Vec::new();
    let protection = protection_text(region.protection);
    if contains_text(protection.as_str(), "EXECUTE") && contains_text(protection.as_str(), "WRITE") {
        push_entry(&mut entries, "Protection", "Suspicious RWX permissions (possible shellcode)".to_string());
    }
    let ghost e5 = entries_view(entries@);
    assert(e5 =~= optional_entry(
        rwx_protection(region.protection),
        "Protection"@,
        "Suspicious RWX permissions (possible shellcode)"@,
    ));
    if region.size >= 1024 * 1024 {
        let mut note = String::new();
        push_text(&mut note, "Large region (");
        push_text(&mut note, size_mib);
        push_text(&mut note, " MB)");
        push_entry(&mut entries, "Size", note);
    }
    let ghost e6 = entries_view(entries@);
    assert(e6 =~= e5 + optional_entry(region.size >= 1024 * 1024, "Size"@, "Large region ("@ + size_mib@ + " MB)"@));
    if region.base_address < 0x10000 {
        push_entry(&mut entries, "Address", "Suspicious low memory address".to_string());
    }
    assert(entries_view(entries@) =~= e6 + optional_entry(region.base_address < 0x10000, "Address"@, "Suspicious low memory address"@));
    entries
}

/// Regions worth a background analysis: not empty and at most 32 MiB.
pub open spec fn analysis_candidate(region: MemoryRegion) -> bool {
    region.size > 0 && region.size <= 32 * 1024 * 1024
}

/// The test that picks the regions worth a background analysis.
pub open spec fn candidate_test() -> spec_fn(MemoryRegion) -> bool {
    |r: MemoryRegion| analysis_candidate(r)
}

/// The background analysis takes exactly the regions of the list that are
/// not empty and hold at most 32 MiB (33554432 bytes), in their order.
pub proof fn lemma_analysis_candidates_by_size(regions: Seq<MemoryRegion>)
    ensures
        forall|k: int|
            0 <= k < regions.filter(candidate_test()).len() ==> {
                let r = #[trigger] regions.filter(candidate_test())[k];
                0 < r.size <= 33554432
            },
        forall|r: MemoryRegion|
            regions.contains(r) && 0 < r.size <= 33554432 ==> #[trigger] regions.filter(candidate_test()).contains(r),
{
    let pred = candidate_test();
    assert forall|k: int| 0 <= k < regions.filter(pred).len() implies {
        let r = #[trigger] regions.filter(pred)[k];
        0 < r.size <= 33554432
    } by {
        regions.lemma_filter_pred(pred, k);
    }
    assert forall|r: MemoryRegion| regions.contains(r) && 0 < r.size <= 33554432 implies #[trigger] regions.filter(
        pred,
    ).contains(r) by {
        let i = choose|i: int| 0 <= i < regions.len() && regions[i] == r;
        regions.lemma_filter_contains(pred, i);
    }
}

/// The regions worth a background analysis, in order.
pub fn analysis_candidates(regions: &Vec<MemoryRegion>) -> (candidates: Vec<MemoryRegion>)
    ensures
        candidates@ == regions@.filter(candidate_test()),
{
    let mut candidates: Vec<MemoryRegion> = Vec::new();
    let mut i: usize = 0;
    while i < regions.len()
        invariant
            i <= regions@.len(),
            candidates@ == regions@.take(i as int).filter(candidate_test()),
        decreases regions.len() - i,
    {
        let r = regions[i];
        proof {
            reveal(Seq::filter);
            assert(regions@.take(i + 1).drop_last() =~= regions@.take(i as int));
        }
        if r.size > 0 && r.size <= 32 * 1024 * 1024 {
            candidates.push(r);
        }
        i = i + 1;
    }
    assert(regions@.take(regions@.len() as int) =~= regions@);
    candidates
}

/// Some finding's value, with its ASCII letters in lower case, contains one
/// of `words`.
pub open spec fn some_value_mentions(findings: Seq<(Seq<char>, Seq<char>)>, words: Seq<Seq<char>>) -> bool {
    exists|i: int, w: int|
        #![trigger findings[i], words[w]]
        0 <= i < findings.len() && 0 <= w < words.len() && text_contains(ascii_lowered(findings[i].1), words[w])
}

/// Whether some finding's value contains one of `words` (given in lower
/// case), ignoring the case of ASCII letters in the value.
pub fn findings_mention(findings: &Vec<(String, String)>, words: &Vec<String>) -> (r: bool)
    ensures
        r == some_value_mentions(entries_view(findings@), texts(words@)),
{
    let mut i: usize = 0;
    while i < findings.len()
        invariant
            i <= findings@.len(),
            forall|k: int, w: int|
                #![trigger findings@[k], words@[w]]
                0 <= k < i && 0 <= w < words@.len() ==> !text_contains(ascii_lowered(findings@[k].1@), words@[w]@),
        decreases findings.len() - i,
    {
        let value = to_ascii_lower(findings[i].1.as_str());
        let mut w: usize = 0;
        while w < words.len()
            invariant
                i < findings@.len(),
                w <= words@.len(),
                value@ == ascii_lowered(findings@[i as int].1@),
                forall|k: int, v: int|
                    #![trigger findings@[k], words@[v]]
                    0 <= k < i && 0 <= v < words@.len() ==> !text_contains(ascii_lowered(findings@[k].1@), words@[v]@),
                forall|v: int| 0 <= v < w ==> !text_contains(ascii_lowered(findings@[i as int].1@), #[trigger] words@[v]@),
            decreases words.len() - w,
        {
            if contains_text(value.as_str(), words[w].as_str()) {
                assert(entries_view(findings@)[i as int] == entry_view(findings@[i as int]));
                assert(texts(words@)[w as int] == words@[w as int]@);
                return true;
            }
            w = w + 1;
        }
        i = i + 1;
    }
    assert forall|k: int, w: int|
        #![trigger entries_view(findings@)[k], texts(words@)[w]]
        0 <= k < entries_view(findings@).len() && 0 <= w < texts(words@).len() implies !text_contains(
        ascii_lowered(entries_view(findings@)[k].1),
        texts(words@)[w],
    ) by {
        assert(findings@[k] == findings@[k]);
        assert(words@[w] == words@[w]);
        assert(entries_view(findings@)[k] == entry_view(findings@[k]));
        assert(texts(words@)[w] == words@[w]@);
    }
    false
}

/// The findings look suspicious: some value mentions "suspicious" or
/// "unusual", in any case of letters (such regions are highlighted).
pub fn findings_look_suspicious(findings: &Vec<(String, String)>) -> (r: bool)
    ensures
        r == some_value_mentions(entries_view(findings@), seq!["suspicious"@, "unusual"@]),
{
    let words = vec!["suspicious".to_string(), "unusual".to_string()];
    assert(texts(words@) =~= seq!["suspicious"@, "unusual"@]);
    findings_mention(findings, &words)
}

/// Some finding's value contains `word` exactly (letter case counts).
pub open spec fn some_value_contains(findings: Seq<(Seq<char>, Seq<char>)>, word: Seq<char>) -> bool {
    exists|i: int| 0 <= i < findings.len() && text_contains(#[trigger] findings[i].1, word)
}

/// The findings count as suspicious in the statistics: some value contains
/// "suspicious" in lower case (a value that only says "Suspicious" does not
/// count).
pub fn findings_mention_suspicious(findings: &Vec<(String, String)>) -> (r: bool)
    ensures
        r == some_value_contains(entries_view(findings@), "suspicious"@),
{
    let mut i: usize = 0;
    while i < findings.len()
        invariant
            i <= findings@.len(),
            forall|k: int| 0 <= k < i ==> !text_contains(#[trigger] findings@[k].1@, "suspicious"@),
        decreases findings.len() - i,
    {
        if contains_text(findings[i].1.as_str(), "suspicious") {
            assert(entries_view(findings@)[i as int] == entry_view(findings@[i as int]));
            assert(text_contains(entries_view(findings@)[i as int].1, "suspicious"@));
            return true;
        }
        i = i + 1;
    }
    assert forall|k: int| 0 <= k < entries_view(findings@).len() implies !text_contains(
        #[trigger] entries_view(findings@)[k].1,
        "suspicious"@,
    ) by {
        assert(entries_view(findings@)[k] == entry_view(findings@[k]));
    }
    false
}

/// The value of the first entry with key `key`, if any.
pub open spec fn entry_value(entries: Seq<(Seq<char>, Seq<char>)>, key: Seq<char>) -> Option<Seq<char>>
    decreases entries.len(),
{
    if entries.len() == 0 {
        None
    } else if entries[0].0 == key {
        Some(entries[0].1)
    } else {
        entry_value(entries.drop_first(), key)
    }
}

/// The bytes of the memory preview that findings carry: what the value
/// under "hex_data" decodes to, where there is one and it decodes.  Text
/// that `base64::encode` wrote decodes back to the bytes it was made from.
pub fn preview_bytes(findings: &Vec<(String, String)>) -> (r: Option<Vec<u8>>)
    ensures
        contents_view(r) == match entry_value(entries_view(findings@), "hex_data"@) {
            Some(t) => base64_decoded(t),
            None => None,
        },
        forall|d: Seq<u8>|
            entry_value(entries_view(findings@), "hex_data"@) == Some(#[trigger] base64_text(d))
                ==> contents_view(r) == Some(d),
{
    let ghost all = entries_view(findings@);
    assert(all.skip(0) =~= all);
    let mut i: usize = 0;
    while i < findings.len()
        invariant
            i <= findings@.len(),
            all == entries_view(findings@),
            entry_value(all, "hex_data"@) == entry_value(all.skip(i as int), "hex_data"@),
        decreases findings.len() - i,
    {
        assert(all.skip(i as int)[0] == entry_view(findings@[i as int]));
        assert(all.skip(i as int).drop_first() =~= all.skip(i + 1));
        if texts_equal(findings[i].0.as_str(), "hex_data") {
            return base64_decode(findings[i].1.as_str());
        }
        i = i + 1;
    }
    None
}

/// An entry other than the memory preview.
pub open spec fn not_preview() -> spec_fn((Seq<char>, Seq<char>)) -> bool {
    |e: (Seq<char>, Seq<char>)| e.0 != "hex_data"@
}

/// The findings listed by name and value: all but the memory preview, in order.
pub fn listed_findings(findings: &Vec<(String, String)>) -> (listed: Vec<(String, String)>)
    ensures
        entries_view(listed@) == entries_view(findings@).filter(not_preview()),
{
    let ghost all = entries_view(findings@);
    let mut listed: Vec<(String, String)> = Vec::new();
    let mut i: usize = 0;
    while i < findings.len()
        invariant
            i <= findings@.len(),
            all == entries_view(findings@),
            entries_view(listed@) == all.take(i as int).filter(not_preview()),
        decreases findings.len() - i,
    {
        proof {
            reveal(Seq::filter);
            assert(all.take(i + 1).drop_last() =~= all.take(i as int));
            assert(all.take(i + 1).last() == entry_view(findings@[i as int]));
        }
        if !texts_equal(findings[i].0.as_str(), "hex_data") {
            let key = findings[i].0.clone();
            let value = findings[i].1.clone();
            let ghost before = listed@;
            listed.push((key, value));
            assert(entries_view(listed@) =~= entries_view(before).push(entry_view(findings@[i as int])));
        }
        i = i + 1;
    }
    assert(all.take(findings@.len() as int) =~= all);
    listed
}

/// The findings of a region analysis carry, under "hex_data", the base64
/// text of the first bytes read: at most 256, and no more than the region
/// holds.
pub proof fn lemma_findings_preview(
    region: MemoryRegion,
    data: Seq<u8>,
    entropy_note: Option<Seq<char>>,
    size_mib: Seq<char>,
)
    ensures
        entry_value(region_findings_entries(region, data, entropy_note, size_mib), "hex_data"@) == Some(
            base64_text(data.take(preview_length(region))),
        ),
{
    let e = region_findings_entries(region, data, entropy_note, size_mib);
    assert(e[0] == ("hex_data"@, base64_text(data.take(preview_length(region)))));
}

/// The password lines of memory hold no line twice, and they are exactly the
/// lines of its text that contain "pass" or "pwd", with no other condition
/// (whatever their length or other content).
pub proof fn lemma_password_lines(data: Seq<u8>)
    ensures
        password_lines(data).no_duplicates(),
        forall|x: Seq<char>|
            #[trigger] password_lines(data).contains(x) <==> (text_lines(utf8_lossy(data)).contains(x) && (
            text_contains(x, "pass"@) || text_contains(x, "pwd"@))),
{
    let all = text_lines(utf8_lossy(data));
    let pred = password_filter();
    lemma_dedup(all.filter(pred));
    assert forall|x: Seq<char>| #[trigger]
        password_lines(data).contains(x) <==> (all.contains(x) && mentions_password(x)) by {
        assert(password_lines(data) == dedup(all.filter(pred)));
        assert(dedup(all.filter(pred)).contains(x) <==> all.filter(pred).contains(x));
        if all.filter(pred).contains(x) {
            all.lemma_filter_contains_rev(pred, x);
            let k = choose|k: int| 0 <= k < all.filter(pred).len() && all.filter(pred)[k] == x;
            all.lemma_filter_pred(pred, k);
            assert(pred(x));
        }
        if all.contains(x) && mentions_password(x) {
            let k = choose|k: int| 0 <= k < all.len() && all[k] == x;
            all.lemma_filter_contains(pred, k);
        }
    }
}

/// The password entry of a full analysis (the password lines joined by
/// "\n", see `memory_data_value`) splits at its line feeds back into exactly
/// the password lines that `find_potential_passwords` returns.
pub proof fn lemma_password_entry_splits_back(data: Seq<u8>)
    ensures
        password_lines(data).len() > 0 ==> split_newlines(join(password_lines(data), "\n"@)) == password_lines(
            data,
        ),
{
    let lines = password_lines(data);
    if lines.len() > 0 {
        lemma_password_lines(data);
        lemma_text_lines_no_newline(utf8_lossy(data));
        let all = text_lines(utf8_lossy(data));
        assert forall|k: int| 0 <= k < lines.len() implies no_newline(#[trigger] lines[k]) by {
            assert(lines.contains(lines[k]));
            assert(all.contains(lines[k]));
            let j = choose|j: int| 0 <= j < all.len() && all[j] == lines[k];
            assert(no_newline(all[j]));
        }
        lemma_split_join(lines);
    }
}

/// The background analysis of a region reports the finding "Protection" =>
/// "Suspicious RWX permissions (possible shellcode)" exactly when the text of
/// the region's protection names both "EXECUTE" and "WRITE" (so for
/// PAGE_EXECUTE_READWRITE, and not for PAGE_EXECUTE_READ), and no other
/// "Protection" finding.
pub proof fn lemma_protection_finding(
    region: MemoryRegion,
    data: Seq<u8>,
    entropy_note: Option<Seq<char>>,
    size_mib: Seq<char>,
)
    ensures
        entry_value(region_findings_entries(region, data, entropy_note, size_mib), "Protection"@) == if text_contains(
            protection_label(region.protection),
            "EXECUTE"@,
        ) && text_contains(protection_label(region.protection), "WRITE"@) {
            Some("Suspicious RWX permissions (possible shellcode)"@)
        } else {
            None
        },
{
    let key = "Protection"@;
    reveal_strlit("Protection");
    reveal_strlit("hex_data");
    reveal_strlit("Strings");
    reveal_strlit("string_preview");
    reveal_strlit("Code");
    reveal_strlit("Entropy");
    reveal_strlit("Size");
    reveal_strlit("Address");
    assert(key.len() == 10);
    assert("hex_data"@.len() == 8 && "Strings"@.len() == 7 && "string_preview"@.len() == 14);
    assert("Code"@.len() == 4 && "Entropy"@.len() == 7 && "Size"@.len() == 4 && "Address"@.len() == 7);
    let hex = seq![("hex_data"@, base64_text(data.take(preview_length(region))))];
    let runs = string_entries(data);
    let code = optional_entry(has_code_window(data), "Code"@, "Contains executable code patterns"@);
    let high = entropy_entries(entropy_note);
    let layout = layout_entries(region, size_mib);
    let msg = "Suspicious RWX permissions (possible shellcode)"@;
    let rwx = text_contains(protection_label(region.protection), "EXECUTE"@) && text_contains(
        protection_label(region.protection),
        "WRITE"@,
    );
    // The preview, the strings, code and entropy findings have other keys.
    assert(hex =~= optional_entry(true, "hex_data"@, base64_text(data.take(preview_length(region)))));
    lemma_entry_value_optional(true, "hex_data"@, base64_text(data.take(preview_length(region))), key);
    let some_runs = run_texts(data).len() > 0;
    let count_text = "Found "@ + decimal(run_texts(data).len()) + " interesting strings"@;
    let preview_text = join(first_n(run_texts(data), 3), ", "@);
    assert(runs =~= optional_entry(some_runs, "Strings"@, count_text) + optional_entry(
        some_runs,
        "string_preview"@,
        preview_text,
    ));
    lemma_entry_value_optional(some_runs, "Strings"@, count_text, key);
    lemma_entry_value_optional(some_runs, "string_preview"@, preview_text, key);
    lemma_entry_value_append(
        optional_entry(some_runs, "Strings"@, count_text),
        optional_entry(some_runs, "string_preview"@, preview_text),
        key,
    );
    lemma_entry_value_optional(has_code_window(data), "Code"@, "Contains executable code patterns"@, key);
    match entropy_note {
        Some(t) => {
            let note = "High entropy ("@ + t + ") - possible encryption/compression"@;
            assert(high =~= optional_entry(true, "Entropy"@, note));
            lemma_entry_value_optional(true, "Entropy"@, note, key);
        },
        None => {
            assert(high =~= optional_entry(false, "Entropy"@, Seq::<char>::empty()));
            lemma_entry_value_optional(false, "Entropy"@, Seq::<char>::empty(), key);
        },
    }
    // The layout findings: the protection one first, then size and address.
    let size_entry = optional_entry(region.size >= 1024 * 1024, "Size"@, "Large region ("@ + size_mib + " MB)"@);
    let address_entry = optional_entry(region.base_address < 0x10000, "Address"@, "Suspicious low memory address"@);
    lemma_entry_value_optional(rwx_protection(region.protection), key, msg, key);
    lemma_entry_value_optional(region.size >= 1024 * 1024, "Size"@, "Large region ("@ + size_mib + " MB)"@, key);
    lemma_entry_value_optional(region.base_address < 0x10000, "Address"@, "Suspicious low memory address"@, key);
    lemma_entry_value_append(optional_entry(rwx_protection(region.protection), key, msg), size_entry, key);
    lemma_entry_value_append(optional_entry(rwx_protection(region.protection), key, msg) + size_entry, address_entry, key);
    assert(layout == optional_entry(rwx_protection(region.protection), key, msg) + size_entry + address_entry);
    lemma_entry_value_append(hex, runs, key);
    lemma_entry_value_append(hex + runs, code, key);
    lemma_entry_value_append(hex + runs + code, high, key);
    lemma_entry_value_append(hex + runs + code + high, layout, key);
    assert(region_findings_entries(region, data, entropy_note, size_mib) == hex + runs + code + high + layout);
}

} // verus!
