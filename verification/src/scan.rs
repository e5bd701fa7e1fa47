//! Scans over raw memory bytes: printable-text runs, instruction
//! patterns, file signatures, pattern search and byte counts.

use vstd::prelude::*;

verus! {

/// `u8::is_ascii_alphanumeric`: '0'..='9', 'A'..='Z', 'a'..='z'.
pub open spec fn is_ascii_alphanumeric(b: u8) -> bool {
    (48 <= b <= 57) || (65 <= b <= 90) || (97 <= b <= 122)
}

/// `u8::is_ascii_punctuation`: the graphic ASCII characters that are not alphanumeric.
pub open spec fn is_ascii_punctuation(b: u8) -> bool {
    (33 <= b <= 47) || (58 <= b <= 64) || (91 <= b <= 96) || (123 <= b <= 126)
}

/// A byte that belongs to a run of printable text.
pub open spec fn is_text_byte(b: u8) -> bool {
    is_ascii_alphanumeric(b) || is_ascii_punctuation(b)
}

/// The characters that a run of ASCII bytes spells.
pub open spec fn ascii_chars(bytes: Seq<u8>) -> Seq<char> {
    bytes.map_values(|b: u8| b as char)
}

/// Left-to-right scan for text runs.  The first component holds the runs
/// already reported (those of at least four bytes that a non-text byte ended),
/// the second the run still open at the end of `data`.
pub open spec fn text_run_scan(data: Seq<u8>) -> (Seq<Seq<u8>>, Seq<u8>)
    decreases data.len(),
{
    if data.len() == 0 {
        (Seq::empty(), Seq::empty())
    } else {
        let (found, current) = text_run_scan(data.drop_last());
        let b = data.last();
        if is_text_byte(b) {
            (found, current.push(b))
        } else if current.len() >= 4 {
            (found.push(current), Seq::empty())
        } else {
            (found, Seq::empty())
        }
    }
}

/// The text runs reported for `data`.  A run still open at the end of the
/// data is not reported.
pub open spec fn text_runs(data: Seq<u8>) -> Seq<Seq<u8>> {
    text_run_scan(data).0
}

/// Every reported run has at least four bytes, all of them text bytes.
pub proof fn lemma_text_runs_shape(data: Seq<u8>)
    ensures
        forall|k: int|
            0 <= k < text_runs(data).len() ==> #[trigger] text_runs(data)[k].len() >= 4,
        forall|k: int, j: int|
            0 <= k < text_runs(data).len() && 0 <= j < text_runs(data)[k].len()
                ==> is_text_byte(#[trigger] text_runs(data)[k][j]),
        forall|j: int|
            0 <= j < text_run_scan(data).1.len() ==> is_text_byte(#[trigger] text_run_scan(data).1[j]),
    decreases data.len(),
{
    if data.len() > 0 {
        lemma_text_runs_shape(data.drop_last());
        let found = text_runs(data.drop_last());
        let current = text_run_scan(data.drop_last()).1;
        let b = data.last();
        if is_text_byte(b) {
            assert(text_run_scan(data) == (found, current.push(b)));
            assert forall|j: int| 0 <= j < current.push(b).len() implies is_text_byte(
                #[trigger] current.push(b)[j],
            ) by {
                if j < current.len() {
                    assert(current.push(b)[j] == current[j]);
                }
            }
        } else if current.len() >= 4 {
            assert(text_run_scan(data) == (found.push(current), Seq::<u8>::empty()));
            assert forall|k: int| 0 <= k < found.push(current).len() implies #[trigger] found.push(
                current,
            )[k].len() >= 4 by {
                if k < found.len() {
                    assert(found.push(current)[k] == found[k]);
                }
            }
            assert forall|k: int, j: int|
                0 <= k < found.push(current).len() && 0 <= j < found.push(current)[k].len()
                    implies is_text_byte(#[trigger] found.push(current)[k][j]) by {
                if k < found.len() {
                    assert(found.push(current)[k] == found[k]);
                } else {
                    assert(found.push(current)[k] == current);
                }
            }
        } else {
            assert(text_run_scan(data) == (found, Seq::<u8>::empty()));
        }
    }
}

fn is_text_byte_exec(b: u8) -> (r: bool)
    ensures
        r == is_text_byte(b),
{
    (48 <= b && b <= 57) || (65 <= b && b <= 90) || (97 <= b && b <= 122) || (33 <= b && b
        <= 47) || (58 <= b && b <= 64) || (91 <= b && b <= 96) || (123 <= b && b <= 126)
}

/// The bytes that belong to text runs are exactly the printable ASCII
/// characters other than space, '!' (33) through '~' (126): the digits, the
/// letters of both cases and the punctuation.
pub proof fn lemma_text_byte_is_printable(b: u8)
    ensures
        is_text_byte(b) <==> 33 <= b <= 126,
{
}

/// Scanning bytes that are all printable keeps them all in the open run.
proof fn lemma_scan_printable(r: Seq<u8>)
    requires
        forall|k: int| 0 <= k < r.len() ==> 33 <= #[trigger] r[k] <= 126,
    ensures
        text_run_scan(r) == (Seq::<Seq<u8>>::empty(), r),
    decreases r.len(),
{
    if r.len() == 0 {
        assert(r =~= Seq::<u8>::empty());
    } else {
        let rest = r.drop_last();
        assert forall|k: int| 0 <= k < rest.len() implies 33 <= #[trigger] rest[k] <= 126 by {
            assert(rest[k] == r[k]);
        }
        lemma_scan_printable(rest);
        assert(33 <= r[r.len() - 1] <= 126);
        assert(rest.push(r.last()) =~= r);
    }
}

/// A run of printable ASCII bytes (digits, letters of both cases,
/// punctuation) ended by a zero byte is reported whole, as one string, when
/// it has at least four bytes, and not at all when it is shorter; a run that
/// the data ends without a terminating byte is not reported.
pub proof fn lemma_text_run_reported(r: Seq<u8>)
    requires
        forall|k: int| 0 <= k < r.len() ==> 33 <= #[trigger] r[k] <= 126,
    ensures
        text_runs(r.push(0u8)) == if r.len() >= 4 {
            seq![r]
        } else {
            Seq::<Seq<u8>>::empty()
        },
        text_runs(r) == Seq::<Seq<u8>>::empty(),
{
    lemma_scan_printable(r);
    assert(r.push(0u8).drop_last() =~= r);
    assert(r.push(0u8).last() == 0u8);
    assert(!is_text_byte(0u8));
    if r.len() >= 4 {
        assert(Seq::<Seq<u8>>::empty().push(r) =~= seq![r]);
    }
}

/// The string that a run of ASCII bytes spells.
pub fn ascii_string(bytes: &[u8]) -> (s: String)
    ensures
        s@ == ascii_chars(bytes@),
{
    let mut s = String::new();
    let mut i: usize = 0;
    while i < bytes.len()
        invariant
            i <= bytes.len(),
            s@ == ascii_chars(bytes@.take(i as int)),
        decreases bytes.len() - i,
    {
        s.push(bytes[i] as char);
        i = i + 1;
        assert(ascii_chars(bytes@.take(i as int)) =~= ascii_chars(bytes@.take(i - 1)).push(
            bytes@[i - 1] as char,
        ));
    }
    assert(bytes@.take(i as int) =~= bytes@);
    s
}

/// The runs of at least four printable ASCII bytes (letters, digits,
/// punctuation) that a non-printable byte ends, in the order they occur.
pub fn extract_strings(data: &[u8]) -> (strings: Vec<String>)
    ensures
        strings@.len() == text_runs(data@).len(),
        forall|k: int|
            0 <= k < strings@.len() ==> #[trigger] strings@[k]@ == ascii_chars(text_runs(data@)[k]),
{
    let mut strings: Vec<String> = Vec::new();
    let mut current: Vec<u8> = Vec::new();
    let mut i: usize = 0;
    while i < data.len()
        invariant
            i <= data.len(),
            strings@.len() == text_run_scan(data@.take(i as int)).0.len(),
            forall|k: int|
                0 <= k < strings@.len() ==> #[trigger] strings@[k]@ == ascii_chars(
                    text_run_scan(data@.take(i as int)).0[k],
                ),
            current@ == text_run_scan(data@.take(i as int)).1,
        decreases data.len() - i,
    {
        let b = data[i];
        assert(data@.take(i + 1).drop_last() =~= data@.take(i as int));
        if is_text_byte_exec(b) {
            current.push(b);
        } else if current.len() > 0 {
            if current.len() >= 4 {
                let s = ascii_string(current.as_slice());
                strings.push(s);
            }
            current.clear();
        }
        i = i + 1;
    }
    assert(data@.take(i as int) =~= data@);
    strings
}

/// As `extract_strings`, but `None` where no run is found.
pub fn detect_strings(data: &[u8]) -> (found: Option<Vec<String>>)
    ensures
        found is None <==> text_runs(data@).len() == 0,
        found matches Some(strings) ==> {
            &&& strings@.len() == text_runs(data@).len()
            &&& forall|k: int|
                0 <= k < strings@.len() ==> #[trigger] strings@[k]@ == ascii_chars(
                    text_runs(data@)[k],
                )
        },
{
    let strings = extract_strings(data);
    if strings.len() == 0 {
        None
    } else {
        Some(strings)
    }
}

/// `pattern` occurs in `data` starting at index `i`.
pub open spec fn occurs_at(data: Seq<u8>, pattern: Seq<u8>, i: int) -> bool {
    0 <= i && i + pattern.len() <= data.len() && data.subrange(i, i + pattern.len()) == pattern
}

/// `pattern` occurs somewhere in `data`.
pub open spec fn occurs(data: Seq<u8>, pattern: Seq<u8>) -> bool {
    exists|i: int| occurs_at(data, pattern, i)
}

/// Whether `pattern` occurs in `data` at index `i`.
pub fn matches_at(data: &[u8], pattern: &[u8], i: usize) -> (r: bool)
    requires
        i + pattern@.len() <= data@.len(),
    ensures
        r == occurs_at(data@, pattern@, i as int),
{
    let mut j: usize = 0;
    while j < pattern.len()
        invariant
            i + pattern.len() <= data.len(),
            j <= pattern@.len(),
            forall|k: int| 0 <= k < j ==> data@[i + k] == pattern@[k],
        decreases pattern.len() - j,
    {
        if data[i + j] != pattern[j] {
            assert(data@.subrange(i as int, i + pattern@.len())[j as int] != pattern@[j as int]);
            return false;
        }
        j = j + 1;
    }
    assert(data@.subrange(i as int, i + pattern@.len()) =~= pattern@);
    true
}

/// Whether `pattern` occurs anywhere in `data`.
pub fn contains_pattern(data: &[u8], pattern: &[u8]) -> (r: bool)
    ensures
        r == occurs(data@, pattern@),
{
    if pattern.len() == 0 {
        assert(data@.subrange(0, 0) =~= pattern@);
        assert(occurs_at(data@, pattern@, 0));
        return true;
    }
    if pattern.len() > data.len() {
        assert(forall|i: int| !occurs_at(data@, pattern@, i));
        return false;
    }
    let last = data.len() - pattern.len();
    let mut i: usize = 0;
    while i <= last
        invariant
            pattern.len() > 0,
            pattern.len() <= data.len(),
            last == data.len() - pattern.len(),
            i <= last + 1,
            forall|k: int| 0 <= k < i ==> !occurs_at(data@, pattern@, k),
        decreases last + 1 - i,
    {
        if matches_at(data, pattern, i) {
            return true;
        }
        i = i + 1;
    }
    assert(forall|k: int| !occurs_at(data@, pattern@, k));
    false
}

/// The byte sequences whose presence marks shell code.
pub open spec fn shellcode_patterns() -> Seq<Seq<u8>> {
    seq![seq![0x55u8, 0x8Bu8, 0xECu8], seq![0x33u8, 0xC0u8], seq![0x89u8, 0xE5u8], seq![0x31u8, 0xC0u8]]
}

/// One of the shell-code patterns occurs in `data`.
pub open spec fn has_shellcode(data: Seq<u8>) -> bool {
    exists|p: int| 0 <= p < shellcode_patterns().len() && occurs(data, #[trigger] shellcode_patterns()[p])
}

/// Whether one of the shell-code patterns (`push ebp; mov ebp, esp`,
/// `xor eax, eax`, `mov ebp, esp`) occurs in `data`.
pub fn contains_shellcode(data: &[u8]) -> (r: bool)
    ensures
        r == has_shellcode(data@),
{
    let patterns: Vec<Vec<u8>> = vec![
        vec![0x55u8, 0x8Bu8, 0xECu8],
        vec![0x33u8, 0xC0u8],
        vec![0x89u8, 0xE5u8],
        vec![0x31u8, 0xC0u8],
    ];
    assert(patterns@[0]@ =~= shellcode_patterns()[0]);
    assert(patterns@[1]@ =~= shellcode_patterns()[1]);
    assert(patterns@[2]@ =~= shellcode_patterns()[2]);
    assert(patterns@[3]@ =~= shellcode_patterns()[3]);
    let mut p: usize = 0;
    while p < patterns.len()
        invariant
            patterns@.len() == 4,
            p <= 4,
            forall|q: int| 0 <= q < 4 ==> #[trigger] patterns@[q]@ == shellcode_patterns()[q],
            forall|q: int| 0 <= q < p ==> !occurs(data@, #[trigger] shellcode_patterns()[q]),
        decreases 4 - p,
    {
        if contains_pattern(data, patterns[p].as_slice()) {
            assert(occurs(data@, shellcode_patterns()[p as int]));
            return true;
        }
        p = p + 1;
    }
    false
}

/// The bytes at `i` spell one of the shell-code patterns: 55 8B EC
/// (push ebp; mov ebp, esp), 33 C0 or 31 C0 (xor eax, eax), 89 E5 (mov ebp, esp).
pub open spec fn shellcode_bytes_at(data: Seq<u8>, i: int) -> bool {
    ||| i + 3 <= data.len() && data[i] == 0x55u8 && data[i + 1] == 0x8Bu8 && data[i + 2] == 0xECu8
    ||| i + 2 <= data.len() && data[i] == 0x33u8 && data[i + 1] == 0xC0u8
    ||| i + 2 <= data.len() && data[i] == 0x89u8 && data[i + 1] == 0xE5u8
    ||| i + 2 <= data.len() && data[i] == 0x31u8 && data[i + 1] == 0xC0u8
}

/// Data holds shell code exactly when the bytes 55 8B EC, 33 C0, 89 E5 or
/// 31 C0 occur somewhere in it.
pub proof fn lemma_shellcode_is_pattern_bytes(data: Seq<u8>)
    ensures
        has_shellcode(data) <==> exists|i: int| 0 <= i && #[trigger] shellcode_bytes_at(data, i),
{
    let ps = shellcode_patterns();
    if has_shellcode(data) {
        let p = choose|p: int| 0 <= p < ps.len() && occurs(data, #[trigger] ps[p]);
        let i = choose|i: int| occurs_at(data, ps[p], i);
        let w = data.subrange(i, i + ps[p].len());
        assert(w == ps[p]);
        assert(w[0] == data[i] && w[1] == data[i + 1]);
        if p == 0 {
            assert(w[2] == data[i + 2]);
        }
        assert(shellcode_bytes_at(data, i));
    }
    if exists|i: int| 0 <= i && #[trigger] shellcode_bytes_at(data, i) {
        let i = choose|i: int| 0 <= i && #[trigger] shellcode_bytes_at(data, i);
        if i + 3 <= data.len() && data[i] == 0x55u8 && data[i + 1] == 0x8Bu8 && data[i + 2] == 0xECu8 {
            assert(data.subrange(i, i + 3) =~= ps[0]);
            assert(occurs_at(data, ps[0], i));
            assert(occurs(data, ps[0]));
        } else if i + 2 <= data.len() && data[i] == 0x33u8 && data[i + 1] == 0xC0u8 {
            assert(data.subrange(i, i + 2) =~= ps[1]);
            assert(occurs_at(data, ps[1], i));
            assert(occurs(data, ps[1]));
        } else if i + 2 <= data.len() && data[i] == 0x89u8 && data[i + 1] == 0xE5u8 {
            assert(data.subrange(i, i + 2) =~= ps[2]);
            assert(occurs_at(data, ps[2], i));
            assert(occurs(data, ps[2]));
        } else {
            assert(data.subrange(i, i + 2) =~= ps[3]);
            assert(occurs_at(data, ps[3], i));
            assert(occurs(data, ps[3]));
        }
    }
}

/// The instruction prefixes whose presence marks executable code.
pub open spec fn code_patterns() -> Seq<Seq<u8>> {
    seq![seq![0x55u8, 0x48u8, 0x89u8, 0xe5u8], seq![0x48u8, 0x83u8, 0xecu8], seq![0xc3u8], seq![0xe8u8], seq![0xffu8, 0x25u8]]
}

/// A four-byte window starts at `i` and begins with one of the code patterns.
pub open spec fn code_window_at(data: Seq<u8>, i: int) -> bool {
    0 <= i && i + 4 <= data.len() && exists|p: int|
        0 <= p < code_patterns().len() && occurs_at(data, #[trigger] code_patterns()[p], i)
}

/// Some four-byte window of `data` begins with one of the code patterns.
pub open spec fn has_code_window(data: Seq<u8>) -> bool {
    exists|i: int| code_window_at(data, i)
}

/// The four bytes at `i` begin with one of the instruction prefixes that mark
/// code: 55 48 89 E5 (push rbp; mov rbp, rsp), 48 83 EC (sub rsp, ..),
/// C3 (ret), E8 (call) or FF 25 (jmp [rip+..]).
pub open spec fn code_prefix_bytes_at(data: Seq<u8>, i: int) -> bool {
    ||| data[i] == 0x55u8 && data[i + 1] == 0x48u8 && data[i + 2] == 0x89u8 && data[i + 3] == 0xe5u8
    ||| data[i] == 0x48u8 && data[i + 1] == 0x83u8 && data[i + 2] == 0xecu8
    ||| data[i] == 0xc3u8
    ||| data[i] == 0xe8u8
    ||| data[i] == 0xffu8 && data[i + 1] == 0x25u8
}

/// Data holds executable code exactly when some four-byte window of it
/// begins with one of the five instruction prefixes 55 48 89 E5, 48 83 EC,
/// C3, E8 or FF 25.
pub proof fn lemma_code_windows_are_prefixes(data: Seq<u8>)
    ensures
        forall|i: int| 0 <= i && i + 4 <= data.len() ==> (code_window_at(data, i) <==> code_prefix_bytes_at(data, i)),
        has_code_window(data) <==> exists|i: int|
            0 <= i && i + 4 <= data.len() && #[trigger] code_prefix_bytes_at(data, i),
{
    assert forall|i: int| 0 <= i && i + 4 <= data.len() implies (code_window_at(data, i) <==> code_prefix_bytes_at(
        data,
        i,
    )) by {
        let ps = code_patterns();
        if code_window_at(data, i) {
            let p = choose|p: int| 0 <= p < ps.len() && occurs_at(data, #[trigger] ps[p], i);
            let w = data.subrange(i, i + ps[p].len());
            assert(w == ps[p]);
            assert(w[0] == data[i]);
            if ps[p].len() > 1 {
                assert(w[1] == data[i + 1]);
            }
            if ps[p].len() > 2 {
                assert(w[2] == data[i + 2]);
            }
            if ps[p].len() > 3 {
                assert(w[3] == data[i + 3]);
            }
        }
        if code_prefix_bytes_at(data, i) {
            if data[i] == 0x55u8 && data[i + 1] == 0x48u8 && data[i + 2] == 0x89u8 && data[i + 3] == 0xe5u8 {
                assert(data.subrange(i, i + 4) =~= ps[0]);
                assert(occurs_at(data, ps[0], i));
            } else if data[i] == 0x48u8 && data[i + 1] == 0x83u8 && data[i + 2] == 0xecu8 {
                assert(data.subrange(i, i + 3) =~= ps[1]);
                assert(occurs_at(data, ps[1], i));
            } else if data[i] == 0xc3u8 {
                assert(data.subrange(i, i + 1) =~= ps[2]);
                assert(occurs_at(data, ps[2], i));
            } else if data[i] == 0xe8u8 {
                assert(data.subrange(i, i + 1) =~= ps[3]);
                assert(occurs_at(data, ps[3], i));
            } else {
                assert(data.subrange(i, i + 2) =~= ps[4]);
                assert(occurs_at(data, ps[4], i));
            }
        }
    }
    if has_code_window(data) {
        let i = choose|i: int| code_window_at(data, i);
        assert(code_prefix_bytes_at(data, i));
    }
    if exists|i: int| 0 <= i && i + 4 <= data.len() && #[trigger] code_prefix_bytes_at(data, i) {
        let i = choose|i: int| 0 <= i && i + 4 <= data.len() && #[trigger] code_prefix_bytes_at(data, i);
        assert(code_window_at(data, i));
    }
}

/// Whether some four-byte window of `data` begins with one of the code
/// patterns.  Data shorter than four bytes has no window.
pub fn has_code_patterns(data: &[u8]) -> (r: bool)
    ensures
        r == has_code_window(data@),
{
    if data.len() < 4 {
        return false;
    }
    let patterns: Vec<Vec<u8>> = vec![
        vec![0x55u8, 0x48u8, 0x89u8, 0xe5u8],
        vec![0x48u8, 0x83u8, 0xecu8],
        vec![0xc3u8],
        vec![0xe8u8],
        vec![0xffu8, 0x25u8],
    ];
    assert(patterns@[0]@ =~= code_patterns()[0]);
    assert(patterns@[1]@ =~= code_patterns()[1]);
    assert(patterns@[2]@ =~= code_patterns()[2]);
    assert(patterns@[3]@ =~= code_patterns()[3]);
    assert(patterns@[4]@ =~= code_patterns()[4]);
    let last = data.len() - 4;
    let mut i: usize = 0;
    while i <= last
        invariant
            data.len() >= 4,
            last == data.len() - 4,
            i <= last + 1,
            patterns@.len() == 5,
            forall|q: int| 0 <= q < 5 ==> #[trigger] patterns@[q]@ == code_patterns()[q],
            forall|k: int| 0 <= k < i ==> !code_window_at(data@, k),
        decreases last + 1 - i,
    {
        let mut p: usize = 0;
        while p < patterns.len()
            invariant
                data@.len() >= 4,
                i <= data@.len() - 4,
                patterns@.len() == 5,
                p <= 5,
                forall|q: int| 0 <= q < 5 ==> #[trigger] patterns@[q]@ == code_patterns()[q],
                forall|q: int| 0 <= q < p ==> !occurs_at(data@, #[trigger] code_patterns()[q], i as int),
            decreases 5 - p,
        {
            if matches_at(data, patterns[p].as_slice(), i) {
                assert(occurs_at(data@, code_patterns()[p as int], i as int));
                assert(code_window_at(data@, i as int));
                return true;
            }
            p = p + 1;
        }
        i = i + 1;
    }
    assert forall|k: int| !code_window_at(data@, k) by {
        if 0 <= k && k + 4 <= data@.len() {
            assert(k < i);
        }
    }
    false
}

/// `data` begins with `prefix`.
pub open spec fn starts_with(data: Seq<u8>, prefix: Seq<u8>) -> bool {
    data.len() >= prefix.len() && data.take(prefix.len() as int) == prefix
}

/// The file signatures, in the order they are checked, with their descriptions.
pub open spec fn file_signature_table() -> Seq<(Seq<u8>, Seq<char>)> {
    seq![
        (seq![0x89u8, 0x50u8, 0x4Eu8, 0x47u8, 0x0Du8, 0x0Au8, 0x1Au8, 0x0Au8], "PNG Image"@),
        (seq![0x47u8, 0x49u8, 0x46u8, 0x38u8, 0x37u8, 0x61u8], "GIF Image"@),
        (seq![0x47u8, 0x49u8, 0x46u8, 0x38u8, 0x39u8, 0x61u8], "GIF Image"@),
        (seq![0xFFu8, 0xD8u8, 0xFFu8], "JPEG Image"@),
        (seq![0x50u8, 0x4Bu8, 0x03u8, 0x04u8], "ZIP Archive"@),
        (seq![0x4Du8, 0x5Au8], "Windows Executable"@),
        (seq![0x25u8, 0x50u8, 0x44u8, 0x46u8], "PDF Document"@),
    ]
}

/// The descriptions of the table entries among the first `n` whose
/// signature begins `data`, in table order.
pub open spec fn signatures_upto(data: Seq<u8>, n: int) -> Seq<Seq<char>>
    decreases n,
{
    if n <= 0 {
        Seq::empty()
    } else {
        let rest = signatures_upto(data, n - 1);
        let entry = file_signature_table()[n - 1];
        if starts_with(data, entry.0) {
            rest.push(entry.1)
        } else {
            rest
        }
    }
}

/// The descriptions of all file signatures that begin `data`, in table order.
pub open spec fn file_signatures(data: Seq<u8>) -> Seq<Seq<char>> {
    signatures_upto(data, file_signature_table().len() as int)
}

/// The file signatures that `data` begins with, by its first bytes: a PNG
/// image (89 50 4E 47 0D 0A 1A 0A), a GIF image (47 49 46 38 37 61 or
/// 47 49 46 38 39 61), a JPEG image (FF D8 FF), a ZIP archive (50 4B 03 04),
/// a Windows executable (4D 5A, "MZ") or a PDF document (25 50 44 46,
/// "%PDF").  No two of these can begin the same data, so at most one is
/// reported.
pub proof fn lemma_file_signatures_by_header(data: Seq<u8>)
    ensures
        file_signatures(data) == if data.len() >= 8 && data[0] == 0x89u8 && data[1] == 0x50u8 && data[2] == 0x4Eu8 && data[3] == 0x47u8 && data[4] == 0x0Du8 && data[5] == 0x0Au8 && data[6] == 0x1Au8 && data[7] == 0x0Au8 {
            seq!["PNG Image"@]
        } else if data.len() >= 6 && data[0] == 0x47u8 && data[1] == 0x49u8 && data[2] == 0x46u8 && data[3]
            == 0x38u8 && (data[4] == 0x37u8 || data[4] == 0x39u8) && data[5] == 0x61u8 {
            seq!["GIF Image"@]
        } else if data.len() >= 3 && data[0] == 0xFFu8 && data[1] == 0xD8u8 && data[2] == 0xFFu8 {
            seq!["JPEG Image"@]
        } else if data.len() >= 4 && data[0] == 0x50u8 && data[1] == 0x4Bu8 && data[2] == 0x03u8 && data[3] == 0x04u8 {
            seq!["ZIP Archive"@]
        } else if data.len() >= 2 && data[0] == 0x4Du8 && data[1] == 0x5Au8 {
            seq!["Windows Executable"@]
        } else if data.len() >= 4 && data[0] == 0x25u8 && data[1] == 0x50u8 && data[2] == 0x44u8 && data[3] == 0x46u8 {
            seq!["PDF Document"@]
        } else {
            Seq::<Seq<char>>::empty()
        },
{
    reveal_with_fuel(signatures_upto, 8);
    if data.len() >= 8 && data[0] == 0x89u8 && data[1] == 0x50u8 && data[2] == 0x4Eu8 && data[3] == 0x47u8 && data[4] == 0x0Du8 && data[5] == 0x0Au8 && data[6] == 0x1Au8 && data[7] == 0x0Au8 {
        assert(data.take(8) =~= seq![0x89u8, 0x50u8, 0x4Eu8, 0x47u8, 0x0Du8, 0x0Au8, 0x1Au8, 0x0Au8]);
    }
    if starts_with(data, seq![0x89u8, 0x50u8, 0x4Eu8, 0x47u8, 0x0Du8, 0x0Au8, 0x1Au8, 0x0Au8]) {
        assert(data.take(8)[0] == data[0] && data.take(8)[1] == data[1] && data.take(8)[2] == data[2] && data.take(8)[3] == data[3] && data.take(8)[4] == data[4] && data.take(8)[5] == data[5] && data.take(8)[6] == data[6] && data.take(8)[7] == data[7]);
    }
    assert(file_signature_table()[0].0 == seq![0x89u8, 0x50u8, 0x4Eu8, 0x47u8, 0x0Du8, 0x0Au8, 0x1Au8, 0x0Au8]);
    if data.len() >= 6 && data[0] == 0x47u8 && data[1] == 0x49u8 && data[2] == 0x46u8 && data[3] == 0x38u8 && data[4] == 0x37u8 && data[5] == 0x61u8 {
        assert(data.take(6) =~= seq![0x47u8, 0x49u8, 0x46u8, 0x38u8, 0x37u8, 0x61u8]);
    }
    if starts_with(data, seq![0x47u8, 0x49u8, 0x46u8, 0x38u8, 0x37u8, 0x61u8]) {
        assert(data.take(6)[0] == data[0] && data.take(6)[1] == data[1] && data.take(6)[2] == data[2] && data.take(6)[3] == data[3] && data.take(6)[4] == data[4] && data.take(6)[5] == data[5]);
    }
    assert(file_signature_table()[1].0 == seq![0x47u8, 0x49u8, 0x46u8, 0x38u8, 0x37u8, 0x61u8]);
    if data.len() >= 6 && data[0] == 0x47u8 && data[1] == 0x49u8 && data[2] == 0x46u8 && data[3] == 0x38u8 && data[4] == 0x39u8 && data[5] == 0x61u8 {
        assert(data.take(6) =~= seq![0x47u8, 0x49u8, 0x46u8, 0x38u8, 0x39u8, 0x61u8]);
    }
    if starts_with(data, seq![0x47u8, 0x49u8, 0x46u8, 0x38u8, 0x39u8, 0x61u8]) {
        assert(data.take(6)[0] == data[0] && data.take(6)[1] == data[1] && data.take(6)[2] == data[2] && data.take(6)[3] == data[3] && data.take(6)[4] == data[4] && data.take(6)[5] == data[5]);
    }
    assert(file_signature_table()[2].0 == seq![0x47u8, 0x49u8, 0x46u8, 0x38u8, 0x39u8, 0x61u8]);
    if data.len() >= 3 && data[0] == 0xFFu8 && data[1] == 0xD8u8 && data[2] == 0xFFu8 {
        assert(data.take(3) =~= seq![0xFFu8, 0xD8u8, 0xFFu8]);
    }
    if starts_with(data, seq![0xFFu8, 0xD8u8, 0xFFu8]) {
        assert(data.take(3)[0] == data[0] && data.take(3)[1] == data[1] && data.take(3)[2] == data[2]);
    }
    assert(file_signature_table()[3].0 == seq![0xFFu8, 0xD8u8, 0xFFu8]);
    if data.len() >= 4 && data[0] == 0x50u8 && data[1] == 0x4Bu8 && data[2] == 0x03u8 && data[3] == 0x04u8 {
        assert(data.take(4) =~= seq![0x50u8, 0x4Bu8, 0x03u8, 0x04u8]);
    }
    if starts_with(data, seq![0x50u8, 0x4Bu8, 0x03u8, 0x04u8]) {
        assert(data.take(4)[0] == data[0] && data.take(4)[1] == data[1] && data.take(4)[2] == data[2] && data.take(4)[3] == data[3]);
    }
    assert(file_signature_table()[4].0 == seq![0x50u8, 0x4Bu8, 0x03u8, 0x04u8]);
    if data.len() >= 2 && data[0] == 0x4Du8 && data[1] == 0x5Au8 {
        assert(data.take(2) =~= seq![0x4Du8, 0x5Au8]);
    }
    if starts_with(data, seq![0x4Du8, 0x5Au8]) {
        assert(data.take(2)[0] == data[0] && data.take(2)[1] == data[1]);
    }
    assert(file_signature_table()[5].0 == seq![0x4Du8, 0x5Au8]);
    if data.len() >= 4 && data[0] == 0x25u8 && data[1] == 0x50u8 && data[2] == 0x44u8 && data[3] == 0x46u8 {
        assert(data.take(4) =~= seq![0x25u8, 0x50u8, 0x44u8, 0x46u8]);
    }
    if starts_with(data, seq![0x25u8, 0x50u8, 0x44u8, 0x46u8]) {
        assert(data.take(4)[0] == data[0] && data.take(4)[1] == data[1] && data.take(4)[2] == data[2] && data.take(4)[3] == data[3]);
    }
    assert(file_signature_table()[6].0 == seq![0x25u8, 0x50u8, 0x44u8, 0x46u8]);
}

/// Whether `data` begins with `prefix`.
pub fn has_prefix(data: &[u8], prefix: &[u8]) -> (r: bool)
    ensures
        r == starts_with(data@, prefix@),
{
    if data.len() < prefix.len() {
        return false;
    }
    let r = matches_at(data, prefix, 0);
    assert(data@.subrange(0, prefix@.len() as int) =~= data@.take(prefix@.len() as int));
    r
}

/// The descriptions of the known file signatures that `data` begins with
/// (PNG, GIF, JPEG, ZIP, Windows executable, PDF), in table order.
pub fn detect_file_signatures(data: &[u8]) -> (signatures: Vec<String>)
    ensures
        signatures@.len() == file_signatures(data@).len(),
        forall|k: int|
            0 <= k < signatures@.len() ==> #[trigger] signatures@[k]@ == file_signatures(data@)[k],
{
    let table: Vec<(Vec<u8>, &str)> = vec![
        (vec![0x89u8, 0x50u8, 0x4Eu8, 0x47u8, 0x0Du8, 0x0Au8, 0x1Au8, 0x0Au8], "PNG Image"),
        (vec![0x47u8, 0x49u8, 0x46u8, 0x38u8, 0x37u8, 0x61u8], "GIF Image"),
        (vec![0x47u8, 0x49u8, 0x46u8, 0x38u8, 0x39u8, 0x61u8], "GIF Image"),
        (vec![0xFFu8, 0xD8u8, 0xFFu8], "JPEG Image"),
        (vec![0x50u8, 0x4Bu8, 0x03u8, 0x04u8], "ZIP Archive"),
        (vec![0x4Du8, 0x5Au8], "Windows Executable"),
        (vec![0x25u8, 0x50u8, 0x44u8, 0x46u8], "PDF Document"),
    ];
    assert forall|k: int| 0 <= k < 7 implies #[trigger] table@[k].0@ == file_signature_table()[k].0
        && table@[k].1@ == file_signature_table()[k].1 by {
        assert(table@[0].0@ =~= file_signature_table()[0].0);
        assert(table@[1].0@ =~= file_signature_table()[1].0);
        assert(table@[2].0@ =~= file_signature_table()[2].0);
        assert(table@[3].0@ =~= file_signature_table()[3].0);
        assert(table@[4].0@ =~= file_signature_table()[4].0);
        assert(table@[5].0@ =~= file_signature_table()[5].0);
        assert(table@[6].0@ =~= file_signature_table()[6].0);
    }
    let mut signatures: Vec<String> = Vec::new();
    let mut n: usize = 0;
    while n < table.len()
        invariant
            table@.len() == 7,
            file_signature_table().len() == 7,
            n <= 7,
            forall|k: int| 0 <= k < 7 ==> #[trigger] table@[k].0@ == file_signature_table()[k].0
                && table@[k].1@ == file_signature_table()[k].1,
            signatures@.len() == signatures_upto(data@, n as int).len(),
            forall|k: int|
                0 <= k < signatures@.len() ==> #[trigger] signatures@[k]@ == signatures_upto(
                    data@,
                    n as int,
                )[k],
        decreases 7 - n,
    {
        let entry = &table[n];
        if has_prefix(data, entry.0.as_slice()) {
            signatures.push(entry.1.to_string());
        }
        n = n + 1;
    }
    signatures
}

/// Number of occurrences of byte `b` among the first `n` bytes of `data`.
pub open spec fn count_byte(data: Seq<u8>, b: u8, n: int) -> nat
    decreases n,
{
    if n <= 0 {
        0
    } else {
        count_byte(data, b, n - 1) + if data[n - 1] == b { 1nat } else { 0nat }
    }
}

proof fn lemma_count_byte_bound(data: Seq<u8>, b: u8, n: int)
    requires
        0 <= n,
    ensures
        count_byte(data, b, n) <= n,
    decreases n,
{
    if n > 0 {
        lemma_count_byte_bound(data, b, n - 1);
    }
}

/// For every byte value, how often it occurs in `data` (one entry per value 0..=255).
pub fn byte_histogram(data: &[u8]) -> (counts: Vec<u64>)
    ensures
        counts@.len() == 256,
        forall|b: u8| #[trigger] counts@[b as int] == count_byte(data@, b, data@.len() as int),
{
    let mut counts: Vec<u64> = Vec::new();
    let mut v: usize = 0;
    while v < 256
        invariant
            v <= 256,
            counts@.len() == v,
            forall|k: int| 0 <= k < v ==> counts@[k] == 0,
        decreases 256 - v,
    {
        counts.push(0);
        v = v + 1;
    }
    let mut i: usize = 0;
    while i < data.len()
        invariant
            i <= data.len(),
            counts@.len() == 256,
            forall|b: u8| #[trigger] counts@[b as int] == count_byte(data@, b, i as int),
        decreases data.len() - i,
    {
        let b = data[i];
        proof {
            lemma_count_byte_bound(data@, b, i as int);
        }
        let c = counts[b as usize];
        let ghost before = counts@;
        counts.set(b as usize, c + 1);
        i = i + 1;
        assert forall|x: u8| #[trigger] counts@[x as int] == count_byte(data@, x, i as int) by {
            if x != b {
                assert(counts@[x as int] == before[x as int]);
            }
        }
    }
    counts
}

} // verus!
