//! The persisted snapshot format.
//!
//! A snapshot is saved as one JSON document with the fields `root`, `files`
//! (a list of entries carrying `path`, `size`, `mtime`, `hash` and, when
//! present, `permissions`) and `scan_time`; sizes and times are unsigned
//! decimal integers (whole seconds), the fingerprint is lowercase hex, and
//! strings escape quotes, backslashes and control characters. The writer
//! emits one canonical text per snapshot and the parser accepts exactly
//! that canonical form, so loading a saved snapshot reproduces every field.

use vstd::prelude::*;

use crate::hash::ContentHash;
use crate::paths::str_chars;
use crate::snapshot::{FileMeta, FileMetaV, ScanResult, ScanResultV};

verus! {

/// The decimal digit character for a value below ten.
pub open spec fn digit_char(d: int) -> char {
    if d == 0 {
        '0'
    } else if d == 1 {
        '1'
    } else if d == 2 {
        '2'
    } else if d == 3 {
        '3'
    } else if d == 4 {
        '4'
    } else if d == 5 {
        '5'
    } else if d == 6 {
        '6'
    } else if d == 7 {
        '7'
    } else if d == 8 {
        '8'
    } else {
        '9'
    }
}

/// The lowercase hex digit character for a value below sixteen.
pub open spec fn hex_char(d: int) -> char {
    if d < 10 {
        digit_char(d)
    } else if d == 10 {
        'a'
    } else if d == 11 {
        'b'
    } else if d == 12 {
        'c'
    } else if d == 13 {
        'd'
    } else if d == 14 {
        'e'
    } else {
        'f'
    }
}

/// Canonical decimal text of an unsigned number: no leading zeros, `0`
/// written as one digit.
pub open spec fn dec_str(n: nat) -> Seq<char>
    decreases n,
{
    if n < 10 {
        seq![digit_char(n as int)]
    } else {
        dec_str(n / 10).push(digit_char((n % 10) as int))
    }
}

/// Lowercase hex text of digest bytes, two digits per byte.
pub open spec fn hex_str(bytes: Seq<u8>) -> Seq<char>
    decreases bytes.len(),
{
    if bytes.len() == 0 {
        Seq::empty()
    } else {
        hex_str(bytes.drop_last()) + seq![
            hex_char(bytes.last() as int / 16),
            hex_char(bytes.last() as int % 16),
        ]
    }
}

/// The escaped form of one character inside a JSON string: quote and
/// backslash get a backslash, control characters become `\u00XX`, and
/// everything else stands for itself.
pub open spec fn esc_char(c: char) -> Seq<char> {
    if c == '"' {
        seq!['\\', '"']
    } else if c == '\\' {
        seq!['\\', '\\']
    } else if (c as int) < 0x20 {
        seq!['\\', 'u', '0', '0', hex_char(c as int / 16), hex_char(c as int % 16)]
    } else {
        seq![c]
    }
}

/// The escaped form of a string's characters.
pub open spec fn esc(s: Seq<char>) -> Seq<char>
    decreases s.len(),
{
    if s.len() == 0 {
        Seq::empty()
    } else {
        esc_char(s.first()) + esc(s.drop_first())
    }
}

/// The canonical text of one file record.
pub open spec fn json_of_record(f: FileMetaV) -> Seq<char> {
    "{\"path\":\""@ + esc(f.path) + "\",\"size\":"@ + dec_str(f.size as nat) + ",\"mtime\":"@
        + dec_str(f.mtime as nat) + ",\"hash\":\""@ + hex_str(f.hash) + (match f.permissions {
        Some(m) => "\",\"permissions\":"@ + dec_str(m as nat) + "}"@,
        None => "\"}"@,
    })
}

/// The canonical text of the record list, comma separated.
pub open spec fn json_of_records(files: Seq<FileMetaV>) -> Seq<char>
    decreases files.len(),
{
    if files.len() == 0 {
        Seq::empty()
    } else if files.len() == 1 {
        json_of_record(files.first())
    } else {
        json_of_records(files.drop_last()) + ","@ + json_of_record(files.last())
    }
}

/// The canonical text of a whole snapshot.
pub open spec fn json_of_snapshot(s: ScanResultV) -> Seq<char> {
    "{\"root\":\""@ + esc(s.root) + "\",\"files\":["@ + json_of_records(s.files)
        + "],\"scan_time\":"@ + dec_str(s.scan_time as nat) + "}"@
}

/// Appends one character to a string.
///
/// Relies on `String::push`: the character is appended at the end.
#[verifier::external_body]
fn push_char(out: &mut String, c: char)
    ensures
        final(out)@ == old(out)@.push(c),
{
    out.push(c);
}

/// Append the decimal text of `n`.
fn push_dec(out: &mut String, n: u64)
    ensures
        final(out)@ == old(out)@ + dec_str(n as nat),
    decreases n,
{
    if n < 10 {
        push_char(out, dec_digit_char(n));
        assert(out@ =~= old(out)@ + dec_str(n as nat));
    } else {
        push_dec(out, n / 10);
        push_char(out, dec_digit_char(n % 10));
        assert(out@ =~= old(out)@ + dec_str(n as nat));
    }
}

/// The decimal digit character of a value below ten.
fn dec_digit_char(d: u64) -> (c: char)
    requires
        d < 10,
    ensures
        c == digit_char(d as int),
{
    match d {
        0 => '0',
        1 => '1',
        2 => '2',
        3 => '3',
        4 => '4',
        5 => '5',
        6 => '6',
        7 => '7',
        8 => '8',
        _ => '9',
    }
}

/// The lowercase hex digit character of a value below sixteen.
fn hex_digit_char(d: u32) -> (c: char)
    requires
        d < 16,
    ensures
        c == hex_char(d as int),
{
    match d {
        0 => '0',
        1 => '1',
        2 => '2',
        3 => '3',
        4 => '4',
        5 => '5',
        6 => '6',
        7 => '7',
        8 => '8',
        9 => '9',
        10 => 'a',
        11 => 'b',
        12 => 'c',
        13 => 'd',
        14 => 'e',
        _ => 'f',
    }
}

/// Append the hex text of the digest bytes.
fn push_hex(out: &mut String, bytes: &Vec<u8>)
    ensures
        final(out)@ == old(out)@ + hex_str(bytes@),
{
    let n = bytes.len();
    let mut i: usize = 0;
    while i < n
        invariant
            n == bytes@.len(),
            0 <= i <= n,
            out@ == old(out)@ + hex_str(bytes@.take(i as int)),
        decreases n - i,
    {
        let b = bytes[i];
        push_char(out, hex_digit_char(b as u32 / 16));
        push_char(out, hex_digit_char(b as u32 % 16));
        proof {
            assert(bytes@.take(i as int + 1).drop_last() =~= bytes@.take(i as int));
            assert(bytes@.take(i as int + 1).last() == bytes@[i as int]);
            assert(out@ =~= old(out)@ + hex_str(bytes@.take(i as int + 1)));
        }
        i += 1;
    }
    proof {
        assert(bytes@.take(n as int) =~= bytes@);
    }
}

/// Append the escaped form of a string.
fn push_escaped(out: &mut String, s: &str)
    ensures
        final(out)@ == old(out)@ + esc(s@),
{
    let n = s.unicode_len();
    let mut i: usize = 0;
    while i < n
        invariant
            n == s@.len(),
            0 <= i <= n,
            out@ == old(out)@ + esc(s@.take(i as int)),
        decreases n - i,
    {
        let c = s.get_char(i);
        proof {
            crate::similarity::lemma_char_bound(c);
        }
        if c == '"' {
            push_char(out, '\\');
            push_char(out, '"');
        } else if c == '\\' {
            push_char(out, '\\');
            push_char(out, '\\');
        } else if (c as u32) < 0x20 {
            push_char(out, '\\');
            push_char(out, 'u');
            push_char(out, '0');
            push_char(out, '0');
            push_char(out, hex_digit_char((c as u32) / 16));
            push_char(out, hex_digit_char((c as u32) % 16));
        } else {
            push_char(out, c);
        }
        proof {
            lemma_esc_snoc(s@.take(i as int + 1));
            assert(s@.take(i as int + 1).drop_last() =~= s@.take(i as int));
            assert(s@.take(i as int + 1).last() == s@[i as int]);
            assert(out@ =~= old(out)@ + esc(s@.take(i as int + 1)));
        }
        i += 1;
    }
    proof {
        assert(s@.take(n as int) =~= s@);
    }
}

/// Escaping one more character at the end appends its escaped form.
proof fn lemma_esc_snoc(s: Seq<char>)
    requires
        s.len() > 0,
    ensures
        esc(s) == esc(s.drop_last()) + esc_char(s.last()),
    decreases s.len(),
{
    if s.len() == 1 {
        assert(s.drop_last() =~= Seq::<char>::empty());
        assert(esc(s.drop_last()) + esc_char(s.last()) =~= esc_char(s.first()) + esc(
            s.drop_first(),
        ));
    } else {
        lemma_esc_snoc(s.drop_first());
        assert(s.drop_first().drop_last() =~= s.drop_last().drop_first());
        assert(s.drop_last().first() == s.first());
        assert(s.drop_first().last() == s.last());
        assert(esc(s) =~= esc_char(s.first()) + esc(s.drop_first()));
        assert(esc(s.drop_last()) =~= esc_char(s.first()) + esc(s.drop_last().drop_first()));
        assert(esc(s.drop_last()) + esc_char(s.last()) =~= esc_char(s.first()) + (esc(
            s.drop_first().drop_last(),
        ) + esc_char(s.last())));
    }
}

/// Serialize a snapshot to its canonical JSON text.
///
/// The output is exactly `json_of_snapshot` of the snapshot's model;
/// loading it back with `from_json` reproduces every field.
pub fn to_json(s: &ScanResult) -> (r: String)
    ensures
        r@ == json_of_snapshot(s@),
{
    let mut out = String::new();
    out.append("{\"root\":\"");
    push_escaped(&mut out, s.root.as_str());
    out.append("\",\"files\":[");
    let ghost files = s@.files;
    let n = s.files.len();
    let mut i: usize = 0;
    while i < n
        invariant
            files == s@.files,
            n == s.files@.len(),
            0 <= i <= n,
            out@ == "{\"root\":\""@ + esc(s@.root) + "\",\"files\":["@ + json_of_records(
                files.take(i as int),
            ),
        decreases n - i,
    {
        if i > 0 {
            out.append(",");
        }
        push_record(&mut out, &s.files[i]);
        proof {
            assert(files[i as int] == s.files@[i as int]@);
            assert(files.take(i as int + 1).drop_last() =~= files.take(i as int));
            assert(files.take(i as int + 1).last() == files[i as int]);
            if i == 0 {
                assert(files.take(1).first() == files[0]);
                assert(json_of_records(files.take(1)) == json_of_record(files[0]));
            }
            assert(out@ =~= "{\"root\":\""@ + esc(s@.root) + "\",\"files\":["@
                + json_of_records(files.take(i as int + 1)));
        }
        i += 1;
    }
    proof {
        assert(files.take(n as int) =~= files);
    }
    out.append("],\"scan_time\":");
    push_dec(&mut out, s.scan_time);
    out.append("}");
    proof {
        assert(out@ =~= json_of_snapshot(s@));
    }
    out
}

/// Append the canonical text of one record.
fn push_record(out: &mut String, f: &FileMeta)
    ensures
        final(out)@ == old(out)@ + json_of_record(f@),
{
    out.append("{\"path\":\"");
    push_escaped(out, f.path.as_str());
    out.append("\",\"size\":");
    push_dec(out, f.size);
    out.append(",\"mtime\":");
    push_dec(out, f.mtime);
    out.append(",\"hash\":\"");
    push_hex(out, f.hash.as_bytes());
    match f.permissions {
        Some(m) => {
            out.append("\",\"permissions\":");
            push_dec(out, m as u64);
            out.append("}");
            proof {
                assert(dec_str((m as u64) as nat) == dec_str(m as nat));
                assert(out@ =~= old(out)@ + json_of_record(f@));
            }
        },
        None => {
            out.append("\"}");
            proof {
                assert(out@ =~= old(out)@ + json_of_record(f@));
            }
        },
    }
}

/// Every character of the string is a valid Unicode scalar value. Spec
/// sequences do not carry the `char` type's range invariant by themselves,
/// so lemmas about escaping state it explicitly; every string built by
/// executable code satisfies it.
pub open spec fn chars_valid(s: Seq<char>) -> bool {
    forall|k: int| 0 <= k < s.len() ==> 0 <= (#[trigger] s[k] as int) < 0x110000
}

/// Is `c` a decimal digit?
pub open spec fn is_dec_digit(c: char) -> bool {
    48 <= c as int && c as int <= 57
}

/// The value of a decimal digit character.
pub open spec fn dec_val(c: char) -> int {
    c as int - 48
}

/// Is `c` a lowercase hex digit?
pub open spec fn is_hex_digit(c: char) -> bool {
    is_dec_digit(c) || (97 <= c as int && c as int <= 102)
}

/// The value of a lowercase hex digit character.
pub open spec fn hex_val(c: char) -> int {
    if is_dec_digit(c) {
        dec_val(c)
    } else {
        c as int - 87
    }
}

/// Largest value a parsed number may reach before one more digit could
/// overflow: `u64::MAX / 10`.
pub open spec fn dec_acc_limit() -> u64 {
    1844674407370955161
}

/// Match the exact literal `lit` at position `i`.
pub open spec fn sp_match(v: Seq<char>, i: int, lit: Seq<char>) -> Option<int> {
    if 0 <= i && i + lit.len() <= v.len() && v.subrange(i, i + lit.len()) == lit {
        Some(i + lit.len())
    } else {
        None
    }
}

/// Parse an escaped string body up to and including its closing quote.
pub open spec fn sp_parse_string(v: Seq<char>, i: int) -> Option<(Seq<char>, int)>
    decreases v.len() - i,
{
    if i < 0 || i >= v.len() {
        None
    } else if v[i] == '"' {
        Some((Seq::empty(), i + 1))
    } else if v[i] == '\\' {
        if i + 1 < v.len() && (v[i + 1] == '"' || v[i + 1] == '\\') {
            match sp_parse_string(v, i + 2) {
                Some((s, j)) => Some((seq![v[i + 1]] + s, j)),
                None => None,
            }
        } else if i + 5 < v.len() && v[i + 1] == 'u' && v[i + 2] == '0' && v[i + 3] == '0'
            && is_hex_digit(v[i + 4]) && is_hex_digit(v[i + 5]) && hex_val(v[i + 4]) * 16
            + hex_val(v[i + 5]) < 0x20 {
            match sp_parse_string(v, i + 6) {
                Some((s, j)) => Some(
                    (seq![((hex_val(v[i + 4]) * 16 + hex_val(v[i + 5])) as char)] + s, j),
                ),
                None => None,
            }
        } else {
            None
        }
    } else if (v[i] as int) >= 0x20 {
        match sp_parse_string(v, i + 1) {
            Some((s, j)) => Some((seq![v[i]] + s, j)),
            None => None,
        }
    } else {
        None
    }
}

/// Munch decimal digits into an accumulator, refusing overflow.
pub open spec fn sp_parse_digits(v: Seq<char>, i: int, acc: u64) -> Option<(u64, int)>
    decreases v.len() - i,
{
    if 0 <= i && i < v.len() && is_dec_digit(v[i]) {
        let d = dec_val(v[i]);
        if acc > dec_acc_limit() || (acc == dec_acc_limit() && d > 5) {
            None
        } else {
            sp_parse_digits(v, i + 1, (acc * 10 + d) as u64)
        }
    } else {
        Some((acc, i))
    }
}

/// Parse a canonical unsigned decimal: one `0`, or digits without a
/// leading zero.
pub open spec fn sp_parse_u64(v: Seq<char>, i: int) -> Option<(u64, int)> {
    if 0 <= i && i < v.len() && is_dec_digit(v[i]) {
        if v[i] == '0' {
            Some((0, i + 1))
        } else {
            sp_parse_digits(v, i, 0)
        }
    } else {
        None
    }
}

/// Parse pairs of lowercase hex digits up to and including the closing
/// quote.
pub open spec fn sp_parse_hex(v: Seq<char>, i: int) -> Option<(Seq<u8>, int)>
    decreases v.len() - i,
{
    if i < 0 || i >= v.len() {
        None
    } else if v[i] == '"' {
        Some((Seq::empty(), i + 1))
    } else if i + 1 < v.len() && is_hex_digit(v[i]) && is_hex_digit(v[i + 1]) {
        match sp_parse_hex(v, i + 2) {
            Some((bs, j)) => Some(
                (seq![((hex_val(v[i]) * 16 + hex_val(v[i + 1])) as u8)] + bs, j),
            ),
            None => None,
        }
    } else {
        None
    }
}

/// Parse one file record in canonical form.
pub open spec fn sp_parse_record(v: Seq<char>, i: int) -> Option<(FileMetaV, int)> {
    match sp_match(v, i, "{\"path\":\""@) {
        Some(i1) => match sp_parse_string(v, i1) {
            Some((path, i2)) => match sp_match(v, i2, ",\"size\":"@) {
                Some(i3) => match sp_parse_u64(v, i3) {
                    Some((size, i4)) => match sp_match(v, i4, ",\"mtime\":"@) {
                        Some(i5) => match sp_parse_u64(v, i5) {
                            Some((mtime, i6)) => match sp_match(v, i6, ",\"hash\":\""@) {
                                Some(i7) => match sp_parse_hex(v, i7) {
                                    Some((hash, i8)) => if sp_match(v, i8, "}"@) is Some {
                                        Some(
                                            (
                                                FileMetaV {
                                                    path,
                                                    size,
                                                    mtime,
                                                    hash,
                                                    permissions: None,
                                                },
                                                i8 + 1,
                                            ),
                                        )
                                    } else {
                                        match sp_match(v, i8, ",\"permissions\":"@) {
                                            Some(i9) => match sp_parse_u64(v, i9) {
                                                Some((m, i10)) => if m <= u32::MAX as u64
                                                    && sp_match(v, i10, "}"@) is Some {
                                                    Some(
                                                        (
                                                            FileMetaV {
                                                                path,
                                                                size,
                                                                mtime,
                                                                hash,
                                                                permissions: Some(m as u32),
                                                            },
                                                            i10 + 1,
                                                        ),
                                                    )
                                                } else {
                                                    None
                                                },
                                                None => None,
                                            },
                                            None => None,
                                        }
                                    },
                                    None => None,
                                },
                                None => None,
                            },
                            None => None,
                        },
                        None => None,
                    },
                    None => None,
                },
                None => None,
            },
            None => None,
        },
        None => None,
    }
}

/// Parse one or more comma-separated records.
pub open spec fn sp_parse_records(v: Seq<char>, i: int) -> Option<(Seq<FileMetaV>, int)>
    decreases v.len() - i,
{
    match sp_parse_record(v, i) {
        Some((f, j)) => if !(i < j && j <= v.len()) {
            None
        } else if j < v.len() && sp_match(v, j, ","@) is Some {
            match sp_parse_records(v, j + 1) {
                Some((fs, k)) => Some((seq![f] + fs, k)),
                None => None,
            }
        } else {
            Some((seq![f], j))
        },
        None => None,
    }
}

/// Parse a whole snapshot document; the text must end at the closing
/// brace.
pub open spec fn sp_parse_snapshot(v: Seq<char>) -> Option<ScanResultV> {
    match sp_match(v, 0, "{\"root\":\""@) {
        Some(i1) => match sp_parse_string(v, i1) {
            Some((root, i2)) => match sp_match(v, i2, ",\"files\":["@) {
                Some(i3) => {
                    let fr = if 0 <= i3 && i3 < v.len() && v[i3] == ']' {
                        Some((Seq::<FileMetaV>::empty(), i3 + 1))
                    } else {
                        match sp_parse_records(v, i3) {
                            Some((fs, j)) => match sp_match(v, j, "]"@) {
                                Some(j2) => Some((fs, j2)),
                                None => None,
                            },
                            None => None,
                        }
                    };
                    match fr {
                        Some((files, i4)) => match sp_match(v, i4, ",\"scan_time\":"@) {
                            Some(i5) => match sp_parse_u64(v, i5) {
                                Some((st, i6)) => match sp_match(v, i6, "}"@) {
                                    Some(i7) => if i7 == v.len() {
                                        Some(ScanResultV { root, files, scan_time: st })
                                    } else {
                                        None
                                    },
                                    None => None,
                                },
                                None => None,
                            },
                            None => None,
                        },
                        None => None,
                    }
                },
                None => None,
            },
            None => None,
        },
        None => None,
    }
}

/// Builds a string from its characters.
///
/// Relies on `String::from_iter` over `char`s: the result contains exactly
/// the iterated characters, in order.
#[verifier::external_body]
fn chars_to_string(v: &Vec<char>) -> (r: String)
    ensures
        r@ == v@,
{
    v.iter().collect()
}

/// The decimal value of a digit character, if it is one.
fn dec_digit_val(c: char) -> (r: Option<u64>)
    ensures
        match r {
            Some(d) => is_dec_digit(c) && d == dec_val(c) && d < 10,
            None => !is_dec_digit(c),
        },
{
    let x = c as u32;
    if 48 <= x && x <= 57 {
        Some((x - 48) as u64)
    } else {
        None
    }
}

/// The value of a lowercase hex digit character, if it is one.
fn hex_digit_val(c: char) -> (r: Option<u32>)
    ensures
        match r {
            Some(d) => is_hex_digit(c) && d == hex_val(c) && d < 16,
            None => !is_hex_digit(c),
        },
{
    let x = c as u32;
    if 48 <= x && x <= 57 {
        Some(x - 48)
    } else if 97 <= x && x <= 102 {
        Some(x - 87)
    } else {
        None
    }
}

/// Match the literal at position `i`.
fn match_lit(v: &Vec<char>, i: usize, lit: &str) -> (r: Option<usize>)
    requires
        i <= v@.len(),
    ensures
        match r {
            Some(j) => sp_match(v@, i as int, lit@) == Some(j as int) && j == i + lit@.len()
                && j <= v@.len(),
            None => sp_match(v@, i as int, lit@) is None,
        },
{
    let n = lit.unicode_len();
    let vlen = v.len();
    if vlen - i < n {
        return None;
    }
    let mut k: usize = 0;
    while k < n
        invariant
            n == lit@.len(),
            i + n <= v@.len(),
            i + n <= usize::MAX,
            0 <= k <= n,
            forall|m: int| 0 <= m < k ==> v@[i + m] == lit@[m],
        decreases n - k,
    {
        if v[i + k] != lit.get_char(k) {
            proof {
                assert(v@.subrange(i as int, i as int + n) != lit@) by {
                    assert(v@.subrange(i as int, i as int + n)[k as int] == v@[i + k]);
                }
            }
            return None;
        }
        k += 1;
    }
    proof {
        assert(v@.subrange(i as int, i as int + n) =~= lit@);
    }
    Some(i + n)
}

/// Parse an escaped string body up to its closing quote.
fn parse_string_at(v: &Vec<char>, i: usize) -> (r: Option<(Vec<char>, usize)>)
    requires
        i <= v@.len(),
    ensures
        match r {
            Some(p) => sp_parse_string(v@, i as int) == Some((p.0@, p.1 as int)) && p.1
                <= v@.len(),
            None => sp_parse_string(v@, i as int) is None,
        },
    decreases v@.len() - i,
{
    let vlen = v.len();
    if i >= vlen {
        return None;
    }
    let c = v[i];
    proof {
        crate::similarity::lemma_char_bound(c);
    }
    if c == '"' {
        let out: Vec<char> = Vec::new();
        proof {
            assert(sp_parse_string(v@, i as int) == Some((Seq::<char>::empty(), i as int
                + 1)));
            assert(out@ =~= Seq::<char>::empty());
        }
        return Some((out, i + 1));
    }
    if c == '\\' {
        if vlen - i > 1 && (v[i + 1] == '"' || v[i + 1] == '\\') {
            let c2 = v[i + 1];
            proof {
                assert(i + 1 < v@.len() && (v@[i + 1] == '"' || v@[i + 1] == '\\'));
            }
            match parse_string_at(v, i + 2) {
                Some((mut out, j)) => {
                    let ghost tail = out@;
                    out.insert(0, c2);
                    proof {
                        assert(out@ =~= seq![c2] + tail);
                        assert(sp_parse_string(v@, i as int + 2) == Some((tail, j as int)));
                        assert(sp_parse_string(v@, i as int) == Some((seq![v@[i + 1]] + tail,
                            j as int)));
                        assert(out@ == seq![v@[i + 1]] + tail);
                    }
                    Some((out, j))
                },
                None => {
                    proof {
                        assert(sp_parse_string(v@, i as int) is None);
                    }
                    None
                },
            }
        } else if vlen - i > 5 && v[i + 1] == 'u' && v[i + 2] == '0' && v[i + 3] == '0' {
            let h1 = hex_digit_val(v[i + 4]);
            let h2 = hex_digit_val(v[i + 5]);
            match (h1, h2) {
                (Some(d1), Some(d2)) => {
                    let code = d1 * 16 + d2;
                    if code < 0x20 {
                        let ch = (code as u8) as char;
                        proof {
                            assert(ch == ((hex_val(v@[i + 4]) * 16 + hex_val(
                                v@[i + 5],
                            )) as char));
                        }
                        match parse_string_at(v, i + 6) {
                            Some((mut out, j)) => {
                                let ghost tail = out@;
                                out.insert(0, ch);
                                proof {
                                    assert(out@ =~= seq![ch] + tail);
                                }
                                Some((out, j))
                            },
                            None => None,
                        }
                    } else {
                        None
                    }
                },
                _ => None,
            }
        } else {
            None
        }
    } else if (c as u32) >= 0x20 {
        match parse_string_at(v, i + 1) {
            Some((mut out, j)) => {
                let ghost tail = out@;
                out.insert(0, c);
                proof {
                    assert(out@ =~= seq![c] + tail);
                }
                Some((out, j))
            },
            None => None,
        }
    } else {
        None
    }
}

/// Parse a canonical unsigned decimal.
fn parse_u64_at(v: &Vec<char>, i: usize) -> (r: Option<(u64, usize)>)
    requires
        i <= v@.len(),
    ensures
        match r {
            Some(p) => sp_parse_u64(v@, i as int) == Some((p.0, p.1 as int)) && p.1
                <= v@.len(),
            None => sp_parse_u64(v@, i as int) is None,
        },
{
    let vlen = v.len();
    if i >= vlen {
        return None;
    }
    let c = v[i];
    match dec_digit_val(c) {
        None => None,
        Some(d0) => {
            if c == '0' {
                Some((0, i + 1))
            } else {
                let mut acc: u64 = 0;
                let mut cur = i;
                loop
                    invariant
                        i <= cur <= v@.len(),
                        sp_parse_u64(v@, i as int) == sp_parse_digits(v@, cur as int, acc),
                    decreases v@.len() - cur,
                {
                    if cur >= v.len() {
                        return Some((acc, cur));
                    }
                    match dec_digit_val(v[cur]) {
                        None => {
                            return Some((acc, cur));
                        },
                        Some(d) => {
                            if acc > 1844674407370955161 || (acc == 1844674407370955161 && d
                                > 5) {
                                return None;
                            }
                            acc = acc * 10 + d;
                            cur = cur + 1;
                        },
                    }
                }
            }
        },
    }
}

/// Parse hex digit pairs up to the closing quote.
fn parse_hex_at(v: &Vec<char>, i: usize) -> (r: Option<(Vec<u8>, usize)>)
    requires
        i <= v@.len(),
    ensures
        match r {
            Some(p) => sp_parse_hex(v@, i as int) == Some((p.0@, p.1 as int)) && p.1
                <= v@.len(),
            None => sp_parse_hex(v@, i as int) is None,
        },
    decreases v@.len() - i,
{
    let vlen = v.len();
    if i >= vlen {
        return None;
    }
    let c = v[i];
    if c == '"' {
        let out: Vec<u8> = Vec::new();
        return Some((out, i + 1));
    }
    if vlen - i <= 1 {
        return None;
    }
    match (hex_digit_val(c), hex_digit_val(v[i + 1])) {
        (Some(d1), Some(d2)) => {
            let b = (d1 * 16 + d2) as u8;
            proof {
                assert(b == ((hex_val(v@[i as int]) * 16 + hex_val(v@[i + 1])) as u8));
            }
            match parse_hex_at(v, i + 2) {
                Some((mut out, j)) => {
                    let ghost tail = out@;
                    out.insert(0, b);
                    proof {
                        assert(out@ =~= seq![b] + tail);
                    }
                    Some((out, j))
                },
                None => None,
            }
        },
        _ => None,
    }
}

/// Parse one file record.
fn parse_record_at(v: &Vec<char>, i: usize) -> (r: Option<(FileMeta, usize)>)
    requires
        i <= v@.len(),
    ensures
        match r {
            Some(p) => sp_parse_record(v@, i as int) == Some((p.0@, p.1 as int)) && p.1
                <= v@.len(),
            None => sp_parse_record(v@, i as int) is None,
        },
{
    proof {
        reveal_strlit("}");
    }
    let i1 = match match_lit(v, i, "{\"path\":\"") {
        Some(j) => j,
        None => {
            return None;
        },
    };
    let (path_chars, i2) = match parse_string_at(v, i1) {
        Some(p) => p,
        None => {
            return None;
        },
    };
    let i3 = match match_lit(v, i2, ",\"size\":") {
        Some(j) => j,
        None => {
            return None;
        },
    };
    let (size, i4) = match parse_u64_at(v, i3) {
        Some(p) => p,
        None => {
            return None;
        },
    };
    let i5 = match match_lit(v, i4, ",\"mtime\":") {
        Some(j) => j,
        None => {
            return None;
        },
    };
    let (mtime, i6) = match parse_u64_at(v, i5) {
        Some(p) => p,
        None => {
            return None;
        },
    };
    let i7 = match match_lit(v, i6, ",\"hash\":\"") {
        Some(j) => j,
        None => {
            return None;
        },
    };
    let (hash_bytes, i8) = match parse_hex_at(v, i7) {
        Some(p) => p,
        None => {
            return None;
        },
    };
    let path = chars_to_string(&path_chars);
    let hash = ContentHash::from_bytes(hash_bytes);
    match match_lit(v, i8, "}") {
        Some(j) => {
            let f = FileMeta { path, size, mtime, hash, permissions: None };
            Some((f, j))
        },
        None => {
            let i9 = match match_lit(v, i8, ",\"permissions\":") {
                Some(j) => j,
                None => {
                    return None;
                },
            };
            let (m, i10) = match parse_u64_at(v, i9) {
                Some(p) => p,
                None => {
                    return None;
                },
            };
            if m <= 0xFFFF_FFFF {
                match match_lit(v, i10, "}") {
                    Some(j) => {
                        let f = FileMeta {
                            path,
                            size,
                            mtime,
                            hash,
                            permissions: Some(m as u32),
                        };
                        Some((f, j))
                    },
                    None => None,
                }
            } else {
                None
            }
        },
    }
}

/// Parse one or more comma-separated records.
fn parse_records_at(v: &Vec<char>, i: usize) -> (r: Option<(Vec<FileMeta>, usize)>)
    requires
        i <= v@.len(),
    ensures
        match r {
            Some(p) => sp_parse_records(v@, i as int) == Some(
                (p.0@.map_values(|f: FileMeta| f@), p.1 as int),
            ) && p.1 <= v@.len(),
            None => sp_parse_records(v@, i as int) is None,
        },
    decreases v@.len() - i,
{
    proof {
        reveal_strlit(",");
    }
    let (f, j) = match parse_record_at(v, i) {
        Some(p) => p,
        None => {
            return None;
        },
    };
    if j <= i {
        return None;
    }
    match match_lit(v, j, ",") {
        Some(j2) => {
            match parse_records_at(v, j2) {
                Some((mut fs, k)) => {
                    let ghost tail = fs@;
                    fs.insert(0, f);
                    proof {
                        assert(fs@ =~= seq![fs@[0]] + tail);
                        assert(fs@.map_values(|f: FileMeta| f@) =~= seq![fs@[0]@]
                            + tail.map_values(|f: FileMeta| f@));
                    }
                    Some((fs, k))
                },
                None => None,
            }
        },
        None => {
            let mut fs: Vec<FileMeta> = Vec::new();
            fs.push(f);
            proof {
                assert(fs@.map_values(|f: FileMeta| f@) =~= seq![fs@[0]@]);
            }
            Some((fs, j))
        },
    }
}

/// Parse a snapshot from its canonical JSON text.
///
/// Accepts exactly the text `to_json` produces; the result is `Some`
/// precisely when the specification parser accepts the input, and then
/// carries the parsed snapshot.
pub fn from_json(s: &str) -> (r: Option<ScanResult>)
    ensures
        match r {
            Some(sc) => sp_parse_snapshot(s@) == Some(sc@),
            None => sp_parse_snapshot(s@) is None,
        },
{
    let v = str_chars(s);
    let i1 = match match_lit(&v, 0, "{\"root\":\"") {
        Some(j) => j,
        None => {
            return None;
        },
    };
    let (root_chars, i2) = match parse_string_at(&v, i1) {
        Some(p) => p,
        None => {
            return None;
        },
    };
    let i3 = match match_lit(&v, i2, ",\"files\":[") {
        Some(j) => j,
        None => {
            return None;
        },
    };
    let (files, i4) = if i3 < v.len() && v[i3] == ']' {
        (Vec::<FileMeta>::new(), i3 + 1)
    } else {
        let (fs, j) = match parse_records_at(&v, i3) {
            Some(p) => p,
            None => {
                return None;
            },
        };
        match match_lit(&v, j, "]") {
            Some(j2) => (fs, j2),
            None => {
                return None;
            },
        }
    };
    let i5 = match match_lit(&v, i4, ",\"scan_time\":") {
        Some(j) => j,
        None => {
            return None;
        },
    };
    let (scan_time, i6) = match parse_u64_at(&v, i5) {
        Some(p) => p,
        None => {
            return None;
        },
    };
    let i7 = match match_lit(&v, i6, "}") {
        Some(j) => j,
        None => {
            return None;
        },
    };
    if i7 != v.len() {
        return None;
    }
    let root = chars_to_string(&root_chars);
    let sc = ScanResult { root, files, scan_time };
    proof {
        match sp_parse_snapshot(s@) {
            Some(w) => {
                assert(w =~= sc@);
            },
            None => {},
        }
    }
    Some(sc)
}

} // verus!
