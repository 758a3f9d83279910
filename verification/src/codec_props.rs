//! Round-trip property of the persisted snapshot format.
//!
//! The parser of `codec` accepts exactly the canonical text the writer
//! emits, so saving a snapshot and loading it back reproduces every field.
//! The proof goes fragment by fragment: decimal numbers, hex digests and
//! escaped strings each round-trip, records and record lists compose them,
//! and `lemma_snapshot_round_trip` states the law for a whole document.

use vstd::prelude::*;

use crate::codec::{
    chars_valid, dec_acc_limit, dec_str, dec_val, digit_char, esc, esc_char, hex_char, hex_str, hex_val,
    is_dec_digit, is_hex_digit, json_of_record, json_of_records, json_of_snapshot, sp_match,
    sp_parse_digits, sp_parse_hex, sp_parse_record, sp_parse_records, sp_parse_snapshot,
    sp_parse_string, sp_parse_u64,
};
use crate::snapshot::{FileMetaV, ScanResultV};

verus! {

/// A decimal digit character carries its value and is never a quote.
proof fn lemma_digit_char_val(d: int)
    requires
        0 <= d < 10,
    ensures
        is_dec_digit(digit_char(d)),
        dec_val(digit_char(d)) == d,
{
}

/// A hex digit character carries its value and is never a quote.
proof fn lemma_hex_char_val(d: int)
    requires
        0 <= d < 16,
    ensures
        is_hex_digit(hex_char(d)),
        hex_val(hex_char(d)) == d,
        hex_char(d) != '"',
{
}

/// The decimal text is non-empty, all digits, and has no leading zero
/// except for zero itself.
proof fn lemma_dec_str_digits(n: nat)
    ensures
        dec_str(n).len() > 0,
        forall|k: int| 0 <= k < dec_str(n).len() ==> is_dec_digit(#[trigger] dec_str(n)[k]),
        n > 0 ==> dec_str(n)[0] != '0',
        n == 0 ==> dec_str(n) == seq!['0'],
    decreases n,
{
    if n < 10 {
        lemma_digit_char_val(n as int);
        if n > 0 {
        }
    } else {
        lemma_dec_str_digits(n / 10);
        lemma_digit_char_val((n % 10) as int);
        assert(dec_str(n)[0] == dec_str(n / 10)[0]);
        assert forall|k: int| 0 <= k < dec_str(n).len() implies is_dec_digit(
            #[trigger] dec_str(n)[k],
        ) by {
            if k < dec_str(n / 10).len() {
                assert(dec_str(n)[k] == dec_str(n / 10)[k]);
            }
        }
    }
}

/// The numeric value of a digit text, folded left.
pub open spec fn foldl_dec(acc: nat, s: Seq<char>) -> nat
    decreases s.len(),
{
    if s.len() == 0 {
        acc
    } else {
        foldl_dec((acc * 10 + dec_val(s.first())) as nat, s.drop_first())
    }
}

/// Folding digits never shrinks the accumulator.
proof fn lemma_foldl_ge(acc: nat, s: Seq<char>)
    requires
        forall|k: int| 0 <= k < s.len() ==> is_dec_digit(#[trigger] s[k]),
    ensures
        foldl_dec(acc, s) >= acc,
    decreases s.len(),
{
    if s.len() > 0 {
        assert(is_dec_digit(s[0]));
        assert(forall|k: int|
            0 <= k < s.drop_first().len() ==> s.drop_first()[k] == s[k + 1]);
        lemma_foldl_ge((acc * 10 + dec_val(s.first())) as nat, s.drop_first());
    }
}

/// One more digit at the end multiplies the folded value by ten.
proof fn lemma_foldl_push(acc: nat, s: Seq<char>, c: char)
    requires
        forall|k: int| 0 <= k < s.len() ==> is_dec_digit(#[trigger] s[k]),
        is_dec_digit(c),
    ensures
        foldl_dec(acc, s.push(c)) == foldl_dec(acc, s) * 10 + dec_val(c),
    decreases s.len(),
{
    reveal_with_fuel(foldl_dec, 3);
    if s.len() == 0 {
        assert(dec_val(c) >= 0);
        assert(s.push(c).first() == c);
        assert(s.push(c).drop_first() =~= Seq::<char>::empty());
    } else {
        assert(is_dec_digit(s[0]));
        assert(dec_val(s.first()) >= 0);
        assert(s.push(c).first() == s.first());
        assert(s.push(c).drop_first() =~= s.drop_first().push(c));
        assert(forall|k: int|
            0 <= k < s.drop_first().len() ==> s.drop_first()[k] == s[k + 1]);
        lemma_foldl_push((acc * 10 + dec_val(s.first())) as nat, s.drop_first(), c);
    }
}

/// Folding the canonical text of `n` yields `n`.
proof fn lemma_foldl_dec_str(n: nat)
    ensures
        foldl_dec(0, dec_str(n)) == n,
    decreases n,
{
    reveal_with_fuel(foldl_dec, 3);
    if n < 10 {
        lemma_digit_char_val(n as int);
        assert(dec_str(n).drop_first() =~= Seq::<char>::empty());
    } else {
        lemma_foldl_dec_str(n / 10);
        lemma_dec_str_digits(n / 10);
        lemma_digit_char_val((n % 10) as int);
        lemma_foldl_push(0, dec_str(n / 10), digit_char((n % 10) as int));
    }
}

/// Munching a digit run folds it onto the accumulator.
proof fn lemma_parse_digits(v: Seq<char>, i: int, j: int, acc: u64)
    requires
        0 <= i <= j <= v.len(),
        forall|k: int| i <= k < j ==> is_dec_digit(#[trigger] v[k]),
        j == v.len() || !is_dec_digit(v[j]),
        foldl_dec(acc as nat, v.subrange(i, j)) <= u64::MAX,
    ensures
        sp_parse_digits(v, i, acc) == Some(
            ((foldl_dec(acc as nat, v.subrange(i, j)) as u64, j)),
        ),
    decreases j - i,
{
    if i == j {
        assert(v.subrange(i, j) =~= Seq::<char>::empty());
    } else {
        assert(is_dec_digit(v[i]));
        let d = dec_val(v[i]);
        let sub = v.subrange(i, j);
        assert(sub.first() == v[i]);
        assert(sub.drop_first() =~= v.subrange(i + 1, j));
        let acc2 = (acc * 10 + d) as nat;
        assert(foldl_dec(acc as nat, sub) == foldl_dec(acc2, v.subrange(i + 1, j)));
        assert(forall|k: int|
            0 <= k < v.subrange(i + 1, j).len() ==> is_dec_digit(
                #[trigger] v.subrange(i + 1, j)[k],
            ));
        lemma_foldl_ge(acc2, v.subrange(i + 1, j));
        assert(acc * 10 + d <= u64::MAX);
        assert(!(acc > dec_acc_limit() || (acc == dec_acc_limit() && d > 5)));
        lemma_parse_digits(v, i + 1, j, (acc * 10 + d) as u64);
    }
}

/// A canonical decimal with a non-digit boundary parses back to its value.
proof fn lemma_parse_u64(v: Seq<char>, i: int, j: int, n: u64)
    requires
        0 <= i < j <= v.len(),
        v.subrange(i, j) == dec_str(n as nat),
        j == v.len() || !is_dec_digit(v[j]),
    ensures
        sp_parse_u64(v, i) == Some((n, j)),
{
    lemma_dec_str_digits(n as nat);
    assert forall|k: int| i <= k < j implies is_dec_digit(#[trigger] v[k]) by {
        assert(v[k] == v.subrange(i, j)[k - i]);
    }
    assert(v[i] == dec_str(n as nat)[0]);
    if n == 0 {
        assert(v[i] == '0');
        assert(j == i + 1);
    } else {
        assert(v[i] != '0');
        lemma_foldl_dec_str(n as nat);
        lemma_parse_digits(v, i, j, 0);
    }
}

/// Two hex digits per byte, reading front to back.
proof fn lemma_hex_str_front(bs: Seq<u8>)
    requires
        bs.len() > 0,
    ensures
        hex_str(bs) == seq![
            hex_char(bs.first() as int / 16),
            hex_char(bs.first() as int % 16),
        ] + hex_str(bs.drop_first()),
    decreases bs.len(),
{
    if bs.len() == 1 {
        assert(bs.drop_last() =~= Seq::<u8>::empty());
        assert(bs.drop_first() =~= Seq::<u8>::empty());
        assert(hex_str(bs) =~= seq![
            hex_char(bs.first() as int / 16),
            hex_char(bs.first() as int % 16),
        ] + hex_str(bs.drop_first()));
    } else {
        lemma_hex_str_front(bs.drop_last());
        assert(bs.drop_last().first() == bs.first());
        assert(bs.drop_last().drop_first() =~= bs.drop_first().drop_last());
        assert(bs.drop_first().last() == bs.last());
        assert(hex_str(bs) =~= seq![
            hex_char(bs.first() as int / 16),
            hex_char(bs.first() as int % 16),
        ] + (hex_str(bs.drop_first().drop_last()) + seq![
            hex_char(bs.last() as int / 16),
            hex_char(bs.last() as int % 16),
        ]));
    }
}

/// The hex text has two characters per byte.
proof fn lemma_hex_str_len(bs: Seq<u8>)
    ensures
        hex_str(bs).len() == 2 * bs.len(),
    decreases bs.len(),
{
    if bs.len() > 0 {
        lemma_hex_str_len(bs.drop_last());
    }
}

/// A hex digest followed by its closing quote parses back to its bytes.
proof fn lemma_parse_hex(v: Seq<char>, i: int, j: int, bs: Seq<u8>)
    requires
        0 <= i,
        i + 2 * bs.len() + 1 == j,
        j <= v.len(),
        v.subrange(i, j - 1) == hex_str(bs),
        v[j - 1] == '"',
    ensures
        sp_parse_hex(v, i) == Some((bs, j)),
    decreases bs.len(),
{
    lemma_hex_str_len(bs);
    if bs.len() == 0 {
        assert(v[i] == '"');
    } else {
        lemma_hex_str_front(bs);
        let b0 = bs.first();
        assert(v[i] == v.subrange(i, j - 1)[0]);
        assert(v[i + 1] == v.subrange(i, j - 1)[1]);
        assert(v[i] == hex_char(b0 as int / 16));
        assert(v[i + 1] == hex_char(b0 as int % 16));
        lemma_hex_char_val(b0 as int / 16);
        lemma_hex_char_val(b0 as int % 16);
        assert(hex_val(v[i]) * 16 + hex_val(v[i + 1]) == b0 as int);
        assert(((hex_val(v[i]) * 16 + hex_val(v[i + 1])) as u8) == b0);
        assert(v.subrange(i + 2, j - 1) =~= hex_str(bs.drop_first())) by {
            assert(forall|k: int|
                0 <= k < j - 1 - (i + 2) ==> #[trigger] v.subrange(i + 2, j - 1)[k]
                    == v.subrange(i, j - 1)[k + 2]);
        }
        lemma_parse_hex(v, i + 2, j, bs.drop_first());
        assert(seq![b0] + bs.drop_first() =~= bs);
    }
}

/// An escaped string followed by its closing quote parses back exactly.
proof fn lemma_parse_esc(v: Seq<char>, i: int, j: int, w: Seq<char>)
    requires
        chars_valid(w),
        0 <= i,
        i + esc(w).len() + 1 == j,
        j <= v.len(),
        v.subrange(i, j - 1) == esc(w),
        v[j - 1] == '"',
    ensures
        sp_parse_string(v, i) == Some((w, j)),
    decreases w.len(),
{
    if w.len() == 0 {
        assert(v[i] == '"');
    } else {
        let c = w.first();
        assert(0 <= (w[0] as int) && (w[0] as int) < 0x110000);
        assert(chars_valid(w.drop_first())) by {
            assert(forall|k: int|
                0 <= k < w.drop_first().len() ==> w.drop_first()[k] == w[k + 1]);
        }
        let ec = esc_char(c);
        assert(esc(w) == ec + esc(w.drop_first()));
        assert(esc(w).len() == ec.len() + esc(w.drop_first()).len());
        assert forall|k: int| 0 <= k < ec.len() implies #[trigger] ec[k] == v[i + k] by {
            assert(v.subrange(i, j - 1)[k] == v[i + k]);
            assert((ec + esc(w.drop_first()))[k] == ec[k]);
        }
        let i2 = i + ec.len();
        assert forall|k: int| 0 <= k < j - 1 - i2 implies #[trigger] v.subrange(i2, j - 1)[k]
            == esc(w.drop_first())[k] by {
            assert(v.subrange(i2, j - 1)[k] == v[i2 + k]);
            assert(v.subrange(i, j - 1)[k + ec.len()] == v[i + k + ec.len()]);
            assert(esc(w)[k + ec.len()] == (ec + esc(w.drop_first()))[k + ec.len()]);
        }
        assert(v.subrange(i2, j - 1) =~= esc(w.drop_first()));
        lemma_parse_esc(v, i2, j, w.drop_first());
        if c == '"' {
            assert(ec[0] == v[i + 0] && ec[1] == v[i + 1]);
            assert(v[i] == '\\' && v[i + 1] == '"');
            assert(seq![v[i + 1]] + w.drop_first() =~= w);
        } else if c == '\\' {
            assert(ec[0] == v[i + 0] && ec[1] == v[i + 1]);
            assert(v[i] == '\\' && v[i + 1] == '\\');
            assert(seq![v[i + 1]] + w.drop_first() =~= w);
        } else if (c as int) < 0x20 {
            assert(ec[0] == v[i + 0] && ec[1] == v[i + 1] && ec[2] == v[i + 2] && ec[3] == v[i
                + 3] && ec[4] == v[i + 4] && ec[5] == v[i + 5]);
            assert(v[i] == '\\' && v[i + 1] == 'u' && v[i + 2] == '0' && v[i + 3] == '0');
            assert(v[i + 4] == hex_char(c as int / 16));
            assert(v[i + 5] == hex_char(c as int % 16));
            lemma_hex_char_val(c as int / 16);
            lemma_hex_char_val(c as int % 16);
            assert(hex_val(v[i + 4]) * 16 + hex_val(v[i + 5]) == c as int);
            assert(((hex_val(v[i + 4]) * 16 + hex_val(v[i + 5])) as char) == c);
            assert(seq![c] + w.drop_first() =~= w);
        } else {
            assert(ec[0] == v[i + 0]);
            assert(v[i] == c);
            assert(seq![v[i]] + w.drop_first() =~= w);
        }
    }
}


/// A window of `v` known equal to `w` has `w`'s subranges in it.
proof fn lemma_subrange_of_eq(v: Seq<char>, i: int, j: int, w: Seq<char>, off: int, l: int)
    requires
        0 <= i,
        i + w.len() == j,
        j <= v.len(),
        v.subrange(i, j) == w,
        0 <= off,
        0 <= l,
        off + l <= w.len(),
    ensures
        v.subrange(i + off, i + off + l) == w.subrange(off, off + l),
{
    assert forall|m: int| 0 <= m < l implies #[trigger] v.subrange(i + off, i + off + l)[m]
        == w.subrange(off, off + l)[m] by {
        assert(v.subrange(i + off, i + off + l)[m] == v[i + off + m]);
        assert(v.subrange(i, j)[off + m] == v[i + (off + m)]);
        assert(w.subrange(off, off + l)[m] == w[off + m]);
    }
    assert(v.subrange(i + off, i + off + l) =~= w.subrange(off, off + l));
}

/// A canonical record text parses back to its record.
#[verifier::rlimit(80)]
proof fn lemma_parse_record(v: Seq<char>, i: int, j: int, f: FileMetaV)
    requires
        chars_valid(f.path),
        0 <= i <= j <= v.len(),
        v.subrange(i, j) == json_of_record(f),
    ensures
        sp_parse_record(v, i) == Some((f, j)),
        i + 12 <= j,
        v[i] == '{',
{
    reveal_strlit("{\"path\":\"");
    reveal_strlit("\",\"size\":");
    reveal_strlit(",\"size\":");
    reveal_strlit(",\"mtime\":");
    reveal_strlit(",\"hash\":\"");
    reveal_strlit("\",\"permissions\":");
    reveal_strlit(",\"permissions\":");
    reveal_strlit("\"}");
    reveal_strlit("}");
    let rec = json_of_record(f);
    let le = esc(f.path).len() as int;
    let ls = dec_str(f.size as nat).len() as int;
    let lm = dec_str(f.mtime as nat).len() as int;
    let lh = hex_str(f.hash).len() as int;
    let p1 = i + 9;
    let p2 = p1 + le;
    let i2 = p2 + 1;
    let i3 = i2 + 8;
    let p4 = i3 + ls;
    let i5 = p4 + 9;
    let p6 = i5 + lm;
    let i7 = p6 + 9;
    let p8 = i7 + lh;
    let i8 = p8 + 1;
    lemma_dec_str_digits(f.size as nat);
    lemma_dec_str_digits(f.mtime as nat);
    let tail_len: int = match f.permissions {
        Some(m) => 16 + dec_str(m as nat).len() as int + 1,
        None => 2,
    };
    assert(rec.len() == 9 + le + 9 + ls + 9 + lm + 9 + lh + tail_len);
    assert(j - i == rec.len());
    lemma_subrange_of_eq(v, i, j, rec, 0, 9);
    assert(rec.subrange(0, 9) =~= "{\"path\":\""@);
    assert(v.subrange(i, p1) == "{\"path\":\""@);
    lemma_subrange_of_eq(v, i, j, rec, 9, le);
    assert(rec.subrange(9, 9 + le) =~= esc(f.path));
    assert(v.subrange(p1, p2) == esc(f.path));
    lemma_subrange_of_eq(v, i, j, rec, 9 + le, 9);
    assert(rec.subrange(9 + le, 18 + le) =~= "\",\"size\":"@);
    assert(v.subrange(p2, i3) == "\",\"size\":"@);
    lemma_subrange_of_eq(v, i, j, rec, 18 + le, ls);
    assert(rec.subrange(18 + le, 18 + le + ls) =~= dec_str(f.size as nat));
    assert(v.subrange(i3, p4) == dec_str(f.size as nat));
    lemma_subrange_of_eq(v, i, j, rec, 18 + le + ls, 9);
    assert(rec.subrange(18 + le + ls, 27 + le + ls) =~= ",\"mtime\":"@);
    assert(v.subrange(p4, i5) == ",\"mtime\":"@);
    lemma_subrange_of_eq(v, i, j, rec, 27 + le + ls, lm);
    assert(rec.subrange(27 + le + ls, 27 + le + ls + lm) =~= dec_str(f.mtime as nat));
    assert(v.subrange(i5, p6) == dec_str(f.mtime as nat));
    lemma_subrange_of_eq(v, i, j, rec, 27 + le + ls + lm, 9);
    assert(rec.subrange(27 + le + ls + lm, 36 + le + ls + lm) =~= ",\"hash\":\""@);
    assert(v.subrange(p6, i7) == ",\"hash\":\""@);
    lemma_subrange_of_eq(v, i, j, rec, 36 + le + ls + lm, lh);
    assert(rec.subrange(36 + le + ls + lm, 36 + le + ls + lm + lh) =~= hex_str(f.hash));
    assert(v.subrange(i7, p8) == hex_str(f.hash));
    lemma_subrange_of_eq(v, i, j, rec, 36 + le + ls + lm + lh, tail_len);
    assert(v.subrange(p8, j) == rec.subrange(36 + le + ls + lm + lh, rec.len() as int));
    assert(sp_match(v, i, "{\"path\":\""@) == Some(p1));
    assert(v[i] == '{') by {
        assert(v.subrange(i, p1)[0] == v[i]);
    }
    assert(v[p2] == '"') by {
        assert(v.subrange(p2, i3)[0] == v[p2]);
    }
    lemma_parse_esc(v, p1, i2, f.path);
    assert(v.subrange(i2, i3) =~= ",\"size\":"@) by {
        assert(forall|k: int|
            0 <= k < 8 ==> #[trigger] v.subrange(i2, i3)[k] == v.subrange(p2, i3)[k + 1]);
    }
    assert(sp_match(v, i2, ",\"size\":"@) == Some(i3));
    assert(v[p4] == ',') by {
        assert(v.subrange(p4, i5)[0] == v[p4]);
    }
    assert(!is_dec_digit(v[p4]));
    lemma_parse_u64(v, i3, p4, f.size);
    assert(sp_match(v, p4, ",\"mtime\":"@) == Some(i5));
    assert(v[p6] == ',') by {
        assert(v.subrange(p6, i7)[0] == v[p6]);
    }
    assert(!is_dec_digit(v[p6]));
    lemma_parse_u64(v, i5, p6, f.mtime);
    assert(sp_match(v, p6, ",\"hash\":\""@) == Some(i7));
    lemma_hex_str_len(f.hash);
    let tail = rec.subrange(36 + le + ls + lm + lh, rec.len() as int);
    assert(v[p8] == '"') by {
        match f.permissions {
            Some(m) => {
                assert(tail =~= "\",\"permissions\":"@ + dec_str(m as nat) + "}"@);
                assert(tail[0] == '"');
                assert(v.subrange(p8, j)[0] == v[p8]);
            },
            None => {
                assert(tail =~= "\"}"@);
                assert(v.subrange(p8, j)[0] == v[p8]);
            },
        }
    }
    lemma_parse_hex(v, i7, i8, f.hash);
    match f.permissions {
        Some(m) => {
            assert(tail =~= "\",\"permissions\":"@ + dec_str(m as nat) + "}"@);
            let i9 = i8 + 15;
            let lp = dec_str(m as nat).len() as int;
            let p10 = i9 + lp;
            lemma_dec_str_digits(m as nat);
            lemma_subrange_of_eq(v, p8, j, tail, 16, lp);
            assert(tail.subrange(16, 16 + lp) =~= dec_str(m as nat));
            assert(v.subrange(i9, p10) == dec_str(m as nat));
            assert(v[i8] == ',') by {
                assert(v.subrange(p8, j)[i8 - p8] == v[i8]);
                assert(tail[1] == ',');
            }
            assert(sp_match(v, i8, "}"@) is None) by {
                if sp_match(v, i8, "}"@) is Some {
                    assert(v.subrange(i8, i8 + 1)[0] == '}');
                }
            }
            assert(v.subrange(i8, i9) =~= ",\"permissions\":"@) by {
                assert forall|k: int| 0 <= k < 15 implies v.subrange(i8, i9)[k]
                    == ",\"permissions\":"@[k] by {
                    assert(v.subrange(i8, i9)[k] == v[i8 + k]);
                    assert(v.subrange(p8, j)[k + 1] == v[p8 + k + 1]);
                    assert(tail[k + 1] == "\",\"permissions\":"@[k + 1]);
                }
            }
            assert(sp_match(v, i8, ",\"permissions\":"@) == Some(i9));
            assert(v[p10] == '}') by {
                assert(v.subrange(p8, j)[p10 - p8] == v[p10]);
                assert(tail[16 + lp] == '}');
            }
            assert(!is_dec_digit(v[p10]));
            lemma_parse_u64(v, i9, p10, m as u64);
            assert(j == p10 + 1);
            assert(v.subrange(p10, p10 + 1) =~= "}"@) by {
                assert(v.subrange(p10, p10 + 1)[0] == v[p10]);
            }
            assert(sp_match(v, p10, "}"@) == Some(p10 + 1));
            assert((m as u64) <= u32::MAX as u64);
            assert(((m as u64) as u32) == m);
            assert(j == p10 + 1);
        },
        None => {
            assert(tail =~= "\"}"@);
            assert(v[i8] == '}') by {
                assert(v.subrange(p8, j)[1] == v[p8 + 1]);
                assert(tail[1] == '}');
            }
            assert(v.subrange(i8, i8 + 1) =~= "}"@);
            assert(sp_match(v, i8, "}"@) == Some(i8 + 1));
            assert(j == i8 + 1);
        },
    }
}

/// Reading the record list front to back.
proof fn lemma_records_front(files: Seq<FileMetaV>)
    requires
        files.len() > 0,
    ensures
        files.len() == 1 ==> json_of_records(files) == json_of_record(files.first()),
        files.len() > 1 ==> json_of_records(files) == json_of_record(files.first()) + ","@
            + json_of_records(files.drop_first()),
    decreases files.len(),
{
    reveal_with_fuel(json_of_records, 4);
    if files.len() <= 1 {
    } else if files.len() == 2 {
        assert(files.drop_last().first() == files.first());
        assert(files.drop_last() =~= seq![files.first()]);
        assert(files.drop_first() =~= seq![files.last()]);
        assert(json_of_records(files.drop_first()) == json_of_record(files.last()));
    } else {
        lemma_records_front(files.drop_last());
        assert(files.drop_last().first() == files.first());
        assert(files.drop_last().drop_first() =~= files.drop_first().drop_last());
        assert(files.drop_first().last() == files.last());
        assert(files.drop_first().len() > 1);
        assert(json_of_records(files) == (json_of_record(files.first()) + ","@
            + json_of_records(files.drop_first().drop_last())) + ","@ + json_of_record(
            files.last(),
        ));
        assert(json_of_records(files) =~= json_of_record(files.first()) + ","@ + (
        json_of_records(files.drop_first().drop_last()) + ","@ + json_of_record(
            files.drop_first().last(),
        )));
    }
}

/// A canonical record list followed by `]` parses back to its records.
proof fn lemma_parse_records(v: Seq<char>, i: int, j: int, files: Seq<FileMetaV>)
    requires
        files.len() > 0,
        forall|k: int| 0 <= k < files.len() ==> chars_valid((#[trigger] files[k]).path),
        0 <= i <= j < v.len(),
        v.subrange(i, j) == json_of_records(files),
        v[j] == ']',
    ensures
        sp_parse_records(v, i) == Some((files, j)),
    decreases files.len(),
{
    reveal_strlit(",");
    lemma_records_front(files);
    let recs = json_of_records(files);
    if files.len() == 1 {
        lemma_parse_record(v, i, j, files.first());
        assert(sp_match(v, j, ","@) is None) by {
            if sp_match(v, j, ","@) is Some {
                assert(v.subrange(j, j + 1)[0] == ',');
            }
        }
        assert(seq![files.first()] =~= files);
    } else {
        let lr = json_of_record(files.first()).len() as int;
        let j1 = i + lr;
        assert(recs.len() == lr + 1 + json_of_records(files.drop_first()).len());
        lemma_subrange_of_eq(v, i, j, recs, 0, lr);
        assert(recs.subrange(0, lr) =~= json_of_record(files.first()));
        assert(v.subrange(i, j1) == json_of_record(files.first()));
        lemma_parse_record(v, i, j1, files.first());
        lemma_subrange_of_eq(v, i, j, recs, lr, 1);
        assert(recs.subrange(lr, lr + 1) =~= ","@);
        assert(v.subrange(j1, j1 + 1) == ","@);
        assert(v[j1] == ',') by {
            assert(v.subrange(j1, j1 + 1)[0] == v[j1]);
        }
        assert(sp_match(v, j1, ","@) == Some(j1 + 1));
        lemma_subrange_of_eq(v, i, j, recs, lr + 1, json_of_records(
            files.drop_first(),
        ).len() as int);
        assert(recs.subrange(lr + 1, recs.len() as int) =~= json_of_records(
            files.drop_first(),
        ));
        assert(v.subrange(j1 + 1, j) == json_of_records(files.drop_first()));
        assert(forall|k: int|
            0 <= k < files.drop_first().len() ==> files.drop_first()[k] == files[k + 1]);
        lemma_parse_records(v, j1 + 1, j, files.drop_first());
        assert(seq![files.first()] + files.drop_first() =~= files);
    }
}

/// Where each field of the canonical snapshot text lies.
#[verifier::rlimit(80)]
proof fn lemma_snapshot_layout(w: ScanResultV)
    ensures
        ({
            let v = json_of_snapshot(w);
            let le = esc(w.root).len() as int;
            let lf = json_of_records(w.files).len() as int;
            let lt = dec_str(w.scan_time as nat).len() as int;
            &&& v.len() == 9 + le + 11 + lf + 14 + lt + 1
            &&& v.subrange(0, 9) == "{\"root\":\""@
            &&& v.subrange(9, 9 + le) == esc(w.root)
            &&& v.subrange(9 + le, 20 + le) == "\",\"files\":["@
            &&& v.subrange(20 + le, 20 + le + lf) == json_of_records(w.files)
            &&& v.subrange(20 + le + lf, 34 + le + lf) == "],\"scan_time\":"@
            &&& v.subrange(34 + le + lf, 34 + le + lf + lt) == dec_str(w.scan_time as nat)
            &&& v[34 + le + lf + lt] == '}'
        }),
{
    reveal_strlit("{\"root\":\"");
    reveal_strlit("\",\"files\":[");
    reveal_strlit("],\"scan_time\":");
    reveal_strlit("}");
    let v = json_of_snapshot(w);
    let le = esc(w.root).len() as int;
    let lf = json_of_records(w.files).len() as int;
    let lt = dec_str(w.scan_time as nat).len() as int;
    let i1: int = 9;
    let p2 = i1 + le;
    let i3 = p2 + 11;
    let p4 = i3 + lf;
    let i5 = p4 + 14;
    let p6 = i5 + lt;
    assert(v.len() == p6 + 1);
    assert(v.subrange(0, i1) =~= "{\"root\":\""@) by {
        assert(forall|m: int|
            0 <= m < 9 ==> #[trigger] v.subrange(0, i1)[m] == v[m]);
        assert(forall|m: int| 0 <= m < 9 ==> #[trigger] v[m] == "{\"root\":\""@[m]);
    }
    assert(v.subrange(i1, p2) =~= esc(w.root)) by {
        assert(forall|m: int|
            0 <= m < le ==> #[trigger] v.subrange(i1, p2)[m] == v[i1 + m]);
        assert(forall|m: int| 0 <= m < le ==> #[trigger] v[i1 + m] == esc(w.root)[m]);
    }
    assert(v.subrange(p2, p2 + 11) =~= "\",\"files\":["@) by {
        assert(forall|m: int|
            0 <= m < 11 ==> #[trigger] v.subrange(p2, p2 + 11)[m] == v[p2 + m]);
        assert(forall|m: int| 0 <= m < 11 ==> #[trigger] v[p2 + m] == "\",\"files\":["@[m]);
    }
    assert(v.subrange(i3, p4) =~= json_of_records(w.files)) by {
        assert(forall|m: int|
            0 <= m < lf ==> #[trigger] v.subrange(i3, p4)[m] == v[i3 + m]);
        assert(forall|m: int| 0 <= m < lf ==> #[trigger] v[i3 + m] == json_of_records(w.files)[m]);
    }
    assert(v.subrange(p4, i5) =~= "],\"scan_time\":"@) by {
        assert(forall|m: int|
            0 <= m < 14 ==> #[trigger] v.subrange(p4, i5)[m] == v[p4 + m]);
        assert(forall|m: int| 0 <= m < 14 ==> #[trigger] v[p4 + m] == "],\"scan_time\":"@[m]);
    }
    assert(v.subrange(i5, p6) =~= dec_str(w.scan_time as nat)) by {
        assert(forall|m: int|
            0 <= m < lt ==> #[trigger] v.subrange(i5, p6)[m] == v[i5 + m]);
        assert(forall|m: int|
            0 <= m < lt ==> #[trigger] v[i5 + m] == dec_str(w.scan_time as nat)[m]);
    }
}

/// The header of the canonical text parses: opening literal, root string,
/// and the files bracket.
#[verifier::rlimit(80)]
proof fn lemma_snapshot_header(w: ScanResultV)
    requires
        chars_valid(w.root),
    ensures
        ({
            let v = json_of_snapshot(w);
            let le = esc(w.root).len() as int;
            &&& sp_match(v, 0, "{\"root\":\""@) == Some(9int)
            &&& sp_parse_string(v, 9) == Some((w.root, 10 + le))
            &&& sp_match(v, 10 + le, ",\"files\":["@) == Some(20 + le)
        }),
{
    reveal_strlit("{\"root\":\"");
    reveal_strlit("\",\"files\":[");
    reveal_strlit(",\"files\":[");
    let v = json_of_snapshot(w);
    let le = esc(w.root).len() as int;
    let i1: int = 9;
    let p2 = i1 + le;
    let i2 = p2 + 1;
    let i3 = i2 + 10;
    lemma_snapshot_layout(w);
    assert(v.subrange(0, i1) == "{\"root\":\""@);
    assert(v.subrange(i1, p2) == esc(w.root));
    assert(v.subrange(p2, i3) == "\",\"files\":["@);
    assert(sp_match(v, 0, "{\"root\":\""@) == Some(i1));
    assert(v[p2] == '"') by {
        assert(v.subrange(p2, i3)[0] == v[p2]);
    }
    lemma_parse_esc(v, i1, i2, w.root);
    assert(v.subrange(i2, i3) =~= ",\"files\":["@) by {
        assert(forall|k: int|
            0 <= k < 10 ==> #[trigger] v.subrange(i2, i3)[k] == v[i2 + k]);
        assert(forall|k: int| 0 <= k < 10 ==> #[trigger] v[i2 + k] == "\",\"files\":["@[k + 1]);
    }
    assert(sp_match(v, i2, ",\"files\":["@) == Some(i3));
}

/// The tail of the canonical text parses: the closing bracket, the scan
/// time and the final brace, ending exactly at the end of the text.
#[verifier::rlimit(80)]
proof fn lemma_snapshot_tail(w: ScanResultV)
    ensures
        ({
            let v = json_of_snapshot(w);
            let le = esc(w.root).len() as int;
            let lf = json_of_records(w.files).len() as int;
            let lt = dec_str(w.scan_time as nat).len() as int;
            let p4 = 20 + le + lf;
            &&& v[p4] == ']'
            &&& sp_match(v, p4, "]"@) == Some(p4 + 1)
            &&& sp_match(v, p4 + 1, ",\"scan_time\":"@) == Some(p4 + 14)
            &&& sp_parse_u64(v, p4 + 14) == Some((w.scan_time, p4 + 14 + lt))
            &&& sp_match(v, p4 + 14 + lt, "}"@) == Some(p4 + 15 + lt)
            &&& v.len() == p4 + 15 + lt
        }),
{
    reveal_strlit("],\"scan_time\":");
    reveal_strlit(",\"scan_time\":");
    reveal_strlit("]");
    reveal_strlit("}");
    let v = json_of_snapshot(w);
    let le = esc(w.root).len() as int;
    let lf = json_of_records(w.files).len() as int;
    let lt = dec_str(w.scan_time as nat).len() as int;
    let p4 = 20 + le + lf;
    let i5 = p4 + 14;
    let p6 = i5 + lt;
    lemma_dec_str_digits(w.scan_time as nat);
    lemma_snapshot_layout(w);
    assert(v.subrange(p4, i5) == "],\"scan_time\":"@);
    assert(v.subrange(i5, p6) == dec_str(w.scan_time as nat));
    assert(v[p6] == '}');
    assert(v.len() == p6 + 1);
    assert(v[p4] == ']') by {
        assert(v.subrange(p4, i5)[0] == v[p4]);
    }
    assert(v.subrange(p4, p4 + 1) =~= "]"@);
    assert(sp_match(v, p4, "]"@) == Some(p4 + 1));
    assert(v.subrange(p4 + 1, i5) =~= ",\"scan_time\":"@) by {
        assert(forall|k: int|
            0 <= k < 13 ==> #[trigger] v.subrange(p4 + 1, i5)[k] == v[p4 + 1 + k]);
        assert(forall|k: int|
            0 <= k < 13 ==> #[trigger] v[p4 + 1 + k] == "],\"scan_time\":"@[k + 1]);
    }
    assert(sp_match(v, p4 + 1, ",\"scan_time\":"@) == Some(i5));
    assert(!is_dec_digit(v[p6]));
    lemma_parse_u64(v, i5, p6, w.scan_time);
    assert(v.subrange(p6, p6 + 1) =~= "}"@);
    assert(sp_match(v, p6, "}"@) == Some(p6 + 1));
}

/// The record list of the canonical text parses back to the files.
#[verifier::rlimit(80)]
proof fn lemma_snapshot_files(w: ScanResultV)
    requires
        w.files.len() > 0,
        forall|k: int| 0 <= k < w.files.len() ==> chars_valid((#[trigger] w.files[k]).path),
    ensures
        ({
            let v = json_of_snapshot(w);
            let le = esc(w.root).len() as int;
            let lf = json_of_records(w.files).len() as int;
            &&& v[20 + le] == '{'
            &&& sp_parse_records(v, 20 + le) == Some((w.files, 20 + le + lf))
        }),
{
    let v = json_of_snapshot(w);
    let le = esc(w.root).len() as int;
    let lf = json_of_records(w.files).len() as int;
    let i3 = 20 + le;
    let p4 = i3 + lf;
    lemma_snapshot_layout(w);
    assert(v.subrange(i3, p4) == json_of_records(w.files));
    assert(v[p4] == ']') by {
        reveal_strlit("],\"scan_time\":");
        assert(v.subrange(p4, p4 + 14) == "],\"scan_time\":"@);
        assert(v.subrange(p4, p4 + 14)[0] == v[p4]);
    }
    lemma_parse_records(v, i3, p4, w.files);
    assert(v[i3] == '{') by {
        reveal_strlit("{\"path\":\"");
        lemma_records_front(w.files);
        assert(v.subrange(i3, p4)[0] == v[i3]);
        assert(json_of_records(w.files)[0] == json_of_record(w.files.first())[0]);
    }
}

/// Saving a snapshot and reloading it reproduces every field: the parser
/// applied to the canonical text of any snapshot yields that snapshot,
/// timestamps already being whole seconds.
#[verifier::rlimit(80)]
pub proof fn lemma_snapshot_round_trip(w: ScanResultV)
    requires
        chars_valid(w.root),
        forall|k: int| 0 <= k < w.files.len() ==> chars_valid((#[trigger] w.files[k]).path),
    ensures
        sp_parse_snapshot(json_of_snapshot(w)) == Some(w),
{
    let v = json_of_snapshot(w);
    let le = esc(w.root).len() as int;
    let lf = json_of_records(w.files).len() as int;
    let lt = dec_str(w.scan_time as nat).len() as int;
    let i3 = 20 + le;
    let p4 = i3 + lf;
    lemma_snapshot_header(w);
    lemma_snapshot_tail(w);
    if w.files.len() == 0 {
        assert(lf == 0);
        assert(w.files =~= Seq::<FileMetaV>::empty());
    } else {
        lemma_snapshot_files(w);
        assert(v[i3] != ']');
    }
}

} // verus!
