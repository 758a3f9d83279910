//! Path-similarity scoring for rename detection.
//!
//! When a source file's fingerprint matches several destination files, the
//! candidates are ranked by how similar their paths are to the source path.
//! A score is an exact rational in `[0, 1]`: an exact file-name match scores
//! a fixed `9/10` (kept below `1`, which only identical full strings reach),
//! and otherwise the score is the weighted sum
//! `7/10 * name similarity + 3/10 * directory similarity`, each term a
//! symmetric Jaccard index over the character sets of the two strings.
//! Scores are compared exactly by cross-multiplication, so ranking never
//! depends on rounding.

use vstd::prelude::*;
use vstd::set_lib::*;

use crate::paths::{chars_eq, name_start, spec_dir_name, spec_file_name, str_chars};

verus! {

/// An exact non-negative rational score.
pub ghost struct Frac {
    pub num: int,
    pub den: int,
}

/// A score is well formed when its denominator is positive and its value
/// lies in `[0, 1]`.
pub open spec fn frac_wf(f: Frac) -> bool {
    0 < f.den && 0 <= f.num <= f.den
}

/// Exact comparison of two rationals by cross-multiplication.
pub open spec fn frac_lt(a: Frac, b: Frac) -> bool {
    a.num * b.den < b.num * a.den
}

/// The score is exactly zero.
pub open spec fn frac_is_zero(f: Frac) -> bool {
    f.num == 0
}

/// The score is strictly positive.
pub open spec fn frac_pos(f: Frac) -> bool {
    f.num > 0
}

/// The rational that an executable numerator/denominator pair stands for.
pub open spec fn frac_of(p: (u64, u64)) -> Frac {
    Frac { num: p.0 as int, den: p.1 as int }
}

/// The score is exactly one.
pub open spec fn frac_is_one(f: Frac) -> bool {
    f.num == f.den
}

/// The set of characters occurring in a string.
pub open spec fn char_set(s: Seq<char>) -> Set<char> {
    s.to_set()
}

/// Jaccard character-set similarity of two strings: `1` for equal strings
/// (including two empty ones), `0` when exactly one side is empty, and
/// otherwise `|intersection| / |union|` of their character sets.
pub open spec fn spec_string_similarity(a: Seq<char>, b: Seq<char>) -> Frac {
    if a == b {
        Frac { num: 1, den: 1 }
    } else if a.len() == 0 || b.len() == 0 {
        Frac { num: 0, den: 1 }
    } else {
        Frac {
            num: char_set(a).intersect(char_set(b)).len() as int,
            den: (char_set(a) + char_set(b)).len() as int,
        }
    }
}

/// Similarity of two relative paths: `9/10` on an exact file-name match,
/// otherwise file-name similarity weighted `7/10` plus directory similarity
/// weighted `3/10` (the directory term is zero when either path is empty,
/// which has no directory part at all).
pub open spec fn spec_path_similarity(p: Seq<char>, q: Seq<char>) -> Frac {
    let n1 = spec_file_name(p);
    let n2 = spec_file_name(q);
    if n1 == n2 {
        Frac { num: 9, den: 10 }
    } else {
        let f = spec_string_similarity(n1, n2);
        let d = if p.len() > 0 && q.len() > 0 {
            spec_string_similarity(spec_dir_name(p), spec_dir_name(q))
        } else {
            Frac { num: 0, den: 1 }
        };
        Frac { num: 7 * f.num * d.den + 3 * d.num * f.den, den: 10 * f.den * d.den }
    }
}

/// Number of distinct `char` values; no character set can be larger.
pub const CHAR_SET_BOUND: u64 = 0x110000;

/// Upper bound on the denominator of a string-similarity score.
pub const SIM_DEN_BOUND: u64 = 0x220000;

/// Upper bound on the denominator of a path-similarity score.
pub const SCORE_DEN_BOUND: u64 = 10 * 0x220000 * 0x220000;

/// Every `char` value is a Unicode scalar value, so its code point lies
/// below `0x110000`.
pub proof fn lemma_char_bound(c: char)
    ensures
        0 <= (c as int) && (c as int) < 0x110000,
{
}

/// A duplicate-free sequence of characters with valid code points has at
/// most `CHAR_SET_BOUND` elements, because distinct characters have
/// distinct code points below that bound.
pub proof fn lemma_distinct_chars_bound(s: Seq<char>)
    requires
        s.no_duplicates(),
        forall|k: int| 0 <= k < s.len() ==> 0 <= (#[trigger] s[k] as int) < 0x110000,
    ensures
        s.len() <= CHAR_SET_BOUND,
{
    let t = s.map_values(|c: char| c as int);
    assert(t.no_duplicates()) by {
        assert forall|i: int, j: int| 0 <= i < j < t.len() implies t[i] != t[j] by {
            assert(t[i] == s[i] as int);
            assert(t[j] == s[j] as int);
        }
    }
    t.unique_seq_to_set();
    lemma_int_range(0, CHAR_SET_BOUND as int);
    assert(t.to_set().subset_of(set_int_range(0, CHAR_SET_BOUND as int))) by {
        assert forall|x: int| t.to_set().contains(x) implies set_int_range(
            0,
            CHAR_SET_BOUND as int,
        ).contains(x) by {
            assert(t.contains(x));
            assert(t.len() == s.len());
            let k = choose|k: int| 0 <= k < t.len() && t[k] == x;
            assert(t[k] == s[k] as int);
        }
    }
    lemma_len_subset(t.to_set(), set_int_range(0, CHAR_SET_BOUND as int));
}

/// A string-similarity score is a well-formed rational: its denominator is
/// positive and its value lies in `[0, 1]`.
pub proof fn lemma_string_similarity_wf(a: Seq<char>, b: Seq<char>)
    ensures
        frac_wf(spec_string_similarity(a, b)),
{
    broadcast use vstd::seq_lib::seq_to_set_is_finite;

    if a == b {
    } else if a.len() == 0 || b.len() == 0 {
    } else {
        let ca = char_set(a);
        let cb = char_set(b);
        assert(a.contains(a[0]));
        assert(ca.contains(a[0]));
        assert((ca + cb).contains(a[0]));
        lemma_len_subset(ca.intersect(cb), ca + cb);
        assert((ca + cb).len() >= 1) by {
            if (ca + cb).len() == 0 {
                lemma_set_empty_equivalency_len(ca + cb);
            }
        }
    }
}

/// A path-similarity score is a well-formed rational: its denominator is
/// positive and its value lies in `[0, 1]`.
pub proof fn lemma_path_similarity_wf(p: Seq<char>, q: Seq<char>)
    ensures
        frac_wf(spec_path_similarity(p, q)),
{
    let n1 = spec_file_name(p);
    let n2 = spec_file_name(q);
    if n1 == n2 {
    } else {
        lemma_string_similarity_wf(n1, n2);
        lemma_string_similarity_wf(spec_dir_name(p), spec_dir_name(q));
        let f = spec_string_similarity(n1, n2);
        let d = if p.len() > 0 && q.len() > 0 {
            spec_string_similarity(spec_dir_name(p), spec_dir_name(q))
        } else {
            Frac { num: 0, den: 1 }
        };
        assert(7 * f.num * d.den + 3 * d.num * f.den <= 10 * f.den * d.den) by (nonlinear_arith)
            requires
                0 <= f.num <= f.den,
                0 <= d.num <= d.den,
                0 < f.den,
                0 < d.den,
        ;
        assert(0 < 10 * f.den * d.den) by (nonlinear_arith)
            requires
                0 < f.den,
                0 < d.den,
        ;
        assert(0 <= 7 * f.num * d.den + 3 * d.num * f.den) by (nonlinear_arith)
            requires
                0 <= f.num,
                0 <= d.num,
                0 < f.den,
                0 < d.den,
        ;
    }
}

/// Ordering of scores is transitive: anything at most `b` is strictly
/// below anything strictly above `b`.
pub proof fn lemma_frac_le_lt_trans(a: Frac, b: Frac, c: Frac)
    requires
        a.den > 0,
        b.den > 0,
        c.den > 0,
        !frac_lt(b, a),
        frac_lt(b, c),
    ensures
        frac_lt(a, c),
        !frac_lt(c, a),
{
    assert(a.num * c.den < c.num * a.den) by (nonlinear_arith)
        requires
            a.den > 0,
            b.den > 0,
            c.den > 0,
            a.num * b.den <= b.num * a.den,
            b.num * c.den < c.num * b.den,
    ;
}

/// A score strictly above a non-negative score is positive.
pub proof fn lemma_frac_lt_pos(a: Frac, c: Frac)
    requires
        a.den > 0,
        c.den > 0,
        0 <= a.num,
        frac_lt(a, c),
    ensures
        frac_pos(c),
{
    assert(c.num > 0) by (nonlinear_arith)
        requires
            a.den > 0,
            c.den > 0,
            0 <= a.num,
            a.num * c.den < c.num * a.den,
    ;
}

/// A positive score is strictly above the zero score.
pub proof fn lemma_frac_pos_gt_zero(z: Frac, c: Frac)
    requires
        z.num == 0,
        z.den > 0,
        c.den > 0,
        frac_pos(c),
    ensures
        frac_lt(z, c),
        !frac_lt(c, z),
{
    assert(z.num * c.den < c.num * z.den) by (nonlinear_arith)
        requires
            z.num == 0,
            z.den > 0,
            c.num > 0,
    ;
}

/// Similarity is symmetric: the score of `(a, b)` equals that of `(b, a)`.
pub proof fn lemma_similarity_symmetric(a: Seq<char>, b: Seq<char>)
    ensures
        spec_string_similarity(a, b) == spec_string_similarity(b, a),
{
    if a == b {
    } else if a.len() == 0 || b.len() == 0 {
    } else {
        assert(char_set(a).intersect(char_set(b)) =~= char_set(b).intersect(char_set(a)));
        assert(char_set(a) + char_set(b) =~= char_set(b) + char_set(a));
    }
}

/// A string is fully similar to itself: the score is exactly one, also for
/// the empty string.
pub proof fn lemma_similarity_identity(a: Seq<char>)
    ensures
        frac_is_one(spec_string_similarity(a, a)),
        spec_string_similarity(a, a) == (Frac { num: 1, den: 1 }),
{
}

/// Any non-empty string scores exactly zero against the empty string.
pub proof fn lemma_similarity_empty(a: Seq<char>)
    requires
        a.len() > 0,
    ensures
        frac_is_zero(spec_string_similarity(a, Seq::empty())),
        frac_is_zero(spec_string_similarity(Seq::empty(), a)),
{
    assert(a != Seq::<char>::empty());
}

/// Path similarity is symmetric in its two paths.
pub proof fn lemma_path_similarity_symmetric(p: Seq<char>, q: Seq<char>)
    ensures
        spec_path_similarity(p, q) == spec_path_similarity(q, p),
{
    lemma_similarity_symmetric(spec_file_name(p), spec_file_name(q));
    lemma_similarity_symmetric(spec_dir_name(p), spec_dir_name(q));
}

/// Does the vector contain the character?
fn contains_char(v: &Vec<char>, c: char) -> (r: bool)
    ensures
        r == v@.contains(c),
{
    let n = v.len();
    let mut i: usize = 0;
    while i < n
        invariant
            n == v@.len(),
            0 <= i <= n,
            forall|k: int| 0 <= k < i ==> v@[k] != c,
        decreases n - i,
    {
        if v[i] == c {
            assert(v@[i as int] == c);
            return true;
        }
        i += 1;
    }
    false
}

/// Copy the characters of `v[from..to]` into a fresh vector.
fn copy_range(v: &Vec<char>, from: usize, to: usize) -> (out: Vec<char>)
    requires
        from <= to <= v@.len(),
    ensures
        out@ == v@.subrange(from as int, to as int),
{
    let mut out: Vec<char> = Vec::new();
    let mut i: usize = from;
    while i < to
        invariant
            from <= i <= to <= v@.len(),
            out@ == v@.subrange(from as int, i as int),
        decreases to - i,
    {
        out.push(v[i]);
        assert(out@ =~= v@.subrange(from as int, i as int + 1));
        i += 1;
    }
    out
}

/// The distinct characters of `v[from..to]`, in first-seen order.
fn distinct_chars_range(v: &Vec<char>, from: usize, to: usize) -> (out: Vec<char>)
    requires
        from <= to <= v@.len(),
    ensures
        out@.no_duplicates(),
        out@.to_set() == v@.subrange(from as int, to as int).to_set(),
        out@.len() <= CHAR_SET_BOUND,
{
    broadcast use vstd::seq_lib::seq_to_set_is_finite;

    let mut out: Vec<char> = Vec::new();
    let mut i: usize = from;
    while i < to
        invariant
            from <= i <= to <= v@.len(),
            out@.no_duplicates(),
            out@.to_set() == v@.subrange(from as int, i as int).to_set(),
            forall|k: int| 0 <= k < out@.len() ==> 0 <= (#[trigger] out@[k] as int) < 0x110000,
        decreases to - i,
    {
        let c = v[i];
        proof {
            lemma_char_bound(c);
            assert(v@.subrange(from as int, i as int + 1) =~= v@.subrange(
                from as int,
                i as int,
            ).push(v@[i as int]));
            v@.subrange(from as int, i as int).lemma_push_to_set_commute(v@[i as int]);
        }
        if !contains_char(&out, c) {
            proof {
                assert forall|p: int, q: int|
                    0 <= p < q < out@.push(c).len() implies out@.push(c)[p] != out@.push(
                    c,
                )[q] by {
                    if q == out@.len() {
                        assert(out@[p] == out@.push(c)[p]);
                        if out@[p] == c {
                            assert(out@.contains(c));
                        }
                    }
                }
                out@.lemma_push_to_set_commute(c);
            }
            out.push(c);
        } else {
            proof {
                assert(out@.to_set().insert(c) =~= out@.to_set());
            }
        }
        i += 1;
    }
    proof {
        lemma_distinct_chars_bound(out@);
    }
    out
}

/// Count how many elements of the duplicate-free vector `a` occur in `b`:
/// the size of the intersection of their character sets.
fn count_common(a: &Vec<char>, b: &Vec<char>) -> (r: usize)
    requires
        a@.no_duplicates(),
    ensures
        r as int == a@.to_set().intersect(b@.to_set()).len(),
        r <= a@.len(),
{
    broadcast use vstd::seq_lib::seq_to_set_is_finite;

    proof {
        assert(a@.take(0).to_set() =~= Set::<char>::empty());
        assert(Set::<char>::empty().intersect(b@.to_set()) =~= Set::<char>::empty());
    }
    let n = a.len();
    let mut count: usize = 0;
    let mut i: usize = 0;
    while i < n
        invariant
            n == a@.len(),
            0 <= i <= n,
            count <= i,
            a@.no_duplicates(),
            count as int == a@.take(i as int).to_set().intersect(b@.to_set()).len(),
        decreases n - i,
    {
        let c = a[i];
        proof {
            a@.lemma_take_succ_push(i as int);
            a@.take(i as int).lemma_push_to_set_commute(a@[i as int]);
        }
        let ghost x = a@.take(i as int).to_set();
        let ghost bb = b@.to_set();
        if contains_char(b, c) {
            proof {
                assert(bb.contains(c));
                assert(x.insert(c).intersect(bb) =~= x.intersect(bb).insert(c));
                assert(!x.contains(c)) by {
                    if a@.take(i as int).contains(c) {
                        let k = choose|k: int|
                            0 <= k < i && a@.take(i as int)[k] == c;
                        assert(a@[k] == a@[i as int]);
                    }
                }
                assert(!x.intersect(bb).contains(c));
                lemma_len_intersect(x, bb);
            }
            count += 1;
        } else {
            proof {
                assert(!bb.contains(c));
                assert(x.insert(c).intersect(bb) =~= x.intersect(bb));
            }
        }
        i += 1;
    }
    proof {
        assert(a@.take(n as int) =~= a@);
        a@.unique_seq_to_set();
        lemma_len_intersect(a@.to_set(), b@.to_set());
    }
    count
}

/// Jaccard similarity of two character vectors, as an exact rational.
fn vec_string_similarity(a: &Vec<char>, b: &Vec<char>) -> (r: (u64, u64))
    ensures
        r.0 == spec_string_similarity(a@, b@).num,
        r.1 == spec_string_similarity(a@, b@).den,
        0 < r.1 <= SIM_DEN_BOUND,
        r.0 <= r.1,
{
    broadcast use vstd::seq_lib::seq_to_set_is_finite;

    proof {
        lemma_string_similarity_wf(a@, b@);
    }
    if chars_eq(a, b) {
        return (1, 1);
    }
    if a.len() == 0 || b.len() == 0 {
        return (0, 1);
    }
    let da = distinct_chars_range(a, 0, a.len());
    let db = distinct_chars_range(b, 0, b.len());
    proof {
        assert(a@.subrange(0, a@.len() as int) =~= a@);
        assert(b@.subrange(0, b@.len() as int) =~= b@);
    }
    let inter = count_common(&da, &db);
    proof {
        broadcast use vstd::seq_lib::seq_to_set_is_finite;

        da@.unique_seq_to_set();
        db@.unique_seq_to_set();
        lemma_set_intersect_union_lens(char_set(a@), char_set(b@));
        lemma_len_subset(char_set(a@).intersect(char_set(b@)), char_set(a@) + char_set(b@));
        assert(char_set(a@).contains(a@[0]));
        assert((char_set(a@) + char_set(b@)).contains(a@[0]));
        assert((char_set(a@) + char_set(b@)).len() >= 1) by {
            if (char_set(a@) + char_set(b@)).len() == 0 {
                lemma_set_empty_equivalency_len(char_set(a@) + char_set(b@));
            }
        }
    }
    let union_size = da.len() + db.len() - inter;
    (inter as u64, union_size as u64)
}

/// Similarity score of two relative paths, as an exact rational.
///
/// An exact file-name match scores `9/10`; otherwise the score weights the
/// file-name similarity by `7/10` and the directory similarity by `3/10`.
pub fn path_similarity(p: &str, q: &str) -> (r: (u64, u64))
    ensures
        r.0 == spec_path_similarity(p@, q@).num,
        r.1 == spec_path_similarity(p@, q@).den,
        0 < r.1 <= SCORE_DEN_BOUND,
        r.0 <= r.1,
{
    proof {
        lemma_path_similarity_wf(p@, q@);
    }
    let v1 = str_chars(p);
    let v2 = str_chars(q);
    proof {
        crate::paths::lemma_last_slash_index(v1@);
        crate::paths::lemma_last_slash_index(v2@);
    }
    let ns1 = name_start(&v1);
    let ns2 = name_start(&v2);
    let n1 = copy_range(&v1, ns1, v1.len());
    let n2 = copy_range(&v2, ns2, v2.len());
    proof {
        assert(n1@ =~= spec_file_name(p@));
        assert(n2@ =~= spec_file_name(q@));
    }
    if chars_eq(&n1, &n2) {
        return (9, 10);
    }
    let f = vec_string_similarity(&n1, &n2);
    let d: (u64, u64) = if v1.len() > 0 && v2.len() > 0 {
        let d1 = copy_range(&v1, 0, if ns1 == 0 { 0 } else { ns1 - 1 });
        let d2 = copy_range(&v2, 0, if ns2 == 0 { 0 } else { ns2 - 1 });
        proof {
            assert(d1@ =~= spec_dir_name(p@));
            assert(d2@ =~= spec_dir_name(q@));
        }
        vec_string_similarity(&d1, &d2)
    } else {
        (0, 1)
    };
    proof {
        assert(7 * f.0 * d.1 + 3 * d.0 * f.1 <= 10 * f.1 * d.1 <= SCORE_DEN_BOUND)
            by (nonlinear_arith)
            requires
                0 <= f.0 <= f.1,
                0 <= d.0 <= d.1,
                0 < f.1 <= SIM_DEN_BOUND,
                0 < d.1 <= SIM_DEN_BOUND,
        ;
    }
    let num = 7 * f.0 * d.1 + 3 * d.0 * f.1;
    let den = 10 * f.1 * d.1;
    (num, den)
}

/// Jaccard character-set similarity of two strings, as an exact rational.
///
/// Equal strings (including two empty ones) score `1/1`; when exactly one
/// side is empty the score is `0/1`; otherwise it is the size of the
/// intersection of the two character sets over the size of their union.
pub fn simple_string_similarity(s1: &str, s2: &str) -> (r: (u64, u64))
    ensures
        r.0 == spec_string_similarity(s1@, s2@).num,
        r.1 == spec_string_similarity(s1@, s2@).den,
        0 < r.1 <= SIM_DEN_BOUND,
        r.0 <= r.1,
{
    let v1 = str_chars(s1);
    let v2 = str_chars(s2);
    vec_string_similarity(&v1, &v2)
}

/// Is the score `a` strictly greater than the score `b`?
///
/// Exact comparison by cross-multiplication; the products are taken at
/// 128 bits, which cannot overflow.
pub fn score_gt(a: (u64, u64), b: (u64, u64)) -> (r: bool)
    ensures
        r == frac_lt(frac_of(b), frac_of(a)),
{
    proof {
        assert((a.0 as int) * (b.1 as int) <= 0xFFFF_FFFF_FFFF_FFFF * 0xFFFF_FFFF_FFFF_FFFF)
            by (nonlinear_arith)
            requires
                0 <= a.0 as int <= 0xFFFF_FFFF_FFFF_FFFF,
                0 <= b.1 as int <= 0xFFFF_FFFF_FFFF_FFFF,
        ;
        assert((b.0 as int) * (a.1 as int) <= 0xFFFF_FFFF_FFFF_FFFF * 0xFFFF_FFFF_FFFF_FFFF)
            by (nonlinear_arith)
            requires
                0 <= b.0 as int <= 0xFFFF_FFFF_FFFF_FFFF,
                0 <= a.1 as int <= 0xFFFF_FFFF_FFFF_FFFF,
        ;
    }
    (a.0 as u128) * (b.1 as u128) > (b.0 as u128) * (a.1 as u128)
}

} // verus!
