//! General laws of the grouping formatter.
//!
//! Each public proof function here states one property that holds of every
//! input, over the same specification model that the executable contracts
//! use. The equivalence of the in-place pass with the allocating formatter
//! on separator-free input stands beside the model itself, as
//! `crate::grouping::lemma_in_place_separator_free`.

use vstd::prelude::*;

use crate::grouping::grouped;
use crate::grouping::grouped_digits;
use crate::grouping::integer_end;
use crate::grouping::lemma_grouped_digits_keeps_absent;
use crate::grouping::lemma_grouped_digits_len;
use crate::grouping::lemma_grouped_digits_strip;
use crate::grouping::lemma_grouped_strip;
use crate::grouping::lemma_integer_end_bounds;
use crate::grouping::lemma_integer_end_dot_free;
use crate::grouping::lemma_integer_end_first_dot;
use crate::grouping::lemma_integer_end_split;
use crate::grouping::lemma_separator_count_strip;
use crate::grouping::lemma_strip_append;
use crate::grouping::lemma_strip_keeps_absent;
use crate::grouping::lemma_strip_no_separators;
use crate::grouping::lemma_strip_separator_free;
use crate::grouping::separator_count;
use crate::grouping::strip_separators;

verus! {

/// A separator-free integer string of length `n` gains exactly
/// `(n - 1) / 3` separators — none at all when `n <= 3` — and stripping
/// the separators out of the result gives the input back unchanged.
pub proof fn lemma_separator_count(s: Seq<char>)
    requires
        forall|i: int| 0 <= i < s.len() ==> s[i] != ',',
        forall|i: int| 0 <= i < s.len() ==> s[i] != '.',
    ensures
        strip_separators(grouped(s)) == s,
        s.len() >= 1 ==> separator_count(grouped(s)) == (s.len() - 1) / 3,
        s.len() <= 3 ==> separator_count(grouped(s)) == 0,
{
    lemma_strip_separator_free(s);
    lemma_integer_end_dot_free(s);
    assert(s.subrange(0, s.len() as int) =~= s);
    assert(grouped(s) =~= grouped_digits(s));
    lemma_grouped_digits_strip(s);
    lemma_grouped_digits_len(s);
    lemma_separator_count_strip(grouped(s));
}

/// Grouping is idempotent: the formatter run on its own output changes
/// nothing.
pub proof fn lemma_idempotent(s: Seq<char>)
    ensures
        grouped(grouped(s)) == grouped(s),
{
    lemma_grouped_strip(s);
}

/// The fractional part — the first decimal point and all that follows it —
/// is carried over unchanged, whenever no separator stands inside it. (A
/// separator after the decimal point is stripped like any other, so there
/// the law cannot hold.)
pub proof fn lemma_fraction_preserved(s: Seq<char>)
    requires
        integer_end(s) < s.len(),
        forall|j: int| integer_end(s) <= j < s.len() ==> s[j] != ',',
    ensures
        grouped(s).subrange(integer_end(grouped(s)), grouped(s).len() as int) == s.subrange(
            integer_end(s),
            s.len() as int,
        ),
{
    let k0 = integer_end(s);
    lemma_integer_end_first_dot(s);
    let a = s.subrange(0, k0);
    let f = s.subrange(k0, s.len() as int);
    assert(s =~= a + f);
    assert(forall|i: int| 0 <= i < f.len() ==> f[i] != ',');
    assert(forall|i: int| 0 <= i < a.len() ==> a[i] != '.');
    lemma_strip_append(a, f);
    lemma_strip_separator_free(f);
    lemma_strip_keeps_absent(a, '.');
    let t = strip_separators(s);
    assert(f[0] == '.');
    lemma_integer_end_split(strip_separators(a), f);
    let k = integer_end(t);
    assert(k == strip_separators(a).len());
    assert(t.subrange(0, k) =~= strip_separators(a));
    assert(t.subrange(k, t.len() as int) =~= f);
    let g = grouped_digits(strip_separators(a));
    lemma_strip_no_separators(s);
    assert(forall|i: int| 0 <= i < strip_separators(a).len() ==> strip_separators(a)[i] != '.');
    lemma_grouped_digits_keeps_absent(strip_separators(a), '.');
    lemma_integer_end_split(g, f);
    assert(grouped(s) == g + f);
    assert(integer_end(grouped(s)) == g.len());
    assert(grouped(s).subrange(integer_end(grouped(s)), grouped(s).len() as int) =~= f);
}

/// Stripping commutes with a renaming of the characters that neither
/// introduces nor loses separators.
proof fn lemma_strip_map(s: Seq<char>, rename: spec_fn(char) -> char)
    requires
        rename(',') == ',',
        forall|c: char| #[trigger] rename(c) == ',' ==> c == ',',
    ensures
        strip_separators(s.map_values(rename)) == strip_separators(s).map_values(rename),
    decreases s.len(),
{
    let sm = s.map_values(rename);
    if s.len() == 0 {
        assert(sm =~= Seq::<char>::empty());
        assert(strip_separators(s).map_values(rename) =~= Seq::<char>::empty());
    } else {
        let s1 = s.subrange(1, s.len() as int);
        assert(sm.subrange(1, sm.len() as int) =~= s1.map_values(rename));
        lemma_strip_map(s1, rename);
        if s[0] == ',' {
            assert(sm[0] == ',');
        } else {
            assert(sm[0] != ',');
            assert(strip_separators(sm) == seq![rename(s[0])] + strip_separators(
                s1,
            ).map_values(rename));
            assert((seq![s[0]] + strip_separators(s1)).map_values(rename) =~= seq![rename(s[0])]
                + strip_separators(s1).map_values(rename));
        }
    }
}

/// The integer-part boundary commutes with a renaming of the characters
/// that neither introduces nor loses decimal points.
proof fn lemma_integer_end_map(s: Seq<char>, rename: spec_fn(char) -> char)
    requires
        rename('.') == '.',
        forall|c: char| #[trigger] rename(c) == '.' ==> c == '.',
    ensures
        integer_end(s.map_values(rename)) == integer_end(s),
    decreases s.len(),
{
    let sm = s.map_values(rename);
    if s.len() == 0 {
        assert(sm =~= Seq::<char>::empty());
    } else {
        let s1 = s.subrange(1, s.len() as int);
        assert(sm.subrange(1, sm.len() as int) =~= s1.map_values(rename));
        lemma_integer_end_map(s1, rename);
        if s[0] == '.' {
            assert(sm[0] == '.');
        } else {
            assert(sm[0] != '.');
        }
    }
}

/// Grouping the integer part commutes with a renaming of the characters
/// that keeps the separator fixed.
proof fn lemma_grouped_digits_map(d: Seq<char>, rename: spec_fn(char) -> char)
    requires
        rename(',') == ',',
    ensures
        grouped_digits(d.map_values(rename)) == grouped_digits(d).map_values(rename),
    decreases d.len(),
{
    let dm = d.map_values(rename);
    let n = d.len() as int;
    if d.len() <= 3 {
        assert(grouped_digits(dm) == dm);
    } else {
        let front = d.subrange(0, n - 3);
        let back = d.subrange(n - 3, n);
        assert(dm.subrange(0, n - 3) =~= front.map_values(rename));
        assert(dm.subrange(n - 3, n) =~= back.map_values(rename));
        lemma_grouped_digits_map(front, rename);
        assert((grouped_digits(front) + seq![','] + back).map_values(rename) =~= grouped_digits(
            front,
        ).map_values(rename) + seq![','] + back.map_values(rename));
    }
}

/// Grouping is positional, not value-based: renaming the characters —
/// provided the separator and the decimal point are neither introduced nor
/// lost by the renaming — commutes with the formatter, so digit characters
/// of any script are grouped alike.
pub proof fn lemma_script_agnostic(s: Seq<char>, rename: spec_fn(char) -> char)
    requires
        rename(',') == ',',
        rename('.') == '.',
        forall|c: char| #[trigger] rename(c) == ',' ==> c == ',',
        forall|c: char| #[trigger] rename(c) == '.' ==> c == '.',
    ensures
        grouped(s.map_values(rename)) == grouped(s).map_values(rename),
{
    let t = strip_separators(s);
    lemma_integer_end_bounds(t);
    let k = integer_end(t);
    lemma_strip_map(s, rename);
    lemma_integer_end_map(t, rename);
    let tm = t.map_values(rename);
    assert(tm.subrange(0, k) =~= t.subrange(0, k).map_values(rename));
    assert(tm.subrange(k, tm.len() as int) =~= t.subrange(k, t.len() as int).map_values(rename));
    lemma_grouped_digits_map(t.subrange(0, k), rename);
    assert(grouped(s.map_values(rename)) == grouped_digits(t.subrange(0, k)).map_values(rename)
        + t.subrange(k, t.len() as int).map_values(rename));
    assert((grouped_digits(t.subrange(0, k)) + t.subrange(k, t.len() as int)).map_values(rename)
        =~= grouped_digits(t.subrange(0, k)).map_values(rename) + t.subrange(
        k,
        t.len() as int,
    ).map_values(rename));
}

} // verus!
