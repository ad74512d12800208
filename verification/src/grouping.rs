//! The mathematical model of comma grouping.
//!
//! A numeric string is a `Seq<char>`. Its integer part is everything before
//! the first `'.'`; the fractional part is the first `'.'` and everything
//! after it. `grouped` describes the allocating formatter: strip every
//! `','`, then separate the integer part into groups of three characters
//! counted from the right. `in_place_grouped` describes the in-place
//! formatter, which tolerates pre-existing separators instead of stripping
//! them first.

use vstd::prelude::*;

verus! {

/// `s` with every separator character removed, order kept.
pub open spec fn strip_separators(s: Seq<char>) -> Seq<char>
    decreases s.len(),
{
    if s.len() == 0 {
        Seq::empty()
    } else if s[0] == ',' {
        strip_separators(s.subrange(1, s.len() as int))
    } else {
        seq![s[0]] + strip_separators(s.subrange(1, s.len() as int))
    }
}

/// How many separator characters `s` holds.
pub open spec fn separator_count(s: Seq<char>) -> nat
    decreases s.len(),
{
    if s.len() == 0 {
        0
    } else if s[0] == ',' {
        1 + separator_count(s.subrange(1, s.len() as int))
    } else {
        separator_count(s.subrange(1, s.len() as int))
    }
}

/// The index of the first decimal point in `s`, or `s.len()` if there is none.
pub open spec fn integer_end(s: Seq<char>) -> int
    decreases s.len(),
{
    if s.len() == 0 {
        0
    } else if s[0] == '.' {
        0
    } else {
        1 + integer_end(s.subrange(1, s.len() as int))
    }
}

/// A separator-free integer part `d`, with a separator between every group
/// of three characters counted from the right.
pub open spec fn grouped_digits(d: Seq<char>) -> Seq<char>
    decreases d.len(),
{
    if d.len() <= 3 {
        d
    } else {
        grouped_digits(d.subrange(0, d.len() - 3)) + seq![','] + d.subrange(
            d.len() - 3,
            d.len() as int,
        )
    }
}

/// What the allocating formatter returns: strip the separators, group the
/// integer part, keep the fractional part as it stands.
pub open spec fn grouped(s: Seq<char>) -> Seq<char> {
    let t = strip_separators(s);
    let k = integer_end(t);
    grouped_digits(t.subrange(0, k)) + t.subrange(k, t.len() as int)
}

/// The first `j` characters of `d` as the grouped output carries them: a
/// separator stands before `d[m]` exactly when `m` is not 0 and the
/// characters from `d[m]` to the end of `d` fill whole groups of three.
pub open spec fn grouped_prefix(d: Seq<char>, j: int) -> Seq<char>
    decreases j,
{
    if j <= 0 {
        Seq::empty()
    } else if j - 1 != 0 && (d.len() - (j - 1)) % 3 == 0 {
        grouped_prefix(d, j - 1) + seq![','] + seq![d[j - 1]]
    } else {
        grouped_prefix(d, j - 1) + seq![d[j - 1]]
    }
}

/// The in-place insertion pass. `i` is the cursor and `end` the boundary of
/// the integer part, both counted in positions of the current sequence and
/// both moved forward whenever a separator goes in. A position already
/// holding a separator is skipped rather than doubled.
pub open spec fn inserted_from(s: Seq<char>, i: int, end: int) -> Seq<char>
    decreases end - i,
{
    if i >= end {
        s
    } else if (end - i) % 3 == 0 && i != 0 {
        if i < s.len() && s[i] != ',' {
            inserted_from(s.insert(i, ','), i + 2, end + 1)
        } else {
            inserted_from(s, i + 2, end + 1)
        }
    } else {
        inserted_from(s, i + 1, end)
    }
}

/// What the in-place formatter leaves behind: the insertion pass, run from
/// the start with the boundary set to the integer part's separator-free
/// length.
pub open spec fn in_place_grouped(s: Seq<char>) -> Seq<char> {
    inserted_from(s, 0, integer_end(strip_separators(s)))
}

pub proof fn lemma_strip_len(s: Seq<char>)
    ensures
        strip_separators(s).len() <= s.len(),
    decreases s.len(),
{
    if s.len() > 0 {
        lemma_strip_len(s.subrange(1, s.len() as int));
    }
}

pub proof fn lemma_strip_append(a: Seq<char>, b: Seq<char>)
    ensures
        strip_separators(a + b) == strip_separators(a) + strip_separators(b),
    decreases a.len(),
{
    if a.len() == 0 {
        assert(a + b =~= b);
        assert(strip_separators(a) + strip_separators(b) =~= strip_separators(b));
    } else {
        let a1 = a.subrange(1, a.len() as int);
        assert((a + b).subrange(1, (a + b).len() as int) =~= a1 + b);
        lemma_strip_append(a1, b);
        if a[0] != ',' {
            assert(seq![a[0]] + (strip_separators(a1) + strip_separators(b)) =~= (seq![a[0]]
                + strip_separators(a1)) + strip_separators(b));
        }
    }
}

pub proof fn lemma_strip_separator_free(s: Seq<char>)
    requires
        forall|i: int| 0 <= i < s.len() ==> s[i] != ',',
    ensures
        strip_separators(s) == s,
    decreases s.len(),
{
    if s.len() == 0 {
        assert(strip_separators(s) =~= s);
    } else {
        lemma_strip_separator_free(s.subrange(1, s.len() as int));
        assert(seq![s[0]] + s.subrange(1, s.len() as int) =~= s);
    }
}

pub proof fn lemma_strip_no_separators(s: Seq<char>)
    ensures
        forall|i: int|
            0 <= i < strip_separators(s).len() ==> strip_separators(s)[i] != ',',
    decreases s.len(),
{
    if s.len() > 0 {
        let s1 = s.subrange(1, s.len() as int);
        lemma_strip_no_separators(s1);
        if s[0] == ',' {
            assert(strip_separators(s) == strip_separators(s1));
        } else {
            assert(strip_separators(s) == seq![s[0]] + strip_separators(s1));
            assert forall|i: int|
                0 <= i < strip_separators(s).len() implies strip_separators(s)[i] != ',' by {
                if i > 0 {
                    assert(strip_separators(s)[i] == strip_separators(s1)[i - 1]);
                } else {
                    assert(strip_separators(s)[0] == s[0]);
                }
            }
        }
    }
}

/// A character other than the separator survives stripping nowhere if it
/// stood nowhere.
pub proof fn lemma_strip_keeps_absent(s: Seq<char>, c: char)
    requires
        forall|i: int| 0 <= i < s.len() ==> s[i] != c,
    ensures
        forall|i: int|
            0 <= i < strip_separators(s).len() ==> strip_separators(s)[i] != c,
    decreases s.len(),
{
    if s.len() > 0 {
        let s1 = s.subrange(1, s.len() as int);
        lemma_strip_keeps_absent(s1, c);
        assert forall|i: int|
            0 <= i < strip_separators(s).len() implies strip_separators(s)[i] != c by {
            if s[0] != ',' && i > 0 {
                assert(strip_separators(s)[i] == strip_separators(s1)[i - 1]);
            }
        }
    }
}

/// Stripping removes exactly the separators: the separator count is the
/// length that stripping takes away.
pub proof fn lemma_separator_count_strip(s: Seq<char>)
    ensures
        separator_count(s) + strip_separators(s).len() == s.len(),
    decreases s.len(),
{
    if s.len() > 0 {
        lemma_separator_count_strip(s.subrange(1, s.len() as int));
    }
}

pub proof fn lemma_integer_end_bounds(s: Seq<char>)
    ensures
        0 <= integer_end(s) <= s.len(),
    decreases s.len(),
{
    if s.len() > 0 && s[0] != '.' {
        lemma_integer_end_bounds(s.subrange(1, s.len() as int));
    }
}

/// The boundary of a concatenation whose first half holds no decimal point.
pub proof fn lemma_integer_end_split(a: Seq<char>, b: Seq<char>)
    requires
        forall|i: int| 0 <= i < a.len() ==> a[i] != '.',
    ensures
        integer_end(a + b) == a.len() + integer_end(b),
    decreases a.len(),
{
    if a.len() == 0 {
        assert(a + b =~= b);
    } else {
        let a1 = a.subrange(1, a.len() as int);
        assert((a + b).subrange(1, (a + b).len() as int) =~= a1 + b);
        lemma_integer_end_split(a1, b);
    }
}

pub proof fn lemma_integer_end_dot_free(s: Seq<char>)
    requires
        forall|i: int| 0 <= i < s.len() ==> s[i] != '.',
    ensures
        integer_end(s) == s.len(),
    decreases s.len(),
{
    if s.len() > 0 {
        lemma_integer_end_dot_free(s.subrange(1, s.len() as int));
    }
}

/// The boundary really is the first decimal point.
pub proof fn lemma_integer_end_first_dot(s: Seq<char>)
    ensures
        0 <= integer_end(s) <= s.len(),
        forall|j: int| 0 <= j < integer_end(s) ==> s[j] != '.',
        integer_end(s) < s.len() ==> s[integer_end(s)] == '.',
    decreases s.len(),
{
    if s.len() > 0 && s[0] != '.' {
        let s1 = s.subrange(1, s.len() as int);
        lemma_integer_end_first_dot(s1);
        assert forall|j: int| 0 <= j < integer_end(s) implies s[j] != '.' by {
            if j > 0 {
                assert(s1[j - 1] != '.');
            }
        }
    }
}

/// Grouping inserts separators and nothing else: stripping them recovers
/// the separator-free integer part unchanged.
pub proof fn lemma_grouped_digits_strip(d: Seq<char>)
    requires
        forall|i: int| 0 <= i < d.len() ==> d[i] != ',',
    ensures
        strip_separators(grouped_digits(d)) == d,
    decreases d.len(),
{
    if d.len() <= 3 {
        lemma_strip_separator_free(d);
    } else {
        let front = d.subrange(0, d.len() - 3);
        let back = d.subrange(d.len() - 3, d.len() as int);
        lemma_grouped_digits_strip(front);
        lemma_strip_append(grouped_digits(front) + seq![','], back);
        lemma_strip_append(grouped_digits(front), seq![',']);
        assert(seq![','].subrange(1, 1) =~= Seq::<char>::empty());
        assert(strip_separators(Seq::<char>::empty()) =~= Seq::<char>::empty());
        assert(strip_separators(seq![',']) =~= Seq::<char>::empty());
        lemma_strip_separator_free(back);
        assert(strip_separators(grouped_digits(front)) + strip_separators(seq![',']) =~= front);
        assert(front + back =~= d);
    }
}

/// How long the grouped integer part is: one separator for every full step
/// of three characters past the first.
pub proof fn lemma_grouped_digits_len(d: Seq<char>)
    ensures
        grouped_digits(d).len() == d.len() + (if d.len() == 0 {
            0int
        } else {
            (d.len() - 1) / 3
        }),
    decreases d.len(),
{
    if d.len() > 3 {
        lemma_grouped_digits_len(d.subrange(0, d.len() - 3));
    }
}

/// Grouping adds separators only, so it cannot introduce any other
/// character.
pub proof fn lemma_grouped_digits_keeps_absent(d: Seq<char>, c: char)
    requires
        c != ',',
        forall|i: int| 0 <= i < d.len() ==> d[i] != c,
    ensures
        forall|i: int|
            0 <= i < grouped_digits(d).len() ==> grouped_digits(d)[i] != c,
    decreases d.len(),
{
    if d.len() > 3 {
        let front = d.subrange(0, d.len() - 3);
        lemma_grouped_digits_keeps_absent(front, c);
        assert forall|i: int|
            0 <= i < grouped_digits(d).len() implies grouped_digits(d)[i] != c by {
            let g = grouped_digits(front);
            if i < g.len() {
                assert(grouped_digits(d)[i] == g[i]);
            } else if i == g.len() {
                assert(grouped_digits(d)[i] == ',');
            } else {
                assert(grouped_digits(d)[i] == d[d.len() - 3 + (i - g.len() - 1)]);
            }
        }
    }
}

pub proof fn lemma_strip_one(c: char)
    ensures
        strip_separators(seq![c]) == (if c == ',' {
            Seq::<char>::empty()
        } else {
            seq![c]
        }),
{
    assert(seq![c].subrange(1, 1) =~= Seq::<char>::empty());
    assert(strip_separators(Seq::<char>::empty()) =~= Seq::<char>::empty());
    if c != ',' {
        assert(strip_separators(seq![c]) =~= seq![c]);
    }
}

/// Stripping one more trailing character.
pub proof fn lemma_strip_snoc(s: Seq<char>, c: char)
    ensures
        strip_separators(s.push(c)) == strip_separators(s) + (if c == ',' {
            Seq::<char>::empty()
        } else {
            seq![c]
        }),
{
    assert(s.push(c) =~= s + seq![c]);
    lemma_strip_append(s, seq![c]);
    lemma_strip_one(c);
}

/// Peeling one leading character off a suffix before stripping it.
pub proof fn lemma_strip_head(s: Seq<char>, i: int)
    requires
        0 <= i < s.len(),
    ensures
        s[i] != ',' ==> strip_separators(s.subrange(i, s.len() as int)) == seq![s[i]]
            + strip_separators(s.subrange(i + 1, s.len() as int)),
        s[i] == ',' ==> strip_separators(s.subrange(i, s.len() as int)) == strip_separators(
            s.subrange(i + 1, s.len() as int),
        ),
{
    let u = s.subrange(i, s.len() as int);
    assert(u[0] == s[i]);
    assert(u.subrange(1, u.len() as int) =~= s.subrange(i + 1, s.len() as int));
}

pub proof fn lemma_grouped_prefix_len(d: Seq<char>, j: int)
    requires
        0 <= j <= d.len(),
    ensures
        grouped_prefix(d, j).len() >= j,
        j == 0 <==> grouped_prefix(d, j).len() == 0,
    decreases j,
{
    if j > 0 {
        lemma_grouped_prefix_len(d, j - 1);
    }
}

/// Dropping the last whole group of three does not move any separator in
/// the prefix before it: distances to the right end change by exactly one
/// group.
pub proof fn lemma_grouped_prefix_drop_group(d: Seq<char>, j: int)
    requires
        d.len() > 3,
        0 <= j <= d.len() - 3,
    ensures
        grouped_prefix(d, j) == grouped_prefix(d.subrange(0, d.len() - 3), j),
    decreases j,
{
    if j > 0 {
        lemma_grouped_prefix_drop_group(d, j - 1);
        let front = d.subrange(0, d.len() - 3);
        assert(d[j - 1] == front[j - 1]);
        assert((d.len() - (j - 1)) % 3 == (front.len() - (j - 1)) % 3);
    }
}

/// Walking the whole integer part from the left builds exactly the groups
/// of three counted from the right.
pub proof fn lemma_grouped_prefix_full(d: Seq<char>)
    ensures
        grouped_prefix(d, d.len() as int) == grouped_digits(d),
    decreases d.len(),
{
    let n = d.len() as int;
    if d.len() <= 3 {
        reveal_with_fuel(grouped_prefix, 5);
        assert(grouped_prefix(d, n) =~= d);
    } else {
        let front = d.subrange(0, n - 3);
        lemma_grouped_prefix_drop_group(d, n - 3);
        lemma_grouped_prefix_full(front);
        assert((n - (n - 3)) % 3 == 0);
        assert(grouped_prefix(d, n - 2) == grouped_prefix(d, n - 3) + seq![','] + seq![d[n - 3]]);
        assert(grouped_prefix(d, n - 1) == grouped_prefix(d, n - 2) + seq![d[n - 2]]);
        assert(grouped_prefix(d, n) == grouped_prefix(d, n - 1) + seq![d[n - 1]]);
        assert(grouped_prefix(d, n) =~= grouped_digits(front) + seq![','] + d.subrange(n - 3, n));
    }
}

/// The insertion pass, started anywhere in the middle of a separator-free
/// integer part `d` followed by the untouched suffix `r`, finishes the
/// grouping exactly as the left-to-right walk describes it.
proof fn lemma_inserted_matches(d: Seq<char>, r: Seq<char>, j: int)
    requires
        forall|i: int| 0 <= i < d.len() ==> d[i] != ',',
        0 <= j <= d.len(),
    ensures
        inserted_from(
            grouped_prefix(d, j) + d.subrange(j, d.len() as int) + r,
            grouped_prefix(d, j).len() as int,
            d.len() + grouped_prefix(d, j).len() - j,
        ) == grouped_prefix(d, d.len() as int) + r,
    decreases d.len() - j,
{
    let n = d.len() as int;
    let g = grouped_prefix(d, j);
    let s = g + d.subrange(j, n) + r;
    let i = g.len() as int;
    let end = n + g.len() - j;
    lemma_grouped_prefix_len(d, j);
    if j == n {
        assert(s =~= grouped_prefix(d, n) + r);
    } else {
        assert(s[i] == d[j]);
        assert((end - i) % 3 == (n - j) % 3);
        if (n - j) % 3 == 0 && j != 0 {
            assert(i != 0);
            assert(i < s.len() && s[i] != ',');
            assert(grouped_prefix(d, j + 1) == g + seq![','] + seq![d[j]]);
            assert(s.insert(i, ',') =~= grouped_prefix(d, j + 1) + d.subrange(j + 1, n) + r);
            lemma_inserted_matches(d, r, j + 1);
            assert(inserted_from(s, i, end) == inserted_from(s.insert(i, ','), i + 2, end + 1));
        } else {
            assert(grouped_prefix(d, j + 1) == g + seq![d[j]]);
            assert(s =~= grouped_prefix(d, j + 1) + d.subrange(j + 1, n) + r);
            lemma_inserted_matches(d, r, j + 1);
            assert(inserted_from(s, i, end) == inserted_from(s, i + 1, end));
        }
    }
}

/// The formatter only moves separators around: no other character is
/// dropped, reordered or altered, whatever the input.
pub proof fn lemma_grouped_strip(s: Seq<char>)
    ensures
        strip_separators(grouped(s)) == strip_separators(s),
{
    let t = strip_separators(s);
    lemma_integer_end_bounds(t);
    let k = integer_end(t);
    let d = t.subrange(0, k);
    let f = t.subrange(k, t.len() as int);
    lemma_strip_no_separators(s);
    assert(forall|i: int| 0 <= i < d.len() ==> d[i] != ',');
    assert(forall|i: int| 0 <= i < f.len() ==> f[i] != ',');
    lemma_grouped_digits_strip(d);
    lemma_strip_append(grouped_digits(d), f);
    lemma_strip_separator_free(f);
    assert(strip_separators(grouped(s)) =~= t);
}

/// The insertion pass only adds separators: no other character is
/// dropped, reordered or altered, whatever the input.
pub proof fn lemma_inserted_from_strip(s: Seq<char>, i: int, end: int)
    requires
        0 <= i,
    ensures
        strip_separators(inserted_from(s, i, end)) == strip_separators(s),
    decreases end - i,
{
    if i >= end {
    } else if (end - i) % 3 == 0 && i != 0 {
        if i < s.len() && s[i] != ',' {
            let a = s.subrange(0, i);
            let b = s.subrange(i, s.len() as int);
            assert(s =~= a + b);
            assert(s.insert(i, ',') =~= (a + seq![',']) + b);
            lemma_strip_append(a, b);
            lemma_strip_append(a + seq![','], b);
            lemma_strip_append(a, seq![',']);
            lemma_strip_one(',');
            assert(strip_separators(a) + Seq::<char>::empty() =~= strip_separators(a));
            lemma_inserted_from_strip(s.insert(i, ','), i + 2, end + 1);
        } else {
            lemma_inserted_from_strip(s, i + 2, end + 1);
        }
    } else {
        lemma_inserted_from_strip(s, i + 1, end);
    }
}

/// On a separator-free input the insertion pass and the strip-and-rebuild
/// formatter agree.
pub proof fn lemma_in_place_separator_free(s: Seq<char>)
    requires
        forall|i: int| 0 <= i < s.len() ==> s[i] != ',',
    ensures
        in_place_grouped(s) == grouped(s),
{
    lemma_strip_separator_free(s);
    lemma_integer_end_bounds(s);
    let e = integer_end(s);
    let d = s.subrange(0, e);
    let r = s.subrange(e, s.len() as int);
    lemma_inserted_matches(d, r, 0);
    assert(grouped_prefix(d, 0) + d.subrange(0, d.len() as int) + r =~= s);
    lemma_grouped_prefix_full(d);
}

} // verus!
