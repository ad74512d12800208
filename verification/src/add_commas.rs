//! The executable grouping formatter.
//!
//! `add_commas` builds a fresh string; `add_commas_mut` rewrites the given
//! string through the insertion pass that walks the buffer once and shifts
//! its own cursor past every separator it adds. Both leave the fractional
//! part untouched and group the integer part by threes from the right.

use vstd::prelude::*;
use vstd::string::StrSliceExecFns;

use crate::grouping::grouped;
use crate::grouping::grouped_digits;
use crate::grouping::grouped_prefix;
use crate::grouping::in_place_grouped;
use crate::grouping::inserted_from;
use crate::grouping::integer_end;
use crate::grouping::lemma_grouped_prefix_full;
use crate::grouping::lemma_integer_end_bounds;
use crate::grouping::lemma_grouped_strip;
use crate::grouping::lemma_in_place_separator_free;
use crate::grouping::lemma_inserted_from_strip;
use crate::grouping::lemma_integer_end_dot_free;
use crate::grouping::lemma_integer_end_split;
use crate::grouping::lemma_strip_append;
use crate::grouping::lemma_strip_head;
use crate::grouping::lemma_strip_keeps_absent;
use crate::grouping::lemma_strip_len;
use crate::grouping::lemma_strip_snoc;
use crate::grouping::strip_separators;

verus! {

/// Relies on `String::push`: it appends the given character to the end of
/// the string.
#[verifier::external_body]
fn push_char(s: &mut String, c: char)
    ensures
        final(s)@ == old(s)@.push(c),
{
    s.push(c);
}

/// Copy the characters of `s`, leaving every separator out.
fn stripped_chars(s: &str) -> (digits: Vec<char>)
    ensures
        digits@ == strip_separators(s@),
{
    let n = s.unicode_len();
    let mut digits: Vec<char> = Vec::new();
    let mut j: usize = 0;
    while j < n
        invariant
            n == s@.len(),
            j <= n,
            digits@ == strip_separators(s@.subrange(0, j as int)),
        decreases n - j,
    {
        let c = s.get_char(j);
        proof {
            assert(s@.subrange(0, j + 1) =~= s@.subrange(0, j as int).push(s@[j as int]));
            lemma_strip_snoc(s@.subrange(0, j as int), s@[j as int]);
        }
        if c != ',' {
            digits.push(c);
            proof {
                assert(digits@ =~= strip_separators(s@.subrange(0, j + 1)));
            }
        }
        j += 1;
    }
    proof {
        assert(s@.subrange(0, n as int) =~= s@);
    }
    digits
}

/// The index of the first decimal point in `digits`, or its length if
/// there is none.
fn find_integer_end(digits: &Vec<char>) -> (k: usize)
    ensures
        k as int == integer_end(digits@),
        k <= digits@.len(),
{
    let n = digits.len();
    let mut j: usize = 0;
    while j < n
        invariant
            n == digits@.len(),
            j <= n,
            forall|m: int| 0 <= m < j ==> digits@[m] != '.',
        decreases n - j,
    {
        if digits[j] == '.' {
            proof {
                let pre = digits@.subrange(0, j as int);
                let suf = digits@.subrange(j as int, n as int);
                assert(digits@ =~= pre + suf);
                lemma_integer_end_split(pre, suf);
            }
            return j;
        }
        j += 1;
    }
    proof {
        lemma_integer_end_dot_free(digits@);
    }
    n
}

/// Group a numeric string, returning a new string.
///
/// Every separator already in the input is removed first; the integer part
/// (everything before the first decimal point) is then rebuilt with one
/// separator between each group of three characters counted from the
/// right, and the fractional part is copied verbatim.
pub fn add_commas(number_str: &str) -> (result: String)
    ensures
        result@ == grouped(number_str@),
        strip_separators(result@) == strip_separators(number_str@),
{
    proof {
        lemma_grouped_strip(number_str@);
    }
    let digits = stripped_chars(number_str);
    let k = find_integer_end(&digits);
    let ghost t = digits@;
    let ghost d = t.subrange(0, k as int);
    let mut result = String::new();
    let mut j: usize = 0;
    while j < k
        invariant
            digits@ == t,
            d == t.subrange(0, k as int),
            k <= t.len(),
            j <= k,
            result@ == grouped_prefix(d, j as int),
        decreases k - j,
    {
        if j != 0 && (k - j) % 3 == 0 {
            push_char(&mut result, ',');
        }
        push_char(&mut result, digits[j]);
        proof {
            assert(d.len() == k as int);
            assert(d[j as int] == t[j as int]);
            if j != 0 && (k - j) % 3 == 0 {
                assert(result@ =~= grouped_prefix(d, j as int) + seq![','] + seq![d[j as int]]);
            } else {
                assert(result@ =~= grouped_prefix(d, j as int) + seq![d[j as int]]);
            }
            assert(result@ == grouped_prefix(d, j + 1));
        }
        j += 1;
    }
    proof {
        lemma_grouped_prefix_full(d);
        assert(result@ =~= grouped_digits(d) + t.subrange(k as int, k as int));
    }
    let n = digits.len();
    while j < n
        invariant
            digits@ == t,
            d == t.subrange(0, k as int),
            n == t.len(),
            k <= j <= n,
            result@ == grouped_digits(d) + t.subrange(k as int, j as int),
        decreases n - j,
    {
        push_char(&mut result, digits[j]);
        proof {
            assert(t.subrange(k as int, j + 1) =~= t.subrange(k as int, j as int).push(
                t[j as int],
            ));
            assert(result@ =~= grouped_digits(d) + t.subrange(k as int, j + 1));
        }
        j += 1;
    }
    proof {
        assert(t.subrange(k as int, n as int) =~= t.subrange(k as int, t.len() as int));
    }
    result
}

/// Copy all characters of `s` into a vector.
fn string_chars(s: &str) -> (chars: Vec<char>)
    ensures
        chars@ == s@,
{
    let n = s.unicode_len();
    let mut chars: Vec<char> = Vec::new();
    let mut j: usize = 0;
    while j < n
        invariant
            n == s@.len(),
            j <= n,
            chars@ == s@.subrange(0, j as int),
        decreases n - j,
    {
        chars.push(s.get_char(j));
        proof {
            assert(chars@ =~= s@.subrange(0, j + 1));
        }
        j += 1;
    }
    proof {
        assert(s@.subrange(0, n as int) =~= s@);
    }
    chars
}

/// Rebuild a string from its characters.
fn chars_to_string(chars: &Vec<char>) -> (s: String)
    ensures
        s@ == chars@,
{
    let mut s = String::new();
    let mut j: usize = 0;
    while j < chars.len()
        invariant
            j <= chars@.len(),
            s@ == chars@.subrange(0, j as int),
        decreases chars@.len() - j,
    {
        push_char(&mut s, chars[j]);
        proof {
            assert(s@ =~= chars@.subrange(0, j + 1));
        }
        j += 1;
    }
    proof {
        assert(chars@.subrange(0, chars@.len() as int) =~= chars@);
    }
    s
}

/// The boundary the in-place pass starts from: the position of the first
/// decimal point when the separators are not counted, or the count of all
/// non-separator characters when there is no decimal point.
fn find_unstripped_end(chars: &Vec<char>) -> (e: usize)
    ensures
        e as int == integer_end(strip_separators(chars@)),
        e <= chars@.len(),
{
    let n = chars.len();
    let mut e: usize = 0;
    let mut j: usize = 0;
    while j < n
        invariant
            n == chars@.len(),
            j <= n,
            e <= j,
            forall|m: int| 0 <= m < j ==> chars@[m] != '.',
            e as int == strip_separators(chars@.subrange(0, j as int)).len(),
        decreases n - j,
    {
        let c = chars[j];
        if c == '.' {
            proof {
                let pre = chars@.subrange(0, j as int);
                let suf = chars@.subrange(j as int, n as int);
                assert(chars@ =~= pre + suf);
                assert(forall|m: int| 0 <= m < pre.len() ==> pre[m] != '.');
                lemma_strip_keeps_absent(pre, '.');
                lemma_strip_append(pre, suf);
                lemma_strip_head(chars@, j as int);
                assert(strip_separators(suf)[0] == '.');
                lemma_integer_end_split(strip_separators(pre), strip_separators(suf));
            }
            return e;
        }
        proof {
            assert(chars@.subrange(0, j + 1) =~= chars@.subrange(0, j as int).push(
                chars@[j as int],
            ));
            lemma_strip_snoc(chars@.subrange(0, j as int), chars@[j as int]);
        }
        if c != ',' {
            e += 1;
        }
        j += 1;
    }
    proof {
        assert(chars@.subrange(0, n as int) =~= chars@);
        lemma_strip_keeps_absent(chars@, '.');
        lemma_integer_end_dot_free(strip_separators(chars@));
    }
    e
}

/// Group a numeric string by rewriting it in place.
///
/// A single pass walks the integer part; wherever a whole number of
/// three-character groups stands to the right of the cursor and no
/// separator stands there yet, one is inserted, and the cursor and the
/// boundary both move past it. Separators already at the right places are
/// kept, never doubled, and the fractional part is not touched. On
/// separator-free input the result equals what `add_commas` returns.
pub fn add_commas_mut(str_mut: &mut String)
    ensures
        final(str_mut)@ == in_place_grouped(old(str_mut)@),
        strip_separators(final(str_mut)@) == strip_separators(old(str_mut)@),
        (forall|m: int| 0 <= m < old(str_mut)@.len() ==> old(str_mut)@[m] != ',')
            ==> final(str_mut)@ == grouped(old(str_mut)@),
{
    let ghost orig: Seq<char> = str_mut@;
    let mut chars = string_chars(str_mut.as_str());
    let e = find_unstripped_end(&chars);
    let mut i: usize = 0;
    let mut end: usize = e;
    proof {
        lemma_integer_end_bounds(strip_separators(orig));
        assert(orig.subrange(0, orig.len() as int) =~= orig);
    }
    while i < end
        invariant
            i <= chars@.len(),
            end as int - i as int <= strip_separators(
                chars@.subrange(i as int, chars@.len() as int),
            ).len(),
            inserted_from(chars@, i as int, end as int) == in_place_grouped(orig),
        decreases end as int - i as int,
    {
        let ghost pre = chars@;
        proof {
            lemma_strip_len(pre.subrange(i as int, pre.len() as int));
        }
        if (end - i) % 3 == 0 && i != 0 {
            let c = chars[i];
            proof {
                lemma_strip_head(pre, i as int);
                lemma_strip_len(pre.subrange(i + 1, pre.len() as int));
            }
            if c != ',' {
                chars.insert(i, ',');
                proof {
                    assert(chars@.subrange(i + 2, chars@.len() as int) =~= pre.subrange(
                        i + 1,
                        pre.len() as int,
                    ));
                    assert(inserted_from(pre, i as int, end as int) == inserted_from(
                        chars@,
                        i as int + 2,
                        end as int + 1,
                    ));
                }
            } else {
                proof {
                    lemma_strip_head(pre, i + 1);
                    assert(inserted_from(pre, i as int, end as int) == inserted_from(
                        pre,
                        i as int + 2,
                        end as int + 1,
                    ));
                }
            }
            proof {
                assert(chars@.len() == vstd::std_specs::vec::spec_vec_len(&chars));
            }
            end += 1;
            i += 1;
        } else {
            proof {
                lemma_strip_head(pre, i as int);
                assert(inserted_from(pre, i as int, end as int) == inserted_from(
                    pre,
                    i as int + 1,
                    end as int,
                ));
            }
        }
        i += 1;
    }
    let out = chars_to_string(&chars);
    *str_mut = out;
    proof {
        lemma_inserted_from_strip(orig, 0, integer_end(strip_separators(orig)));
        if forall|m: int| 0 <= m < orig.len() ==> orig[m] != ',' {
            lemma_in_place_separator_free(orig);
        }
    }
}

/// The grouping formatter as a method.
pub trait AddCommas: View<V = Seq<char>> {
    /// Returns the grouped form of `self`, exactly as `add_commas` builds
    /// it.
    fn add_commas(&self) -> (result: String)
        ensures
            result@ == grouped(self@),
    ;
}

impl AddCommas for str {
    fn add_commas(&self) -> (result: String) {
        add_commas(self)
    }
}

impl AddCommas for String {
    fn add_commas(&self) -> (result: String) {
        add_commas(self.as_str())
    }
}

} // verus!
