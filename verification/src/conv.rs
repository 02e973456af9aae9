//! Identifier case conversions.
//!
//! `to_snake_case` normalizes an identifier written in any declaration case
//! to snake case; `to_camel_case` turns a snake-case identifier into a
//! capitalized camel-case one.

use vstd::prelude::*;
use crate::chars::{
    is_upper, is_lower, lower, upper, is_upper_char, to_lower_char, to_upper_char, str_to_chars,
    chars_to_string,
};

verus! {

/// Whether some character at an index at or after `i` is not an underscore.
pub open spec fn has_non_sep_ahead(s: Seq<char>, i: int) -> bool {
    exists|j: int| i <= j < s.len() && s[j] != '_'
}

/// Whether a separator must be inserted before the uppercase character at
/// index `i`: the previously seen character is not a separator, and either it
/// is not itself uppercase (a camel-case boundary) or the following character
/// starts a new lowercase word (the end of an acronym run).
pub open spec fn needs_sep(s: Seq<char>, i: int, prev: char) -> bool {
    prev != '_' && (!is_upper(prev) || (i + 1 < s.len() && s[i + 1] != '_' && !is_upper(s[i + 1])))
}

/// The snake-case rendering of `s` from index `i` on, where `prev` is the
/// character seen just before `i` (a separator at the very start).
/// An underscore is kept only when it separates two words; uppercase letters
/// are lowercased, with a separator inserted per `needs_sep`.
pub open spec fn snake_core(s: Seq<char>, i: int, prev: char) -> Seq<char>
    decreases s.len() - i,
{
    if i < 0 || i >= s.len() {
        Seq::empty()
    } else {
        let c = s[i];
        if c == '_' {
            if prev != '_' && has_non_sep_ahead(s, i + 1) {
                seq!['_'] + snake_core(s, i + 1, '_')
            } else {
                snake_core(s, i + 1, '_')
            }
        } else if is_upper(c) {
            if needs_sep(s, i, prev) {
                seq!['_', lower(c)] + snake_core(s, i + 1, c)
            } else {
                seq![lower(c)] + snake_core(s, i + 1, c)
            }
        } else {
            seq![c] + snake_core(s, i + 1, c)
        }
    }
}

/// The snake-case form of an identifier: leading, trailing and repeated
/// underscores collapse away, and case boundaries become single underscores.
pub open spec fn snake_of(s: Seq<char>) -> Seq<char> {
    snake_core(s, 0, '_')
}

/// The camel-case rendering of `s` from index `i` on; `boundary` says whether
/// the next character starts a fragment (and is therefore uppercased).
pub open spec fn camel_core(s: Seq<char>, i: int, boundary: bool) -> Seq<char>
    decreases s.len() - i,
{
    if i < 0 || i >= s.len() {
        Seq::empty()
    } else {
        let c = s[i];
        if c == '_' {
            camel_core(s, i + 1, true)
        } else if boundary {
            seq![upper(c)] + camel_core(s, i + 1, false)
        } else {
            seq![c] + camel_core(s, i + 1, false)
        }
    }
}

/// The capitalized camel-case form of a snake-case identifier: underscores
/// are dropped and each fragment's first character is uppercased; the rest
/// of each fragment is kept as it is.
pub open spec fn camel_of(s: Seq<char>) -> Seq<char> {
    camel_core(s, 0, true)
}

fn has_non_sep_ahead_from(cs: &Vec<char>, from: usize) -> (b: bool)
    ensures
        b == has_non_sep_ahead(cs@, from as int),
{
    let n = cs.len();
    if from >= n {
        return false;
    }
    let mut j: usize = from;
    while j < n
        invariant
            from <= j,
            j <= n,
            n == cs@.len(),
            forall|k: int| from <= k < j ==> cs@[k] == '_',
        decreases n - j,
    {
        if cs[j] != '_' {
            return true;
        }
        j = j + 1;
    }
    false
}

/// Normalizes an identifier to snake case.
pub fn to_snake_case(in_name: &str) -> (r: String)
    ensures
        r@ == snake_of(in_name@),
{
    let cs = str_to_chars(in_name);
    let n = cs.len();
    let mut out: Vec<char> = Vec::new();
    let mut prev: char = '_';
    let mut i: usize = 0;
    while i < n
        invariant
            i <= n,
            n == cs@.len(),
            cs@ == in_name@,
            snake_of(in_name@) == out@ + snake_core(cs@, i as int, prev),
        decreases n - i,
    {
        let c = cs[i];
        let ghost out0 = out@;
        let ghost prev0 = prev;
        if c == '_' {
            if prev != '_' && has_non_sep_ahead_from(&cs, i + 1) {
                out.push('_');
            }
            prev = '_';
        } else if is_upper_char(c) {
            let sep = prev != '_' && (!is_upper_char(prev) || (i + 1 < n && cs[i + 1] != '_'
                && !is_upper_char(cs[i + 1])));
            proof {
                assert(sep == needs_sep(cs@, i as int, prev));
            }
            if sep {
                out.push('_');
            }
            out.push(to_lower_char(c));
            prev = c;
        } else {
            out.push(c);
            prev = c;
        }
        proof {
            assert(out0 + snake_core(cs@, i as int, prev0) =~= out@ + snake_core(
                cs@,
                i + 1 as int,
                prev,
            ));
        }
        i = i + 1;
    }
    chars_to_string(&out)
}

/// Turns a snake-case identifier into capitalized camel case.
pub fn to_camel_case(in_name: &str) -> (r: String)
    ensures
        r@ == camel_of(in_name@),
{
    let cs = str_to_chars(in_name);
    let n = cs.len();
    let mut out: Vec<char> = Vec::new();
    let mut boundary: bool = true;
    let mut i: usize = 0;
    while i < n
        invariant
            i <= n,
            n == cs@.len(),
            cs@ == in_name@,
            camel_of(in_name@) == out@ + camel_core(cs@, i as int, boundary),
        decreases n - i,
    {
        let c = cs[i];
        let ghost out0 = out@;
        let ghost b0 = boundary;
        if c == '_' {
            boundary = true;
        } else if boundary {
            out.push(to_upper_char(c));
            boundary = false;
        } else {
            out.push(c);
            boundary = false;
        }
        proof {
            assert(out0 + camel_core(cs@, i as int, b0) =~= out@ + camel_core(
                cs@,
                i + 1 as int,
                boundary,
            ));
        }
        i = i + 1;
    }
    chars_to_string(&out)
}

// ---------------------------------------------------------------------------
// Laws of the case conversions
// ---------------------------------------------------------------------------

/// A snake-case normal form: no uppercase letter, and every underscore sits
/// strictly between two non-underscore characters.
pub open spec fn is_snake_normal(s: Seq<char>) -> bool {
    &&& (forall|k: int| 0 <= k < s.len() ==> !is_upper(s[k]))
    &&& (forall|k: int|
        0 <= k < s.len() && (#[trigger] s[k]) == '_' ==> 0 < k && k + 1 < s.len() && s[k + 1]
            != '_')
}

proof fn lemma_snake_core_normal(s: Seq<char>, i: int, prev: char)
    requires
        0 <= i,
    ensures
        ({
            let out = snake_core(s, i, prev);
            &&& (forall|k: int| 0 <= k < out.len() ==> !is_upper(out[k]))
            &&& (forall|k: int|
                0 <= k < out.len() - 1 && (#[trigger] out[k]) == '_' ==> out[k + 1] != '_')
            &&& (out.len() > 0 ==> out[out.len() - 1] != '_')
            &&& (prev == '_' && out.len() > 0 ==> out[0] != '_')
            &&& ((out.len() > 0) <==> has_non_sep_ahead(s, i))
        }),
    decreases s.len() - i,
{
    if i >= s.len() {
        assert(!has_non_sep_ahead(s, i));
    } else {
        let c = s[i];
        let out = snake_core(s, i, prev);
        if c == '_' {
            lemma_snake_core_normal(s, i + 1, '_');
            let rest = snake_core(s, i + 1, '_');
            assert(has_non_sep_ahead(s, i) == has_non_sep_ahead(s, i + 1)) by {
                if has_non_sep_ahead(s, i) {
                    let w = choose|j: int| i <= j < s.len() && s[j] != '_';
                    assert(i + 1 <= w < s.len() && s[w] != '_');
                }
            }
            if prev != '_' && has_non_sep_ahead(s, i + 1) {
                assert(out == seq!['_'] + rest);
                assert(rest.len() > 0);
                assert(out[0] == '_');
                assert forall|k: int|
                    0 <= k < out.len() - 1 && (#[trigger] out[k]) == '_' implies out[k + 1]
                    != '_' by {
                    if k == 0 {
                        assert(out[1] == rest[0]);
                    } else {
                        assert(out[k] == rest[k - 1] && out[k + 1] == rest[k]);
                    }
                }
                assert(out[out.len() - 1] == rest[rest.len() - 1]);
            } else {
                assert(out == rest);
            }
        } else if is_upper(c) {
            lemma_snake_core_normal(s, i + 1, c);
            let rest = snake_core(s, i + 1, c);
            assert(has_non_sep_ahead(s, i)) by {
                assert(i <= i < s.len() && s[i] != '_');
            }
            assert(!is_upper(lower(c)) && lower(c) != '_');
            if needs_sep(s, i, prev) {
                assert(out == seq!['_', lower(c)] + rest);
                assert forall|k: int|
                    0 <= k < out.len() - 1 && (#[trigger] out[k]) == '_' implies out[k + 1]
                    != '_' by {
                    if k == 0 {
                        assert(out[1] == lower(c));
                    } else if k == 1 {
                    } else {
                        assert(out[k] == rest[k - 2] && out[k + 1] == rest[k - 1]);
                    }
                }
                if rest.len() > 0 {
                    assert(out[out.len() - 1] == rest[rest.len() - 1]);
                } else {
                    assert(out[out.len() - 1] == lower(c));
                }
            } else {
                assert(out == seq![lower(c)] + rest);
                assert forall|k: int|
                    0 <= k < out.len() - 1 && (#[trigger] out[k]) == '_' implies out[k + 1]
                    != '_' by {
                    if k == 0 {
                    } else {
                        assert(out[k] == rest[k - 1] && out[k + 1] == rest[k]);
                    }
                }
                if rest.len() > 0 {
                    assert(out[out.len() - 1] == rest[rest.len() - 1]);
                } else {
                    assert(out[out.len() - 1] == lower(c));
                }
            }
        } else {
            lemma_snake_core_normal(s, i + 1, c);
            let rest = snake_core(s, i + 1, c);
            assert(has_non_sep_ahead(s, i)) by {
                assert(i <= i < s.len() && s[i] != '_');
            }
            assert(out == seq![c] + rest);
            assert forall|k: int|
                0 <= k < out.len() - 1 && (#[trigger] out[k]) == '_' implies out[k + 1]
                != '_' by {
                if k == 0 {
                    assert(out[0] == c && c != '_');
                } else {
                    assert(out[k] == rest[k - 1] && out[k + 1] == rest[k]);
                }
            }
            if rest.len() > 0 {
                assert(out[out.len() - 1] == rest[rest.len() - 1]);
            } else {
                assert(out[out.len() - 1] == c);
            }
        }
    }
}

/// The snake-case form of any identifier is in snake-case normal form.
pub proof fn lemma_snake_of_normal(s: Seq<char>)
    ensures
        is_snake_normal(snake_of(s)),
{
    lemma_snake_core_normal(s, 0, '_');
    let out = snake_of(s);
    assert forall|k: int|
        0 <= k < out.len() && (#[trigger] out[k]) == '_' implies 0 < k && k + 1 < out.len()
        && out[k + 1] != '_' by {
        assert(out[0] != '_');
        assert(out[out.len() - 1] != '_');
    }
}

proof fn lemma_snake_core_fixed(s: Seq<char>, i: int, prev: char)
    requires
        0 <= i <= s.len(),
        forall|k: int| i <= k < s.len() ==> !is_upper(s[k]),
        forall|k: int|
            i <= k < s.len() && (#[trigger] s[k]) == '_' ==> k + 1 < s.len() && s[k + 1] != '_',
        i < s.len() && s[i] == '_' ==> prev != '_',
    ensures
        snake_core(s, i, prev) == s.skip(i),
    decreases s.len() - i,
{
    if i >= s.len() {
        assert(snake_core(s, i, prev) =~= s.skip(i));
    } else {
        let c = s[i];
        if c == '_' {
            assert(has_non_sep_ahead(s, i + 1)) by {
                assert(i + 1 <= i + 1 < s.len() && s[i + 1] != '_');
            }
            lemma_snake_core_fixed(s, i + 1, '_');
            assert(seq!['_'] + s.skip(i + 1) =~= s.skip(i));
        } else {
            lemma_snake_core_fixed(s, i + 1, c);
            assert(seq![c] + s.skip(i + 1) =~= s.skip(i));
        }
    }
}

/// A snake-case normal identifier is left unchanged by the conversion.
pub proof fn lemma_snake_of_fixed(s: Seq<char>)
    requires
        is_snake_normal(s),
    ensures
        snake_of(s) == s,
{
    if s.len() > 0 && s[0] == '_' {
        // excluded by normality
        assert(false);
    }
    lemma_snake_core_fixed(s, 0, '_');
    assert(s.skip(0) =~= s);
}

/// Law: snake-case conversion is idempotent — converting an identifier a
/// second time changes nothing.
pub proof fn lemma_to_snake_case_idempotent(s: Seq<char>)
    ensures
        snake_of(snake_of(s)) == snake_of(s),
{
    lemma_snake_of_normal(s);
    lemma_snake_of_fixed(snake_of(s));
}

/// An already camel-case identifier: no separator, and its first character
/// has no distinct uppercase form.
pub open spec fn is_camel(s: Seq<char>) -> bool {
    (forall|k: int| 0 <= k < s.len() ==> s[k] != '_') && (s.len() == 0 || !is_lower(s[0]))
}

proof fn lemma_camel_core_fixed(s: Seq<char>, i: int)
    requires
        0 <= i <= s.len(),
        forall|k: int| i <= k < s.len() ==> s[k] != '_',
    ensures
        camel_core(s, i, false) == s.skip(i),
    decreases s.len() - i,
{
    if i >= s.len() {
        assert(camel_core(s, i, false) =~= s.skip(i));
    } else {
        lemma_camel_core_fixed(s, i + 1);
        assert(seq![s[i]] + s.skip(i + 1) =~= s.skip(i));
    }
}

/// Law: camel-case conversion leaves an already camel-case identifier
/// unchanged.
pub proof fn lemma_to_camel_case_on_camel(s: Seq<char>)
    requires
        is_camel(s),
    ensures
        camel_of(s) == s,
{
    if s.len() == 0 {
        assert(camel_of(s) =~= s);
    } else {
        assert(upper(s[0]) == s[0]);
        lemma_camel_core_fixed(s, 1);
        assert(seq![s[0]] + s.skip(1) =~= s);
    }
}


} // verus!
