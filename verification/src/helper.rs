//! Building positional argument lists: rendering decimal parameter numbers
//! and expanding a list argument into `:N,:N+1,...` placeholder runs.

use vstd::prelude::*;
use crate::chars::chars_to_string;

verus! {

/// The character of one decimal digit.
pub open spec fn dec_char(d: int) -> char {
    (48 + d) as char
}

/// The decimal rendering of a non-negative integer.
pub open spec fn dec_digits(n: int) -> Seq<char>
    decreases n,
{
    if n < 10 {
        seq![dec_char(n)]
    } else {
        dec_digits(n / 10) + seq![dec_char(n % 10)]
    }
}

/// Copy of `v` in reverse order.
fn reverse_chars(v: &Vec<char>) -> (r: Vec<char>)
    ensures
        r@ == v@.reverse(),
{
    let n = v.len();
    let mut r: Vec<char> = Vec::new();
    let mut j = n;
    while j > 0
        invariant
            0 <= j <= n,
            n == v@.len(),
            r@.len() == n - j,
            forall|k: int| 0 <= k < n - j ==> r@[k] == v@[n - 1 - k],
        decreases j,
    {
        r.push(v[j - 1]);
        j = j - 1;
    }
    proof {
        assert(r@ =~= v@.reverse());
    }
    r
}

/// Renders a number in decimal.
pub fn usize_to_string(n: usize) -> (r: String)
    ensures
        r@ == dec_digits(n as int),
{
    let mut rev: Vec<char> = Vec::new();
    let mut m = n;
    while m >= 10
        invariant
            m >= 0,
            dec_digits(n as int) == dec_digits(m as int) + rev@.reverse(),
        decreases m,
    {
        let ghost rev0 = rev@;
        let d = (m % 10) as u8;
        rev.push((48 + d) as char);
        proof {
            assert((48 + d) as char == dec_char(m as int % 10));
            assert(rev@.reverse() =~= seq![dec_char(m as int % 10)] + rev0.reverse());
            assert(dec_digits(m as int) + rev0.reverse() =~= dec_digits(m as int / 10)
                + rev@.reverse());
        }
        m = m / 10;
    }
    let ghost rev1 = rev@;
    let d = m as u8;
    rev.push((48 + d) as char);
    proof {
        assert((48 + d) as char == dec_char(m as int));
        assert(dec_digits(m as int) =~= seq![dec_char(m as int)]);
        assert(rev@.reverse() =~= seq![dec_char(m as int)] + rev1.reverse());
        assert(dec_digits(n as int) =~= rev@.reverse());
    }
    let digits = reverse_chars(&rev);
    chars_to_string(&digits)
}

/// The expansion of a list argument with `count` values, numbered from
/// `start`: `prefix` and a number for each value, comma separated.
pub open spec fn expansion(prefix: Seq<char>, start: int, count: int) -> Seq<char>
    decreases count,
{
    if count <= 0 {
        Seq::empty()
    } else if count == 1 {
        prefix + dec_digits(start)
    } else {
        prefix + dec_digits(start) + seq![','] + expansion(prefix, start + 1, count - 1)
    }
}

/// Appends one numbered placeholder, `prefix` then the number, to `sql`.
fn push_numbered(sql: &mut String, param_prefix: &str, n: usize)
    ensures
        final(sql)@ == old(sql)@ + param_prefix@ + dec_digits(n as int),
{
    sql.append(param_prefix);
    let num = usize_to_string(n);
    sql.append(num.as_str());
}

/// Appends to `sql` the expansion of a list with `count` values numbered
/// from `start`: a numbered placeholder for each value, comma separated.
pub fn append_expansion(sql: &mut String, param_prefix: &str, start: usize, count: usize)
    requires
        start + count <= usize::MAX,
    ensures
        final(sql)@ == old(sql)@ + expansion(param_prefix@, start as int, count as int),
{
    let ghost sql0 = sql@;
    let mut i: usize = 0;
    while i < count
        invariant
            0 <= i <= count,
            start + count <= usize::MAX,
            sql@ + expansion(param_prefix@, start + i, count - i) == sql0 + expansion(
                param_prefix@,
                start as int,
                count as int,
            ),
        decreases count - i,
    {
        let ghost sqlp = sql@;
        push_numbered(sql, param_prefix, start + i);
        if i + 1 < count {
            sql.append(",");
            proof {
                reveal_strlit(",");
                assert(","@ =~= seq![',']);
            }
        }
        proof {
            if i + 1 < count {
                assert(sql@ + expansion(param_prefix@, start + i + 1, count - i - 1) =~= sqlp
                    + expansion(param_prefix@, start + i, count - i));
            } else {
                assert(expansion(param_prefix@, start + i, count - i) == param_prefix@
                    + dec_digits(start + i));
                assert(sql@ + expansion(param_prefix@, start + i + 1, count - i - 1) =~= sqlp
                    + expansion(param_prefix@, start + i, count - i));
            }
        }
        i = i + 1;
    }
    proof {
        assert(sql@ + expansion(param_prefix@, start + count, 0) =~= sql@);
        assert(sql@ =~= sql0 + expansion(param_prefix@, start as int, count as int));
    }
}

/// Pushes a list of values into the query argument list: each value of `arg`
/// is appended to `args`, and for each a numbered placeholder (numbered by
/// its final position in `args`, starting at 1) is appended to `sql`, comma
/// separated.
pub fn push<'a, T: ?Sized>(arg: &[&'a T], param_prefix: &str, sql: &mut String, args: &mut Vec<
    &'a T,
>)
    requires
        old(args)@.len() + arg@.len() + 1 <= usize::MAX,
    ensures
        final(sql)@ == old(sql)@ + expansion(
            param_prefix@,
            old(args)@.len() as int + 1,
            arg@.len() as int,
        ),
        final(args)@ == old(args)@ + arg@,
{
    let ghost args0 = args@;
    let count = arg.len();
    let start = args.len() + 1;
    append_expansion(sql, param_prefix, start, count);
    proof {
        assert(args0 + arg@.subrange(0, 0) =~= args0);
    }
    let mut i: usize = 0;
    while i < count
        invariant
            0 <= i <= count,
            count == arg@.len(),
            args@ == args0 + arg@.subrange(0, i as int),
        decreases count - i,
    {
        args.push(arg[i]);
        proof {
            assert(args@ =~= args0 + arg@.subrange(0, i + 1 as int));
        }
        i = i + 1;
    }
    proof {
        assert(args0 + arg@.subrange(0, count as int) =~= args0 + arg@);
    }
}

} // verus!
