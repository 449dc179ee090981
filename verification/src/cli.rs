//! Reading the command line's list arguments.
use vstd::prelude::*;

use crate::text::{
    chars_of, digits_value_usize, find, find_in, is_ascii_digit, decimal_value, push_str, string_of, trim,
    trim_range,
};
use crate::world::strs_of;

verus! {

/// `[t]` when `t` is non-empty, `[]` otherwise.
pub open spec fn nonempty(t: Seq<char>) -> Seq<Seq<char>> {
    if t.len() > 0 {
        seq![t]
    } else {
        seq![]
    }
}

/// The fields of a comma-separated list: the pieces between commas, trimmed,
/// the empty ones left out.
pub open spec fn csv_fields(s: Seq<char>) -> Seq<Seq<char>>
    decreases s.len(),
{
    let p = find(s, ',');
    if p >= s.len() {
        nonempty(trim(s))
    } else {
        nonempty(trim(s.take(p as int))) + csv_fields(s.skip(p + 1 as int))
    }
}

/// Splits a comma-separated list into its trimmed, non-empty fields.
pub fn split_csv(s: &str) -> (r: Vec<String>)
    ensures
        strs_of(r@) == csv_fields(s@),
{
    let v = chars_of(s);
    let n = v.len();
    let mut r: Vec<String> = Vec::new();
    let mut lo: usize = 0;
    let mut done = false;
    proof {
        assert(v@.subrange(0, n as int) =~= v@);
        assert(strs_of(r@) =~= Seq::<Seq<char>>::empty());
    }
    while !done
        invariant
            n == v@.len(),
            lo <= n,
            v@ == s@,
            !done ==> strs_of(r@) + csv_fields(v@.subrange(lo as int, n as int)) == csv_fields(v@),
            done ==> strs_of(r@) == csv_fields(v@),
        decreases n - lo, !done as int,
    {
        let ghost rest = v@.subrange(lo as int, n as int);
        let ghost r0 = strs_of(r@);
        let p = find_in(&v, lo, n, ',');
        let (a, b) = trim_range(&v, lo, p);
        let ghost piece = v@.subrange(lo as int, p as int);
        proof {
            assert(rest.take(p - lo) =~= piece);
        }
        if a < b {
            let t = string_of(&v, a, b);
            r.push(t);
            proof {
                assert(strs_of(r@) =~= r0 + nonempty(trim(piece)));
            }
        } else {
            proof {
                assert(strs_of(r@) =~= r0 + nonempty(trim(piece)));
            }
        }
        if p == n {
            done = true;
            proof {
                assert(csv_fields(rest) == nonempty(trim(rest)));
                assert(piece =~= rest);
            }
        } else {
            proof {
                assert(rest.skip(p - lo + 1) =~= v@.subrange(p + 1, n as int));
                assert(csv_fields(rest) == nonempty(trim(piece)) + csv_fields(
                    v@.subrange(p + 1, n as int),
                ));
                assert(strs_of(r@) + csv_fields(v@.subrange(p + 1, n as int)) =~= r0 + csv_fields(
                    rest,
                ));
            }
            lo = p + 1;
        }
    }
    r
}

/// The digits of a count: without one leading `+`.
pub open spec fn count_digits(t: Seq<char>) -> Seq<char> {
    if t.len() > 0 && t[0] == '+' {
        t.drop_first()
    } else {
        t
    }
}

/// A count written in decimal (`usize::from_str`): an optional `+` and at
/// least one ASCII digit, with a value that fits a `usize`.
pub open spec fn count_view(t: Seq<char>) -> Option<nat> {
    let d = count_digits(t);
    if d.len() > 0 && (forall|j: int| 0 <= j < d.len() ==> is_ascii_digit(#[trigger] d[j]))
        && decimal_value(d) <= usize::MAX {
        Some(decimal_value(d))
    } else {
        None
    }
}

/// Reads a count (see [`count_view`]).
pub fn parse_count(t: &str) -> (r: Option<usize>)
    ensures
        match r {
            Some(x) => count_view(t@) == Some(x as nat),
            None => count_view(t@) is None,
        },
{
    let v = chars_of(t);
    let start: usize = if v.len() > 0 && v[0] == '+' {
        1
    } else {
        0
    };
    let ghost d = count_digits(t@);
    proof {
        assert(v@.subrange(start as int, v@.len() as int) =~= d);
    }
    if start >= v.len() {
        return None;
    }
    let mut k = start;
    while k < v.len()
        invariant
            start <= k <= v.len(),
            v@ == t@,
            d == v@.subrange(start as int, v@.len() as int),
            d == count_digits(t@),
            forall|j: int| start <= j < k ==> is_ascii_digit(#[trigger] v@[j]),
        decreases v.len() - k,
    {
        if !(v[k] >= '0' && v[k] <= '9') {
            proof {
                assert(d[k - start] == v@[k as int]);
                assert(0 <= k - start < d.len());
                assert(!is_ascii_digit(d[k - start]));
                assert(count_view(t@) is None);
            }
            return None;
        }
        k = k + 1;
    }
    proof {
        assert forall|j: int| 0 <= j < d.len() implies is_ascii_digit(#[trigger] d[j]) by {
            assert(d[j] == v@[start + j]);
        }
    }
    digits_value_usize(&v, start, v.len())
}

/// The population values of a sweep (`--population-values`): the counts of
/// a comma-separated list; the error names the first field that is not a
/// count.
pub fn population_values(s: &str) -> (r: Result<Vec<usize>, String>)
    ensures
        match r {
            Ok(ps) => ps@.len() == csv_fields(s@).len() && forall|i: int|
                0 <= i < ps@.len() ==> count_view(#[trigger] csv_fields(s@)[i]) == Some(
                    ps@[i] as nat,
                ),
            Err(e) => exists|i: int|
                0 <= i < csv_fields(s@).len() && count_view(#[trigger] csv_fields(s@)[i]) is None
                    && e@ == "不正な人口: "@ + csv_fields(s@)[i] && forall|j: int|
                    0 <= j < i ==> count_view(#[trigger] csv_fields(s@)[j]) is Some,
        },
{
    let fields = split_csv(s);
    let ghost fs = strs_of(fields@);
    let mut ps: Vec<usize> = Vec::new();
    let mut i: usize = 0;
    while i < fields.len()
        invariant
            i <= fields.len(),
            fs == strs_of(fields@),
            fs == csv_fields(s@),
            ps@.len() == i,
            forall|j: int| 0 <= j < i ==> count_view(#[trigger] fs[j]) == Some(ps@[j] as nat),
        decreases fields.len() - i,
    {
        proof {
            assert(fs[i as int] == fields@[i as int]@);
        }
        match parse_count(fields[i].as_str()) {
            Some(x) => {
                ps.push(x);
            },
            None => {
                let mut e = String::new();
                push_str(&mut e, "不正な人口: ");
                push_str(&mut e, fields[i].as_str());
                return Err(e);
            },
        }
        i = i + 1;
    }
    Ok(ps)
}

} // verus!
