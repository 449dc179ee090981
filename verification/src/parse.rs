//! Lenient parsing of the model's line-based `KEY: value` replies.
use vstd::prelude::*;

use crate::norm::{clamp_utility, NormType, PersonalNorm};
use crate::text::{
    chars_of, decimal_value, digit_run, digit_run_range, digits_value_u32, eq_lit, eq_vec, find,
    find_in, lines, lower, lower_vec, runs, runs_of, string_chars, string_of, strip_cr, trim,
    trim_char_range, trim_matches, trim_range,
};

verus! {

/// The value of `key` on one line: the line holds a `':'`, and the text
/// before the first `':'`, trimmed and ASCII-lowercased, is the lowercased
/// key; the value is the trimmed text after that `':'`.
pub open spec fn line_field(line: Seq<char>, key: Seq<char>) -> Option<Seq<char>> {
    let c = find(line, ':');
    if c < line.len() && lower(trim(line.take(c as int))) == lower(key) {
        Some(trim(line.skip(c + 1 as int)))
    } else {
        None
    }
}

/// The value of `key` on the first line of `ls` that holds it.
pub open spec fn first_field(ls: Seq<Seq<char>>, key: Seq<char>) -> Option<Seq<char>>
    decreases ls.len(),
{
    if ls.len() == 0 {
        None
    } else {
        match line_field(ls[0], key) {
            Some(v) => Some(v),
            None => first_field(ls.drop_first(), key),
        }
    }
}

/// The value of `key` in a reply: the first of its lines that holds it.
pub open spec fn field_view(text: Seq<char>, key: Seq<char>) -> Option<Seq<char>> {
    first_field(lines(text), key)
}

/// Reads the value of `key` from `KEY: value` lines, ignoring ASCII case.
///
/// The first line that holds the key wins; `None` when no line does.
pub fn field<'a>(text: &'a str, key: &str) -> (r: Option<&'a str>)
    ensures
        match field_view(text@, key@) {
            Some(v) => r is Some && r->0@ == v,
            None => r is None,
        },
{
    let v = chars_of(text);
    let kl = lower_vec(&chars_of(key));
    let n = v.len();
    let mut start: usize = 0;
    proof {
        assert(v@.skip(0) =~= v@);
    }
    while start < n
        invariant
            start <= n == v.len(),
            v@ == text@,
            kl@ == lower(key@),
            field_view(text@, key@) == first_field(lines(v@.skip(start as int)), key@),
        decreases n - start,
    {
        let ghost rest = v@.skip(start as int);
        let p = find_in(&v, start, n, '\n');
        let e = if p < n && p > start && v[p - 1] == '\r' {
            p - 1
        } else {
            p
        };
        let ghost line = v@.subrange(start as int, e as int);
        proof {
            assert(v@.subrange(start as int, n as int) =~= rest);
            if p < n {
                assert(rest.skip(p - start + 1) =~= v@.skip(p + 1));
                assert(rest.take(p - start) =~= v@.subrange(start as int, p as int));
                assert(strip_cr(rest.take(p - start)) =~= line);
                assert(lines(rest) == seq![line] + lines(v@.skip(p + 1)));
            } else {
                assert(line =~= rest);
                assert(lines(rest) == seq![line]);
            }
        }
        let c = find_in(&v, start, e, ':');
        if c < e {
            let (ka, kb) = trim_range(&v, start, c);
            let k = lower_vec(&string_chars(&v, ka, kb));
            proof {
                assert(line.take(c - start) =~= v@.subrange(start as int, c as int));
                assert(line.skip(c - start + 1) =~= v@.subrange(c + 1, e as int));
            }
            if eq_vec(&k, &kl) {
                let (va, vb) = trim_range(&v, c + 1, e);
                let r = text.substring_char(va, vb);
                proof {
                    assert(line_field(line, key@) == Some(v@.subrange(va as int, vb as int)));
                    assert(first_field(lines(rest), key@) == line_field(line, key@));
                }
                return Some(r);
            }
        }
        proof {
            assert(line_field(line, key@) is None);
            let ls = lines(rest);
            assert(ls[0] == line);
            assert(first_field(ls, key@) == first_field(ls.drop_first(), key@));
            if p < n {
                assert(ls.drop_first() =~= lines(v@.skip(p + 1)));
            } else {
                assert(ls.drop_first() =~= Seq::<Seq<char>>::empty());
                assert(v@.skip(n as int) =~= Seq::<char>::empty());
            }
        }
        start = if p < n {
            p + 1
        } else {
            n
        };
    }
    proof {
        assert(v@.skip(n as int) =~= Seq::<char>::empty());
    }
    None
}


/// The words read as assent.
pub open spec fn is_yes_word(w: Seq<char>) -> bool {
    w == "yes"@ || w == "true"@ || w == "1"@
}

/// Whether `key` is answered affirmatively: the first ASCII-alphanumeric word
/// of its value, lowercased, is one of [`is_yes_word`]; false when the key is
/// absent.
pub open spec fn yes_view(text: Seq<char>, key: Seq<char>) -> bool {
    match field_view(text, key) {
        Some(v) => {
            let ws = runs(v, true);
            ws.len() > 0 && is_yes_word(lower(ws[0]))
        },
        None => false,
    }
}

/// Reads `yes` / `true` / `1` (first word only) as true, anything else and
/// a missing key as false.
pub fn yes(text: &str, key: &str) -> (r: bool)
    ensures
        r == yes_view(text@, key@),
{
    match field(text, key) {
        Some(v) => {
            let vv = chars_of(v);
            let ws = runs_of(&vv, true);
            if ws.len() == 0 {
                false
            } else {
                let w = lower_vec(&ws[0]);
                proof {
                    assert(ws@[0]@ == runs(v@, true)[0]);
                }
                eq_lit(&w, "yes") || eq_lit(&w, "true") || eq_lit(&w, "1")
            }
        },
        None => false,
    }
}

/// The utility read from a raw value: the first integer (run of digits)
/// clamped to `[1, 100]`; 50 when there is no digit.
pub open spec fn utility_of(raw: Seq<char>) -> u8 {
    let ds = digit_run(raw);
    let x = decimal_value(ds);
    if ds.len() == 0 {
        50
    } else if x < 1 {
        1
    } else if x > 100 {
        100
    } else {
        x as u8
    }
}

/// The utility that `key` gives in a reply (an absent key reads as empty).
pub open spec fn utility_view(text: Seq<char>, key: Seq<char>) -> u8 {
    match field_view(text, key) {
        Some(v) => utility_of(v),
        None => utility_of(seq![]),
    }
}

/// Extracts the first integer of `key`'s value, clamped to `[1, 100]`
/// (50 when absent or unreadable).
pub fn utility(text: &str, key: &str) -> (r: u8)
    ensures
        r == utility_view(text@, key@),
        1 <= r <= 100,
{
    let raw: Vec<char> = match field(text, key) {
        Some(v) => chars_of(v),
        None => Vec::new(),
    };
    proof {
        if field_view(text@, key@) is None {
            assert(raw@ =~= Seq::<char>::empty());
        }
    }
    let (a, b) = digit_run_range(&raw);
    if a == b {
        return 50;
    }
    match digits_value_u32(&raw, a, b) {
        Some(x) => {
            if x < 1 {
                1
            } else if x > 100 {
                100
            } else {
                x as u8
            }
        },
        None => 100,
    }
}

/// A norm description from a raw value: trimmed and stripped of
/// surrounding `'"'`; `None` when there is no value, or the description is
/// empty or reads "none" in any ASCII case.
pub open spec fn content_of(raw: Option<Seq<char>>) -> Option<Seq<char>> {
    match raw {
        Some(v) => {
            let c = trim_matches(trim(v), '"');
            if c.len() == 0 || lower(c) == "none"@ {
                None
            } else {
                Some(c)
            }
        },
        None => None,
    }
}

/// The norm description under `key` (see [`content_of`]).
pub open spec fn norm_content(text: Seq<char>, key: Seq<char>) -> Option<Seq<char>> {
    content_of(field_view(text, key))
}

/// The description of a created norm: under `CONTENT`, or else under `NORM`
/// (see [`content_of`]).
pub open spec fn created_content(text: Seq<char>) -> Option<Seq<char>> {
    content_of(
        match field_view(text, "CONTENT"@) {
            Some(v) => Some(v),
            None => field_view(text, "NORM"@),
        },
    )
}

/// The norm type given by the `TYPE` key, or `default` when it is absent.
pub open spec fn type_view(text: Seq<char>, default: NormType) -> NormType {
    match field_view(text, "TYPE"@) {
        Some(t) => NormType::loose_view(t),
        None => default,
    }
}

/// The norm description of a raw value (see [`content_of`]) as a `String`.
fn read_content(raw: Option<&str>) -> (r: Option<String>)
    ensures
        match content_of(
            match raw {
                Some(v) => Some(v@),
                None => None,
            },
        ) {
            Some(c) => r is Some && r->0@ == c,
            None => r is None,
        },
{
    match raw {
        Some(v) => {
            let vv = chars_of(v);
            let (a, b) = trim_range(&vv, 0, vv.len());
            let (c0, c1) = trim_char_range(&vv, a, b, '"');
            proof {
                assert(vv@.subrange(0, vv.len() as int) =~= vv@);
            }
            if c0 == c1 {
                return None;
            }
            let lc = lower_vec(&string_chars(&vv, c0, c1));
            if eq_lit(&lc, "none") {
                None
            } else {
                Some(string_of(&vv, c0, c1))
            }
        },
        None => None,
    }
}

/// The norm type of a reply (see [`type_view`]).
fn read_type(text: &str, default: NormType) -> (r: NormType)
    ensures
        r == type_view(text@, default),
{
    match field(text, "TYPE") {
        Some(t) => NormType::parse_loose(t),
        None => default,
    }
}

/// `n` is the norm a spreading reply identifies (see [`identified_norm`]).
pub open spec fn identified_from(text: Seq<char>, n: PersonalNorm) -> bool {
    &&& norm_content(text, "NORM"@) == Some(n.content@)
    &&& n.utility == utility_view(text, "UTILITY"@)
    &&& n.alpha == type_view(text, NormType::Descriptive)
    &&& !n.s_act
    &&& !n.s_val
}

/// `n` is the norm a creation reply gives (see [`created_norm`]).
pub open spec fn created_from(text: Seq<char>, n: PersonalNorm) -> bool {
    &&& created_content(text) == Some(n.content@)
    &&& n.utility == utility_view(text, "UTILITY"@)
    &&& n.alpha == type_view(text, NormType::Injunctive)
    &&& n.s_act
    &&& n.s_val
}

/// Builds a candidate norm from the `NORM`, `TYPE` and `UTILITY` lines,
/// unqualified; `None` when the `NORM` line is missing, empty or "none".
/// The type defaults to descriptive.
pub fn identified_norm(text: &str) -> (r: Option<PersonalNorm>)
    ensures
        match r {
            Some(n) => identified_from(text@, n),
            None => norm_content(text@, "NORM"@) is None,
        },
{
    let content = match read_content(field(text, "NORM")) {
        Some(c) => c,
        None => return None,
    };
    let alpha = read_type(text, NormType::Descriptive);
    let util = utility(text, "UTILITY");
    Some(PersonalNorm::identified(content.as_str(), util, alpha))
}

/// Builds a created norm from the `CONTENT` (or `NORM`), `TYPE` and
/// `UTILITY` lines, qualified; `None` when no norm was given.  The type
/// defaults to injunctive.
pub fn created_norm(text: &str) -> (r: Option<PersonalNorm>)
    ensures
        match r {
            Some(n) => created_from(text@, n),
            None => created_content(text@) is None,
        },
{
    let raw = match field(text, "CONTENT") {
        Some(v) => Some(v),
        None => field(text, "NORM"),
    };
    let content = match read_content(raw) {
        Some(c) => c,
        None => return None,
    };
    let alpha = read_type(text, NormType::Injunctive);
    let util = utility(text, "UTILITY");
    Some(PersonalNorm::created(content.as_str(), util, alpha))
}

/// The promotion verdict of an evaluation reply: the `PROMOTE` answer when
/// that key is present, else consistent ∧ type-ok ∧ ¬duplicate ∧ ¬conflicts.
pub open spec fn promote_view(text: Seq<char>) -> bool {
    if field_view(text, "PROMOTE"@) is Some {
        yes_view(text, "PROMOTE"@)
    } else {
        yes_view(text, "CONSISTENT"@) && yes_view(text, "TYPE_OK"@) && !yes_view(
            text,
            "DUPLICATE"@,
        ) && !yes_view(text, "CONFLICTS"@)
    }
}

/// The evaluation rule: a reply with a `PROMOTE` line is decided by that
/// answer alone; without one, a candidate is promoted exactly when it is
/// judged consistent and of the right type, and is neither a duplicate nor in
/// conflict with the agent's qualified norms.  In particular a reply without
/// `PROMOTE` that answers `CONFLICTS: yes` or `DUPLICATE: yes` is never
/// promoted, whatever else it says.
pub proof fn law_promotion_needs_every_check(text: Seq<char>)
    ensures
        field_view(text, "PROMOTE"@) is Some ==> (promote_view(text) <==> yes_view(
            text,
            "PROMOTE"@,
        )),
        field_view(text, "PROMOTE"@) is None ==> (promote_view(text) <==> {
            &&& yes_view(text, "CONSISTENT"@)
            &&& yes_view(text, "TYPE_OK"@)
            &&& !yes_view(text, "DUPLICATE"@)
            &&& !yes_view(text, "CONFLICTS"@)
        }),
        field_view(text, "PROMOTE"@) is None && (yes_view(text, "CONFLICTS"@) || yes_view(
            text,
            "DUPLICATE"@,
        )) ==> !promote_view(text),
{
}

/// Whether an evaluated candidate is promoted (see [`promote_view`]).
pub fn promote_decision(text: &str) -> (r: bool)
    ensures
        r == promote_view(text@),
{
    if field(text, "PROMOTE").is_some() {
        return yes(text, "PROMOTE");
    }
    let consistent = yes(text, "CONSISTENT");
    let type_ok = yes(text, "TYPE_OK");
    let duplicate = yes(text, "DUPLICATE");
    let conflicts = yes(text, "CONFLICTS");
    consistent && type_ok && !duplicate && !conflicts
}

/// Reads a sameness verdict (`SAME: yes|no`): whether the two norms are the
/// same norm.
pub fn same_norm(text: &str) -> (r: bool)
    ensures
        r == yes_view(text@, "SAME"@),
{
    yes(text, "SAME")
}

} // verus!
