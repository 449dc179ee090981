//! Character-level text model shared by the parsers, the prompt builders and
//! the canonical-norm identity.
//!
//! Every string is modelled by its sequence of Unicode scalar values
//! (`Seq<char>`, the view of `str` and `String`).  The spec functions below
//! state, over that model, what the standard library's ASCII case mapping,
//! whitespace trimming, splitting and ordering of strings mean; the exec
//! functions compute them and are proved against those statements.
use vstd::prelude::*;

verus! {

// ------------------------------------------------------------------------
// Character classes
// ------------------------------------------------------------------------

/// `'A'..='Z'`.
pub open spec fn is_ascii_upper(c: char) -> bool {
    'A' <= c && c <= 'Z'
}

/// `'0'..='9'` (`char::is_ascii_digit`).
pub open spec fn is_ascii_digit(c: char) -> bool {
    '0' <= c && c <= '9'
}

/// `char::is_ascii_alphanumeric`.
pub open spec fn is_ascii_alnum(c: char) -> bool {
    is_ascii_digit(c) || ('a' <= c && c <= 'z') || is_ascii_upper(c)
}

/// `char::is_whitespace`: the Unicode `White_Space` property.
pub open spec fn is_whitespace(c: char) -> bool {
    ||| ('\u{9}' <= c && c <= '\u{d}')
    ||| c == ' '
    ||| c == '\u{85}'
    ||| c == '\u{a0}'
    ||| c == '\u{1680}'
    ||| ('\u{2000}' <= c && c <= '\u{200a}')
    ||| c == '\u{2028}'
    ||| c == '\u{2029}'
    ||| c == '\u{202f}'
    ||| c == '\u{205f}'
    ||| c == '\u{3000}'
}

/// `char::to_ascii_lowercase`.
pub open spec fn lower_char(c: char) -> char {
    if is_ascii_upper(c) {
        ((c as u32) + 32) as char
    } else {
        c
    }
}

/// `str::to_ascii_lowercase`.
pub open spec fn lower(s: Seq<char>) -> Seq<char> {
    s.map_values(|c: char| lower_char(c))
}

// ------------------------------------------------------------------------
// Trimming
// ------------------------------------------------------------------------

/// Number of leading whitespace characters.
pub open spec fn lead_ws(s: Seq<char>) -> nat
    decreases s.len(),
{
    if s.len() > 0 && is_whitespace(s[0]) {
        1 + lead_ws(s.drop_first())
    } else {
        0
    }
}

/// Number of trailing whitespace characters.
pub open spec fn trail_ws(s: Seq<char>) -> nat
    decreases s.len(),
{
    if s.len() > 0 && is_whitespace(s.last()) {
        1 + trail_ws(s.drop_last())
    } else {
        0
    }
}

/// `str::trim`: the text without leading and trailing whitespace.
pub open spec fn trim(s: Seq<char>) -> Seq<char> {
    let t = s.skip(lead_ws(s) as int);
    t.take(t.len() - trail_ws(t))
}

/// Number of leading copies of `c`.
pub open spec fn lead_char(s: Seq<char>, c: char) -> nat
    decreases s.len(),
{
    if s.len() > 0 && s[0] == c {
        1 + lead_char(s.drop_first(), c)
    } else {
        0
    }
}

/// Number of trailing copies of `c`.
pub open spec fn trail_char(s: Seq<char>, c: char) -> nat
    decreases s.len(),
{
    if s.len() > 0 && s.last() == c {
        1 + trail_char(s.drop_last(), c)
    } else {
        0
    }
}

/// `str::trim_matches(c)` for a single character `c`.
pub open spec fn trim_matches(s: Seq<char>, c: char) -> Seq<char> {
    let t = s.skip(lead_char(s, c) as int);
    t.take(t.len() - trail_char(t, c))
}

/// `str::trim_end_matches(c)` for a single character `c`.
pub open spec fn trim_end_matches(s: Seq<char>, c: char) -> Seq<char> {
    s.take(s.len() - trail_char(s, c))
}

// ------------------------------------------------------------------------
// Splitting into runs
// ------------------------------------------------------------------------

/// The characters a split keeps: ASCII alphanumerics (`alnum`), or every
/// non-whitespace character (`!alnum`).
pub open spec fn kept(alnum: bool, c: char) -> bool {
    if alnum {
        is_ascii_alnum(c)
    } else {
        !is_whitespace(c)
    }
}

/// The maximal runs of kept characters, in order.  With `alnum` this is
/// `s.split(|c| !c.is_ascii_alphanumeric()).filter(|t| !t.is_empty())`;
/// without it, `s.split_whitespace()`.
pub open spec fn runs(s: Seq<char>, alnum: bool) -> Seq<Seq<char>>
    decreases s.len(),
{
    if s.len() == 0 {
        seq![]
    } else {
        let prev = runs(s.drop_last(), alnum);
        let c = s.last();
        if !kept(alnum, c) {
            prev
        } else if s.len() >= 2 && kept(alnum, s[s.len() - 2]) {
            prev.update(prev.len() - 1, prev.last().push(c))
        } else {
            prev.push(seq![c])
        }
    }
}

/// Every run is non-empty.
pub proof fn lemma_runs_nonempty(s: Seq<char>, alnum: bool)
    ensures
        forall|k: int| 0 <= k < runs(s, alnum).len() ==> (#[trigger] runs(s, alnum)[k]).len() > 0,
    decreases s.len(),
{
    if s.len() > 0 {
        lemma_runs_nonempty(s.drop_last(), alnum);
        let prev = runs(s.drop_last(), alnum);
        let r = runs(s, alnum);
        let c = s.last();
        if !kept(alnum, c) {
            assert(r == prev);
        } else if s.len() >= 2 && kept(alnum, s[s.len() - 2]) {
            assert(s.drop_last()[s.len() - 2] == s[s.len() - 2]);
            lemma_runs_exist(s.drop_last(), alnum, s.len() - 2);
            assert(r == prev.update(prev.len() - 1, prev.last().push(c)));
            assert forall|k: int| 0 <= k < r.len() implies (#[trigger] r[k]).len() > 0 by {
                if k < prev.len() - 1 {
                    assert(r[k] == prev[k]);
                }
            }
        } else {
            assert(r == prev.push(seq![c]));
            assert forall|k: int| 0 <= k < r.len() implies (#[trigger] r[k]).len() > 0 by {
                if k < prev.len() {
                    assert(r[k] == prev[k]);
                }
            }
        }
    }
}

/// A kept character gives at least one run.
pub proof fn lemma_runs_exist(s: Seq<char>, alnum: bool, i: int)
    requires
        0 <= i < s.len(),
        kept(alnum, s[i]),
    ensures
        runs(s, alnum).len() > 0,
    decreases s.len(),
{
    let prev = runs(s.drop_last(), alnum);
    if i < s.len() - 1 {
        assert(s.drop_last()[i] == s[i]);
        lemma_runs_exist(s.drop_last(), alnum, i);
    } else if s.len() >= 2 && kept(alnum, s[s.len() - 2]) {
        assert(s.drop_last()[s.len() - 2] == s[s.len() - 2]);
        lemma_runs_exist(s.drop_last(), alnum, s.len() - 2);
    }
}

/// Lowercasing keeps whitespace and non-whitespace apart.
pub proof fn lemma_lower_whitespace(c: char)
    ensures
        is_whitespace(lower_char(c)) == is_whitespace(c),
{
}

/// A join is at least as long as its last piece.
pub proof fn lemma_join_last(ts: Seq<Seq<char>>, sep: Seq<char>)
    requires
        ts.len() > 0,
    ensures
        join(ts, sep).len() >= ts.last().len(),
{
}

/// `w` occurs in `s` as a whole word: at some place, with `sep` (or the
/// start) before it and `sep` (or the end) after it.
pub open spec fn has_piece(s: Seq<char>, w: Seq<char>, sep: Seq<char>) -> bool {
    exists|i: int|
        {
            &&& 0 <= i && i + w.len() <= s.len()
            &&& #[trigger] s.subrange(i, i + w.len()) == w
            &&& (i == 0 || (i >= sep.len() && s.subrange(i - sep.len(), i) == sep))
            &&& (i + w.len() == s.len() || (i + w.len() + sep.len() <= s.len() && s.subrange(
                i + w.len(),
                i + w.len() + sep.len(),
            ) == sep))
        }
}

/// `t` occurs in `s` as a contiguous part.
pub open spec fn contains_text(s: Seq<char>, t: Seq<char>) -> bool {
    exists|i: int| 0 <= i && i + t.len() <= s.len() && #[trigger] s.subrange(i, i + t.len()) == t
}

/// Every piece of a join occurs in it as a whole piece between separators.
pub proof fn lemma_join_has_piece(ts: Seq<Seq<char>>, sep: Seq<char>, k: int)
    requires
        0 <= k < ts.len(),
    ensures
        has_piece(join(ts, sep), ts[k], sep),
    decreases ts.len(),
{
    let j = join(ts, sep);
    let w = ts[k];
    if ts.len() == 1 {
        assert(j == w);
        assert(j.subrange(0int, 0int + w.len()) =~= w);
        assert(has_piece(j, w, sep));
    } else {
        let jp = join(ts.drop_last(), sep);
        assert(j =~= jp + sep + ts.last());
        if k == ts.len() - 1 {
            let i: int = jp.len() as int + sep.len() as int;
            assert(j.subrange(i, i + w.len()) =~= w);
            assert(j.subrange(i - sep.len(), i) =~= sep);
            assert(has_piece(j, w, sep));
        } else {
            assert(ts.drop_last()[k] == w);
            lemma_join_has_piece(ts.drop_last(), sep, k);
            let i = choose|i: int|
                {
                    &&& 0 <= i && i + w.len() <= jp.len()
                    &&& #[trigger] jp.subrange(i, i + w.len()) == w
                    &&& (i == 0 || (i >= sep.len() && jp.subrange(i - sep.len(), i) == sep))
                    &&& (i + w.len() == jp.len() || (i + w.len() + sep.len() <= jp.len()
                        && jp.subrange(i + w.len(), i + w.len() + sep.len()) == sep))
                };
            assert(j.subrange(i, i + w.len()) =~= jp.subrange(i, i + w.len()));
            if i != 0 {
                assert(j.subrange(i - sep.len(), i) =~= jp.subrange(i - sep.len(), i));
            }
            if i + w.len() == jp.len() {
                assert(j.subrange(i + w.len(), i + w.len() + sep.len()) =~= sep);
            } else {
                assert(j.subrange(i + w.len(), i + w.len() + sep.len()) =~= jp.subrange(
                    i + w.len(),
                    i + w.len() + sep.len(),
                ));
            }
            assert(has_piece(j, w, sep));
        }
    }
}

/// A part of a part of `s` is a part of `s`.
pub proof fn lemma_contains_text_in(a: Seq<char>, m: Seq<char>, b: Seq<char>, t: Seq<char>)
    requires
        contains_text(m, t),
    ensures
        contains_text(a + m + b, t),
{
    let i = choose|i: int| 0 <= i && i + t.len() <= m.len() && #[trigger] m.subrange(i, i + t.len()) == t;
    let s = a + m + b;
    assert(s.subrange(a.len() + i, a.len() + i + t.len()) =~= m.subrange(i, i + t.len()));
}

/// `ts.join(sep)`.
pub open spec fn join(ts: Seq<Seq<char>>, sep: Seq<char>) -> Seq<char>
    decreases ts.len(),
{
    if ts.len() == 0 {
        seq![]
    } else if ts.len() == 1 {
        ts[0]
    } else {
        join(ts.drop_last(), sep) + sep + ts.last()
    }
}

// ------------------------------------------------------------------------
// Order
// ------------------------------------------------------------------------

/// Strict lexicographic order of character sequences (the order of `String`:
/// byte order of UTF-8, which is code point order).
pub open spec fn lex_lt(a: Seq<char>, b: Seq<char>) -> bool
    decreases a.len(),
{
    if a.len() == 0 {
        b.len() > 0
    } else if b.len() == 0 {
        false
    } else if a[0] != b[0] {
        a[0] < b[0]
    } else {
        lex_lt(a.drop_first(), b.drop_first())
    }
}

/// Strictly increasing in [`lex_lt`] (sorted, no duplicates).
pub open spec fn strictly_sorted(ts: Seq<Seq<char>>) -> bool {
    forall|i: int, j: int| 0 <= i < j < ts.len() ==> lex_lt(#[trigger] ts[i], #[trigger] ts[j])
}


/// [`lex_lt`] is irreflexive.
pub proof fn lemma_lex_irrefl(a: Seq<char>)
    ensures
        !lex_lt(a, a),
    decreases a.len(),
{
    if a.len() > 0 {
        lemma_lex_irrefl(a.drop_first());
    }
}

/// [`lex_lt`] is asymmetric.
pub proof fn lemma_lex_asym(a: Seq<char>, b: Seq<char>)
    ensures
        !(lex_lt(a, b) && lex_lt(b, a)),
    decreases a.len(),
{
    if a.len() > 0 && b.len() > 0 && a[0] == b[0] {
        lemma_lex_asym(a.drop_first(), b.drop_first());
    }
}

/// [`lex_lt`] is transitive.
pub proof fn lemma_lex_trans(a: Seq<char>, b: Seq<char>, c: Seq<char>)
    requires
        lex_lt(a, b),
        lex_lt(b, c),
    ensures
        lex_lt(a, c),
    decreases a.len(),
{
    if a.len() > 0 && b.len() > 0 && c.len() > 0 && a[0] == b[0] && b[0] == c[0] {
        lemma_lex_trans(a.drop_first(), b.drop_first(), c.drop_first());
    }
}

/// [`lex_lt`] is total on distinct sequences.
pub proof fn lemma_lex_total(a: Seq<char>, b: Seq<char>)
    requires
        a != b,
    ensures
        lex_lt(a, b) || lex_lt(b, a),
    decreases a.len(),
{
    if a.len() > 0 && b.len() > 0 && a[0] == b[0] {
        if a.drop_first() == b.drop_first() {
            assert(a =~= seq![a[0]] + a.drop_first());
            assert(b =~= seq![b[0]] + b.drop_first());
        }
        lemma_lex_total(a.drop_first(), b.drop_first());
    } else if a.len() == 0 && b.len() == 0 {
        assert(a =~= b);
    }
}

/// Two strictly sorted sequences with the same elements are equal.
pub proof fn lemma_sorted_unique(r1: Seq<Seq<char>>, r2: Seq<Seq<char>>)
    requires
        strictly_sorted(r1),
        strictly_sorted(r2),
        r1.to_set() == r2.to_set(),
    ensures
        r1 == r2,
    decreases r1.len(),
{
    if r1.len() == 0 {
        if r2.len() > 0 {
            assert(r2.to_set().contains(r2[0]));
            assert(r1.to_set().contains(r2[0]));
            assert(false);
        }
        assert(r2.len() == 0);
        assert(r1 =~= r2);
    } else {
        assert(r1.to_set().contains(r1[0]));
        assert(r2.to_set().contains(r1[0]));
        assert(r2.len() > 0);
        assert(r2.to_set().contains(r2[0]));
        assert(r1.to_set().contains(r2[0]));
        let i2 = choose|i: int| 0 <= i < r2.len() && r2[i] == r1[0];
        let i1 = choose|i: int| 0 <= i < r1.len() && r1[i] == r2[0];
        if i2 > 0 {
            assert(lex_lt(r2[0], r2[i2]));
            if i1 > 0 {
                assert(lex_lt(r1[0], r1[i1]));
                lemma_lex_asym(r1[0], r2[0]);
            } else {
                lemma_lex_irrefl(r1[0]);
            }
        }
        assert(r1[0] == r2[0]);
        let t1 = r1.drop_first();
        let t2 = r2.drop_first();
        assert forall|x: Seq<char>| t1.to_set().contains(x) implies t2.to_set().contains(x) by {
            let k = choose|k: int| 0 <= k < t1.len() && t1[k] == x;
            assert(r1[k + 1] == x);
            assert(lex_lt(r1[0], x));
            assert(r2.to_set().contains(x));
            let m = choose|m: int| 0 <= m < r2.len() && r2[m] == x;
            if m == 0 {
                lemma_lex_irrefl(x);
            }
            assert(t2[m - 1] == x);
        }
        assert forall|x: Seq<char>| t2.to_set().contains(x) implies t1.to_set().contains(x) by {
            let k = choose|k: int| 0 <= k < t2.len() && t2[k] == x;
            assert(r2[k + 1] == x);
            assert(lex_lt(r2[0], x));
            assert(r1.to_set().contains(x));
            let m = choose|m: int| 0 <= m < r1.len() && r1[m] == x;
            if m == 0 {
                lemma_lex_irrefl(x);
            }
            assert(t1[m - 1] == x);
        }
        assert(t1.to_set() =~= t2.to_set());
        lemma_sorted_unique(t1, t2);
        assert(r1 =~= seq![r1[0]] + t1);
        assert(r2 =~= seq![r2[0]] + t2);
    }
}

/// `r` with `x` inserted in order (unchanged when `x` is already there).
pub open spec fn sorted_insert(r: Seq<Seq<char>>, x: Seq<char>) -> Seq<Seq<char>>
    decreases r.len(),
{
    if r.len() == 0 {
        seq![x]
    } else if lex_lt(r[0], x) {
        seq![r[0]] + sorted_insert(r.drop_first(), x)
    } else if r[0] == x {
        r
    } else {
        seq![x] + r
    }
}

/// Inserting in order keeps a sequence strictly sorted and adds `x`.
pub proof fn lemma_sorted_insert(r: Seq<Seq<char>>, x: Seq<char>)
    requires
        strictly_sorted(r),
    ensures
        strictly_sorted(sorted_insert(r, x)),
        sorted_insert(r, x).to_set() == r.to_set().insert(x),
    decreases r.len(),
{
    let out = sorted_insert(r, x);
    if r.len() == 0 {
        assert(out =~= seq![x]);
        assert(r.to_set() =~= Set::<Seq<char>>::empty());
        assert forall|y: Seq<char>| out.to_set().contains(y) <==> y == x by {
            if y == x {
                assert(out[0] == x);
            }
        }
        assert(out.to_set() =~= r.to_set().insert(x));
    } else if lex_lt(r[0], x) {
        let t = r.drop_first();
        assert forall|i: int, j: int| 0 <= i < j < t.len() implies lex_lt(#[trigger] t[i], #[trigger] t[j]) by {
            assert(lex_lt(r[i + 1], r[j + 1]));
        }
        lemma_sorted_insert(t, x);
        let st = sorted_insert(t, x);
        assert(out =~= seq![r[0]] + st);
        assert forall|j: int| 0 <= j < st.len() implies lex_lt(r[0], #[trigger] st[j]) by {
            assert(st.to_set().contains(st[j]));
            if st[j] != x {
                assert(t.to_set().contains(st[j]));
                let q = choose|q: int| 0 <= q < t.len() && t[q] == st[j];
                assert(lex_lt(r[0], r[q + 1]));
            }
        }
        assert forall|i: int, j: int| 0 <= i < j < out.len() implies lex_lt(#[trigger] out[i], #[trigger] out[j]) by {
            if i == 0 {
                assert(out[j] == st[j - 1]);
            } else {
                assert(out[i] == st[i - 1] && out[j] == st[j - 1]);
            }
        }
        assert(r =~= seq![r[0]] + t);
        assert forall|y: Seq<char>| out.to_set().contains(y) <==> r.to_set().insert(x).contains(y) by {
            if out.to_set().contains(y) {
                let q = choose|q: int| 0 <= q < out.len() && out[q] == y;
                if q > 0 {
                    assert(st[q - 1] == y);
                    assert(st.to_set().contains(y));
                    if y != x {
                        assert(t.to_set().contains(y));
                        let u = choose|u: int| 0 <= u < t.len() && t[u] == y;
                        assert(r[u + 1] == y);
                    }
                } else {
                    assert(r[0] == y);
                }
            }
            if r.to_set().insert(x).contains(y) {
                if y == x {
                    assert(st.to_set().contains(x));
                    let q = choose|q: int| 0 <= q < st.len() && st[q] == x;
                    assert(out[q + 1] == x);
                } else {
                    let q = choose|q: int| 0 <= q < r.len() && r[q] == y;
                    if q == 0 {
                        assert(out[0] == y);
                    } else {
                        assert(t[q - 1] == y);
                        assert(t.to_set().contains(y));
                        assert(st.to_set().contains(y));
                        let u = choose|u: int| 0 <= u < st.len() && st[u] == y;
                        assert(out[u + 1] == y);
                    }
                }
            }
        }
        assert(out.to_set() =~= r.to_set().insert(x));
    } else if r[0] == x {
        assert(r.to_set().contains(r[0]));
        assert(r.to_set().insert(x) =~= r.to_set());
    } else {
        lemma_lex_total(r[0], x);
        assert(out =~= seq![x] + r);
        assert forall|i: int, j: int| 0 <= i < j < out.len() implies lex_lt(#[trigger] out[i], #[trigger] out[j]) by {
            if i == 0 {
                assert(out[j] == r[j - 1]);
                if j > 1 {
                    assert(lex_lt(r[0], r[j - 1]));
                    lemma_lex_trans(x, r[0], r[j - 1]);
                }
            } else {
                assert(out[i] == r[i - 1] && out[j] == r[j - 1]);
            }
        }
        assert forall|y: Seq<char>| out.to_set().contains(y) <==> r.to_set().insert(x).contains(y) by {
            if out.to_set().contains(y) {
                let q = choose|q: int| 0 <= q < out.len() && out[q] == y;
                if q > 0 {
                    assert(r[q - 1] == y);
                }
            }
            if r.to_set().insert(x).contains(y) {
                if y == x {
                    assert(out[0] == x);
                } else {
                    let q = choose|q: int| 0 <= q < r.len() && r[q] == y;
                    assert(out[q + 1] == y);
                }
            }
        }
        assert(out.to_set() =~= r.to_set().insert(x));
    }
}

/// Every sequence has a strictly sorted arrangement of its distinct
/// elements, so [`sorted_distinct`] is one.
pub proof fn lemma_sorted_distinct_exists(ts: Seq<Seq<char>>)
    ensures
        exists|r: Seq<Seq<char>>| strictly_sorted(r) && r.to_set() == ts.to_set(),
        strictly_sorted(sorted_distinct(ts)),
        sorted_distinct(ts).to_set() == ts.to_set(),
    decreases ts.len(),
{
    if ts.len() == 0 {
        let r = Seq::<Seq<char>>::empty();
        assert(r.to_set() =~= ts.to_set());
        assert(strictly_sorted(r) && r.to_set() == ts.to_set());
    } else {
        lemma_sorted_distinct_exists(ts.drop_last());
        let r0 = sorted_distinct(ts.drop_last());
        lemma_sorted_insert(r0, ts.last());
        let r = sorted_insert(r0, ts.last());
        assert(ts =~= ts.drop_last().push(ts.last()));
        ts.drop_last().lemma_push_to_set_commute(ts.last());
        assert(r.to_set() == ts.to_set());
        assert(strictly_sorted(r) && r.to_set() == ts.to_set());
    }
}

/// The strictly sorted sequence of the distinct elements of `ts`.
pub open spec fn sorted_distinct(ts: Seq<Seq<char>>) -> Seq<Seq<char>> {
    choose|r: Seq<Seq<char>>| strictly_sorted(r) && r.to_set() == ts.to_set()
}

// ------------------------------------------------------------------------
// Numbers
// ------------------------------------------------------------------------

/// The digit character of `d < 10`.
pub open spec fn digit_char(d: nat) -> char {
    (('0' as u32) + d) as char
}

/// Decimal notation of `n` (what `to_string` gives for an unsigned integer).
pub open spec fn decimal(n: nat) -> Seq<char>
    decreases n,
{
    if n < 10 {
        seq![digit_char(n)]
    } else {
        decimal(n / 10).push(digit_char(n % 10))
    }
}

/// The value of a sequence of decimal digits.
pub open spec fn decimal_value(ds: Seq<char>) -> nat
    decreases ds.len(),
{
    if ds.len() == 0 {
        0
    } else {
        decimal_value(ds.drop_last()) * 10 + ((ds.last() as u32) - ('0' as u32)) as nat
    }
}


/// Number of leading characters that are not ASCII digits.
pub open spec fn lead_nondigits(s: Seq<char>) -> nat
    decreases s.len(),
{
    if s.len() > 0 && !is_ascii_digit(s[0]) {
        1 + lead_nondigits(s.drop_first())
    } else {
        0
    }
}

/// Number of leading ASCII digits.
pub open spec fn lead_digits(s: Seq<char>) -> nat
    decreases s.len(),
{
    if s.len() > 0 && is_ascii_digit(s[0]) {
        1 + lead_digits(s.drop_first())
    } else {
        0
    }
}

/// The first run of ASCII digits:
/// `s.chars().skip_while(|c| !c.is_ascii_digit()).take_while(|c| c.is_ascii_digit())`.
pub open spec fn digit_run(s: Seq<char>) -> Seq<char> {
    let t = s.skip(lead_nondigits(s) as int);
    t.take(lead_digits(t) as int)
}

// ------------------------------------------------------------------------
// Substrings
// ------------------------------------------------------------------------

/// `p` occurs in `s` starting at `i`.
pub open spec fn occurs_at(s: Seq<char>, p: Seq<char>, i: int) -> bool {
    0 <= i && i + p.len() <= s.len() && s.subrange(i, i + p.len()) == p
}

/// `str::contains` for a string pattern.
pub open spec fn contains(s: Seq<char>, p: Seq<char>) -> bool {
    exists|i: int| occurs_at(s, p, i)
}

/// `p` occurs at least twice in `s` without overlap
/// (`s.matches(p).count() >= 2`).
pub open spec fn occurs_twice(s: Seq<char>, p: Seq<char>) -> bool {
    exists|i: int, j: int| occurs_at(s, p, i) && occurs_at(s, p, j) && i + p.len() <= j
}


// ------------------------------------------------------------------------
// Search and lines
// ------------------------------------------------------------------------

/// Index of the first `c` in `s`, or `s.len()` when there is none.
pub open spec fn find(s: Seq<char>, c: char) -> nat
    decreases s.len(),
{
    if s.len() == 0 {
        0
    } else if s[0] == c {
        0
    } else {
        1 + find(s.drop_first(), c)
    }
}

/// What [`find`] is: the first occurrence of `c`, or the length.
pub proof fn lemma_find(s: Seq<char>, c: char)
    ensures
        find(s, c) <= s.len(),
        forall|j: int| 0 <= j < find(s, c) ==> s[j] != c,
        find(s, c) < s.len() ==> s[find(s, c) as int] == c,
    decreases s.len(),
{
    if s.len() > 0 && s[0] != c {
        lemma_find(s.drop_first(), c);
        assert forall|j: int| 0 <= j < find(s, c) implies s[j] != c by {
            if j > 0 {
                assert(s[j] == s.drop_first()[j - 1]);
            }
        }
    }
}

/// An index before which `c` does not occur, and at which it occurs unless it
/// is the length, is [`find`].
pub proof fn lemma_find_at(s: Seq<char>, c: char, i: int)
    requires
        0 <= i <= s.len(),
        forall|j: int| 0 <= j < i ==> s[j] != c,
        i < s.len() ==> s[i] == c,
    ensures
        find(s, c) == i,
{
    lemma_find(s, c);
    if find(s, c) < i {
        assert(s[find(s, c) as int] != c);
    }
    if find(s, c) > i {
        assert(s[i] != c);
    }
}

/// A line without its `"\r"` terminator part.
pub open spec fn strip_cr(l: Seq<char>) -> Seq<char> {
    if l.len() > 0 && l.last() == '\r' {
        l.drop_last()
    } else {
        l
    }
}

/// `str::split(c)`: the pieces between the copies of `c` (the whole of `s`
/// when it has none).
pub open spec fn split(s: Seq<char>, c: char) -> Seq<Seq<char>>
    decreases s.len(),
{
    let p = find(s, c);
    if p >= s.len() {
        seq![s]
    } else {
        seq![s.take(p as int)] + split(s.skip(p + 1 as int), c)
    }
}

/// `str::lines`: split at `"\n"`, a `"\r"` before a `"\n"` dropped, no line
/// after a final `"\n"`.
pub open spec fn lines(s: Seq<char>) -> Seq<Seq<char>>
    decreases s.len(),
{
    if s.len() == 0 {
        seq![]
    } else {
        let p = find(s, '\n');
        if p >= s.len() {
            seq![s]
        } else {
            seq![strip_cr(s.take(p as int))] + lines(s.skip(p + 1 as int))
        }
    }
}

// ------------------------------------------------------------------------
// Standard-library string operations that vstd leaves unspecified
// ------------------------------------------------------------------------

/// `String::push` appends one character.
pub assume_specification[ String::push ](string: &mut String, ch: char)
    ensures
        final(string)@ == old(string)@.push(ch),
;

// ------------------------------------------------------------------------
// Exec helpers
// ------------------------------------------------------------------------

/// The characters of `s`.
pub fn chars_of(s: &str) -> (v: Vec<char>)
    ensures
        v@ == s@,
{
    let mut v: Vec<char> = Vec::new();
    for c in it: s.chars()
        invariant
            v@ == it.seq().take(it.index() as int),
            it.seq() == s@,
    {
        v.push(c);
    }
    v
}

/// A `String` holding the characters `v[lo..hi]`.
pub fn string_of(v: &Vec<char>, lo: usize, hi: usize) -> (s: String)
    requires
        lo <= hi <= v.len(),
    ensures
        s@ == v@.subrange(lo as int, hi as int),
{
    let mut s = String::new();
    let mut i = lo;
    while i < hi
        invariant
            lo <= i <= hi <= v.len(),
            s@ == v@.subrange(lo as int, i as int),
        decreases hi - i,
    {
        s.push(v[i]);
        i = i + 1;
    }
    s
}

/// Appends `t` to `s`.
pub fn push_str(s: &mut String, t: &str)
    ensures
        final(s)@ == old(s)@ + t@,
{
    s.append(t);
}

/// `char::to_ascii_lowercase`.
pub fn lower_char_exec(c: char) -> (r: char)
    ensures
        r == lower_char(c),
{
    if 'A' <= c && c <= 'Z' {
        let b: u8 = c as u8;
        (b + 32) as char
    } else {
        c
    }
}

/// `char::is_ascii_alphanumeric`.
pub fn is_alnum_exec(c: char) -> (r: bool)
    ensures
        r == is_ascii_alnum(c),
{
    ('0' <= c && c <= '9') || ('a' <= c && c <= 'z') || ('A' <= c && c <= 'Z')
}

/// `char::is_ascii_digit`.
pub fn is_digit_exec(c: char) -> (r: bool)
    ensures
        r == is_ascii_digit(c),
{
    '0' <= c && c <= '9'
}

/// `char::is_whitespace`.
pub fn is_whitespace_exec(c: char) -> (r: bool)
    ensures
        r == is_whitespace(c),
{
    ('\u{9}' <= c && c <= '\u{d}') || c == ' ' || c == '\u{85}' || c == '\u{a0}' || c == '\u{1680}'
        || ('\u{2000}' <= c && c <= '\u{200a}') || c == '\u{2028}' || c == '\u{2029}' || c
        == '\u{202f}' || c == '\u{205f}' || c == '\u{3000}'
}

/// The characters of `v`, ASCII-lowercased.
pub fn lower_vec(v: &Vec<char>) -> (r: Vec<char>)
    ensures
        r@ == lower(v@),
{
    let mut r: Vec<char> = Vec::new();
    let mut i: usize = 0;
    while i < v.len()
        invariant
            i <= v.len(),
            r@ == lower(v@.take(i as int)),
        decreases v.len() - i,
    {
        r.push(lower_char_exec(v[i]));
        proof {
            assert(lower(v@.take(i + 1)) =~= lower(v@.take(i as int)).push(lower_char(v@[i as int])));
        }
        i = i + 1;
    }
    proof {
        assert(v@.take(v.len() as int) =~= v@);
    }
    r
}


/// Bounds `(a, b)` with `v[a..b]` the trimmed text of `v[lo..hi]`.
pub fn trim_range(v: &Vec<char>, lo: usize, hi: usize) -> (r: (usize, usize))
    requires
        lo <= hi <= v.len(),
    ensures
        lo <= r.0 <= r.1 <= hi,
        v@.subrange(r.0 as int, r.1 as int) == trim(v@.subrange(lo as int, hi as int)),
{
    let ghost s = v@.subrange(lo as int, hi as int);
    let mut a = lo;
    while a < hi && is_whitespace_exec(v[a])
        invariant
            lo <= a <= hi <= v.len(),
            s == v@.subrange(lo as int, hi as int),
            lead_ws(s) == (a - lo) + lead_ws(v@.subrange(a as int, hi as int)),
        decreases hi - a,
    {
        proof {
            assert(v@.subrange(a as int, hi as int).drop_first() =~= v@.subrange(a + 1, hi as int));
        }
        a = a + 1;
    }
    let ghost t = v@.subrange(a as int, hi as int);
    proof {
        assert(s.skip(lead_ws(s) as int) =~= t);
    }
    let mut b = hi;
    while b > a && is_whitespace_exec(v[b - 1])
        invariant
            lo <= a <= b <= hi <= v.len(),
            t == v@.subrange(a as int, hi as int),
            trail_ws(t) == (hi - b) + trail_ws(v@.subrange(a as int, b as int)),
        decreases b - a,
    {
        proof {
            assert(v@.subrange(a as int, b as int).drop_last() =~= v@.subrange(a as int, b - 1));
        }
        b = b - 1;
    }
    proof {
        assert(t.take(t.len() - trail_ws(t)) =~= v@.subrange(a as int, b as int));
    }
    (a, b)
}

/// Bounds `(a, b)` with `v[a..b]` the text of `v[lo..hi]` without leading and
/// trailing copies of `c`.
pub fn trim_char_range(v: &Vec<char>, lo: usize, hi: usize, c: char) -> (r: (usize, usize))
    requires
        lo <= hi <= v.len(),
    ensures
        lo <= r.0 <= r.1 <= hi,
        v@.subrange(r.0 as int, r.1 as int) == trim_matches(v@.subrange(lo as int, hi as int), c),
{
    let ghost s = v@.subrange(lo as int, hi as int);
    let mut a = lo;
    while a < hi && v[a] == c
        invariant
            lo <= a <= hi <= v.len(),
            s == v@.subrange(lo as int, hi as int),
            lead_char(s, c) == (a - lo) + lead_char(v@.subrange(a as int, hi as int), c),
        decreases hi - a,
    {
        proof {
            assert(v@.subrange(a as int, hi as int).drop_first() =~= v@.subrange(a + 1, hi as int));
        }
        a = a + 1;
    }
    let ghost t = v@.subrange(a as int, hi as int);
    proof {
        assert(s.skip(lead_char(s, c) as int) =~= t);
    }
    let mut b = hi;
    while b > a && v[b - 1] == c
        invariant
            lo <= a <= b <= hi <= v.len(),
            t == v@.subrange(a as int, hi as int),
            trail_char(t, c) == (hi - b) + trail_char(v@.subrange(a as int, b as int), c),
        decreases b - a,
    {
        proof {
            assert(v@.subrange(a as int, b as int).drop_last() =~= v@.subrange(a as int, b - 1));
        }
        b = b - 1;
    }
    proof {
        assert(t.take(t.len() - trail_char(t, c)) =~= v@.subrange(a as int, b as int));
    }
    (a, b)
}

/// The end `b` with `v[..b]` the text `v` without trailing copies of `c`.
pub fn trim_end_len(v: &Vec<char>, c: char) -> (b: usize)
    ensures
        b <= v.len(),
        v@.take(b as int) == trim_end_matches(v@, c),
{
    let mut b = v.len();
    proof {
        assert(v@.take(b as int) =~= v@);
    }
    while b > 0 && v[b - 1] == c
        invariant
            b <= v.len(),
            trail_char(v@, c) == (v.len() - b) + trail_char(v@.take(b as int), c),
        decreases b,
    {
        proof {
            assert(v@.take(b as int).drop_last() =~= v@.take(b - 1));
        }
        b = b - 1;
    }
    proof {
        assert(v@.take(b as int) =~= v@.take(v@.len() - trail_char(v@, c)));
        assert(v@.take(v@.len() as int) =~= v@);
    }
    b
}

/// `v == lit`.
pub fn eq_lit(v: &Vec<char>, lit: &str) -> (r: bool)
    ensures
        r == (v@ == lit@),
{
    let n = lit.unicode_len();
    if n != v.len() {
        return false;
    }
    let mut i: usize = 0;
    while i < n
        invariant
            n == lit@.len() == v@.len(),
            i <= n,
            forall|j: int| 0 <= j < i ==> v@[j] == lit@[j],
        decreases n - i,
    {
        if v[i] != lit.get_char(i) {
            return false;
        }
        i = i + 1;
    }
    proof {
        assert(v@ =~= lit@);
    }
    true
}

/// `v[lo..hi] == lit`.
pub fn eq_lit_at(v: &Vec<char>, lo: usize, hi: usize, lit: &str) -> (r: bool)
    requires
        lo <= hi <= v.len(),
    ensures
        r == (v@.subrange(lo as int, hi as int) == lit@),
{
    let n = lit.unicode_len();
    if n != hi - lo {
        return false;
    }
    let mut i: usize = 0;
    while i < n
        invariant
            n == lit@.len() == hi - lo,
            lo <= hi <= v.len(),
            i <= n,
            forall|j: int| 0 <= j < i ==> v@[lo + j] == lit@[j],
        decreases n - i,
    {
        if v[lo + i] != lit.get_char(i) {
            return false;
        }
        i = i + 1;
    }
    proof {
        assert(v@.subrange(lo as int, hi as int) =~= lit@);
    }
    true
}

/// `v` contains `lit` as a substring.
pub fn contains_lit(v: &Vec<char>, lit: &str) -> (r: bool)
    ensures
        r == contains(v@, lit@),
{
    let n = lit.unicode_len();
    if n > v.len() {
        proof {
            assert forall|i: int| !occurs_at(v@, lit@, i) by {}
        }
        return false;
    }
    let mut i: usize = 0;
    if n == 0 {
        assert(v@.subrange(0, 0) =~= lit@);
        assert(occurs_at(v@, lit@, 0));
        return true;
    }
    let last = v.len() - n;
    while i <= last
        invariant
            n == lit@.len() <= v@.len(),
            n > 0,
            last == v.len() - n,
            i <= last + 1,
            forall|j: int| 0 <= j < i ==> !occurs_at(v@, lit@, j),
        decreases last + 1 - i,
    {
        if eq_lit_at(v, i, i + n, lit) {
            assert(occurs_at(v@, lit@, i as int));
            return true;
        }
        i = i + 1;
    }
    proof {
        assert forall|j: int| !occurs_at(v@, lit@, j) by {
            if 0 <= j < i {
            } else if j >= i {
                assert(j + n > v.len());
            }
        }
    }
    false
}


/// The first place at or after `from` where `lit` (non-empty) occurs in `v`.
pub fn find_lit_from(v: &Vec<char>, lit: &str, from: usize) -> (r: Option<usize>)
    requires
        lit@.len() > 0,
    ensures
        match r {
            Some(i) => from <= i && occurs_at(v@, lit@, i as int) && forall|j: int|
                from <= j < i ==> !occurs_at(v@, lit@, j),
            None => forall|j: int| from <= j ==> !occurs_at(v@, lit@, j),
        },
{
    let n = lit.unicode_len();
    if n > v.len() {
        return None;
    }
    let last = v.len() - n;
    let mut i: usize = from;
    while i <= last
        invariant
            n == lit@.len() <= v@.len(),
            n > 0,
            last == v.len() - n,
            from <= i,
            forall|j: int| from <= j < i ==> !occurs_at(v@, lit@, j),
        decreases last + 1 - i,
    {
        if eq_lit_at(v, i, i + n, lit) {
            return Some(i);
        }
        i = i + 1;
    }
    None
}

/// `lit` (non-empty) occurs at least twice in `v` without overlap.
pub fn occurs_twice_lit(v: &Vec<char>, lit: &str) -> (r: bool)
    requires
        lit@.len() > 0,
    ensures
        r == occurs_twice(v@, lit@),
{
    let n = lit.unicode_len();
    match find_lit_from(v, lit, 0) {
        Some(a) => {
            assert(a + n <= v.len());
            match find_lit_from(v, lit, a + n) {
                Some(b) => {
                    proof {
                        assert(occurs_at(v@, lit@, a as int) && occurs_at(v@, lit@, b as int));
                    }
                    true
                },
                None => {
                    proof {
                        assert forall|i: int, j: int|
                            occurs_at(v@, lit@, i) && occurs_at(v@, lit@, j) implies !(i + lit@.len() <= j) by {
                            if i + lit@.len() <= j {
                                assert(a <= i);
                            }
                        }
                    }
                    false
                },
            }
        },
        None => false,
    }
}

/// The character sequences of a vector of character vectors.
pub open spec fn seqs_of(ts: Seq<Vec<char>>) -> Seq<Seq<char>> {
    ts.map_values(|t: Vec<char>| t@)
}

/// The maximal runs of kept characters of `v` (see [`runs`]).
#[verifier::spinoff_prover]
#[verifier::rlimit(40)]
pub fn runs_of(v: &Vec<char>, alnum: bool) -> (r: Vec<Vec<char>>)
    ensures
        seqs_of(r@) == runs(v@, alnum),
{
    let mut toks: Vec<Vec<char>> = Vec::new();
    let mut cur: Vec<char> = Vec::new();
    let mut i: usize = 0;
    while i < v.len()
        invariant
            i <= v.len(),
            cur.len() > 0 <==> (i > 0 && kept(alnum, v@[i - 1])),
            runs(v@.take(i as int), alnum) == (if cur.len() > 0 {
                seqs_of(toks@).push(cur@)
            } else {
                seqs_of(toks@)
            }),
        decreases v.len() - i,
    {
        let c = v[i];
        let keep = if alnum {
            is_alnum_exec(c)
        } else {
            !is_whitespace_exec(c)
        };
        let ghost t = v@.take(i + 1);
        let ghost prev = runs(v@.take(i as int), alnum);
        proof {
            assert(t.drop_last() =~= v@.take(i as int));
            assert(t.last() == c);
            if i > 0 {
                assert(t[t.len() - 2] == v@[i - 1]);
            }
        }
        let ghost old_toks = toks@;
        let ghost old_cur = cur@;
        if !keep {
            if cur.len() > 0 {
                let done = cur;
                toks.push(done);
                cur = Vec::new();
                proof {
                    assert(seqs_of(toks@) =~= seqs_of(old_toks).push(old_cur));
                }
            }
            proof {
                assert(runs(t, alnum) == prev);
            }
        } else {
            cur.push(c);
            proof {
                if old_cur.len() > 0 {
                    assert(prev =~= seqs_of(old_toks).push(old_cur));
                    assert(runs(t, alnum) == prev.update(prev.len() - 1, prev.last().push(c)));
                    assert(runs(t, alnum) =~= seqs_of(toks@).push(cur@));
                } else {
                    assert(runs(t, alnum) == prev.push(seq![c]));
                    assert(cur@ =~= seq![c]);
                }
            }
        }
        i = i + 1;
    }
    let ghost old_toks = toks@;
    let ghost old_cur = cur@;
    if cur.len() > 0 {
        toks.push(cur);
        proof {
            assert(seqs_of(toks@) =~= seqs_of(old_toks).push(old_cur));
        }
    }
    proof {
        assert(v@.take(v.len() as int) =~= v@);
    }
    toks
}

/// `ts.join(sep)` as a `String`.
pub fn join_exec(ts: &Vec<Vec<char>>, sep: char) -> (s: String)
    ensures
        s@ == join(seqs_of(ts@), seq![sep]),
{
    let mut s = String::new();
    let mut i: usize = 0;
    while i < ts.len()
        invariant
            i <= ts.len(),
            s@ == join(seqs_of(ts@).take(i as int), seq![sep]),
        decreases ts.len() - i,
    {
        proof {
            let d = seqs_of(ts@).take(i + 1);
            assert(d.drop_last() =~= seqs_of(ts@).take(i as int));
        }
        if i > 0 {
            s.push(sep);
        }
        let t = &ts[i];
        let mut j: usize = 0;
        let ghost before = s@;
        while j < t.len()
            invariant
                j <= t.len(),
                s@ == before + t@.take(j as int),
            decreases t.len() - j,
        {
            s.push(t[j]);
            proof {
                assert(t@.take(j + 1) =~= t@.take(j as int).push(t@[j as int]));
            }
            j = j + 1;
        }
        proof {
            assert(t@.take(t.len() as int) =~= t@);
            let d = seqs_of(ts@).take(i + 1);
            assert(d.last() == t@);
            if i == 0 {
                assert(s@ =~= join(d, seq![sep]));
            } else {
                assert(s@ =~= join(d.drop_last(), seq![sep]) + seq![sep] + d.last());
            }
        }
        i = i + 1;
    }
    proof {
        assert(seqs_of(ts@).take(ts.len() as int) =~= seqs_of(ts@));
    }
    s
}

/// `a < b` in the order of strings.
pub fn lex_less(a: &Vec<char>, b: &Vec<char>) -> (r: bool)
    ensures
        r == lex_lt(a@, b@),
{
    let mut i: usize = 0;
    proof {
        assert(a@.skip(0) =~= a@);
        assert(b@.skip(0) =~= b@);
    }
    while i < a.len() && i < b.len()
        invariant
            i <= a.len(),
            i <= b.len(),
            lex_lt(a@, b@) == lex_lt(a@.skip(i as int), b@.skip(i as int)),
        decreases a.len() - i,
    {
        if a[i] != b[i] {
            return a[i] < b[i];
        }
        proof {
            assert(a@.skip(i as int).drop_first() =~= a@.skip(i + 1));
            assert(b@.skip(i as int).drop_first() =~= b@.skip(i + 1));
        }
        i = i + 1;
    }
    a.len() < b.len()
}

/// The digit character of `d < 10`.
pub fn digit_char_exec(d: u64) -> (c: char)
    requires
        d < 10,
    ensures
        c == digit_char(d as nat),
{
    let b: u8 = d as u8;
    (b + 48) as char
}

/// Decimal notation of `n`.
pub fn decimal_string(n: u64) -> (s: String)
    ensures
        s@ == decimal(n as nat),
    decreases n,
{
    if n < 10 {
        let mut s = String::new();
        s.push(digit_char_exec(n));
        s
    } else {
        let mut s = decimal_string(n / 10);
        s.push(digit_char_exec(n % 10));
        s
    }
}


/// The characters `v[lo..hi]` as a vector.
pub fn string_chars(v: &Vec<char>, lo: usize, hi: usize) -> (r: Vec<char>)
    requires
        lo <= hi <= v.len(),
    ensures
        r@ == v@.subrange(lo as int, hi as int),
{
    let mut r: Vec<char> = Vec::new();
    let mut i = lo;
    while i < hi
        invariant
            lo <= i <= hi <= v.len(),
            r@ == v@.subrange(lo as int, i as int),
        decreases hi - i,
    {
        r.push(v[i]);
        proof {
            assert(v@.subrange(lo as int, i + 1) =~= v@.subrange(lo as int, i as int).push(v@[i as int]));
        }
        i = i + 1;
    }
    r
}


/// `a == b`.
pub fn eq_vec(a: &Vec<char>, b: &Vec<char>) -> (r: bool)
    ensures
        r == (a@ == b@),
{
    if a.len() != b.len() {
        return false;
    }
    let mut i: usize = 0;
    while i < a.len()
        invariant
            a.len() == b.len(),
            i <= a.len(),
            forall|j: int| 0 <= j < i ==> a@[j] == b@[j],
        decreases a.len() - i,
    {
        if a[i] != b[i] {
            return false;
        }
        i = i + 1;
    }
    proof {
        assert(a@ =~= b@);
    }
    true
}

/// Index of the first `c` in `v[lo..hi]` (relative to `v`), or `hi`.
pub fn find_in(v: &Vec<char>, lo: usize, hi: usize, c: char) -> (p: usize)
    requires
        lo <= hi <= v.len(),
    ensures
        lo <= p <= hi,
        p - lo == find(v@.subrange(lo as int, hi as int), c),
{
    let mut p = lo;
    while p < hi && v[p] != c
        invariant
            lo <= p <= hi <= v.len(),
            forall|j: int| lo <= j < p ==> v@[j] != c,
        decreases hi - p,
    {
        p = p + 1;
    }
    proof {
        let s = v@.subrange(lo as int, hi as int);
        assert forall|j: int| 0 <= j < p - lo implies s[j] != c by {
            assert(s[j] == v@[lo + j]);
        }
        lemma_find_at(s, c, p - lo);
    }
    p
}


/// Bounds `(a, b)` with `v[a..b]` the first run of digits of `v` (see [`digit_run`]).
pub fn digit_run_range(v: &Vec<char>) -> (r: (usize, usize))
    ensures
        r.0 <= r.1 <= v.len(),
        v@.subrange(r.0 as int, r.1 as int) == digit_run(v@),
        forall|k: int| r.0 <= k < r.1 ==> is_ascii_digit(#[trigger] v@[k]),
{
    let n = v.len();
    let mut a: usize = 0;
    proof {
        assert(v@.subrange(0, n as int) =~= v@);
    }
    while a < n && !is_digit_exec(v[a])
        invariant
            a <= n == v.len(),
            lead_nondigits(v@) == a + lead_nondigits(v@.subrange(a as int, n as int)),
        decreases n - a,
    {
        proof {
            assert(v@.subrange(a as int, n as int).drop_first() =~= v@.subrange(a + 1, n as int));
        }
        a = a + 1;
    }
    let ghost t = v@.subrange(a as int, n as int);
    proof {
        assert(v@.skip(lead_nondigits(v@) as int) =~= t);
    }
    let mut b = a;
    while b < n && is_digit_exec(v[b])
        invariant
            a <= b <= n == v.len(),
            t == v@.subrange(a as int, n as int),
            lead_digits(t) == (b - a) + lead_digits(v@.subrange(b as int, n as int)),
            forall|k: int| a <= k < b ==> is_ascii_digit(#[trigger] v@[k]),
        decreases n - b,
    {
        proof {
            assert(v@.subrange(b as int, n as int).drop_first() =~= v@.subrange(b + 1, n as int));
        }
        b = b + 1;
    }
    proof {
        assert(t.take(lead_digits(t) as int) =~= v@.subrange(a as int, b as int));
    }
    (a, b)
}

/// The value of the digits `v[a..b]`, or `None` when it exceeds `u32::MAX`.
pub fn digits_value_u32(v: &Vec<char>, a: usize, b: usize) -> (r: Option<u32>)
    requires
        a <= b <= v.len(),
        forall|k: int| a <= k < b ==> is_ascii_digit(#[trigger] v@[k]),
    ensures
        match r {
            Some(x) => x == decimal_value(v@.subrange(a as int, b as int)),
            None => decimal_value(v@.subrange(a as int, b as int)) > u32::MAX,
        },
{
    let mut val: u64 = 0;
    let mut over = false;
    let mut k = a;
    while k < b
        invariant
            a <= k <= b <= v.len(),
            forall|j: int| a <= j < b ==> is_ascii_digit(#[trigger] v@[j]),
            val <= u32::MAX,
            !over ==> val == decimal_value(v@.subrange(a as int, k as int)),
            over ==> decimal_value(v@.subrange(a as int, k as int)) > u32::MAX,
        decreases b - k,
    {
        let ghost prev = decimal_value(v@.subrange(a as int, k as int));
        proof {
            let s = v@.subrange(a as int, k + 1);
            assert(s.drop_last() =~= v@.subrange(a as int, k as int));
            assert(s.last() == v@[k as int]);
            assert(is_ascii_digit(v@[k as int]));
        }
        let d: u64 = ((v[k] as u32) - 48) as u64;
        if !over {
            let next = val * 10 + d;
            if next > 4294967295 {
                over = true;
                val = 0;
            } else {
                val = next;
            }
        } else {
            proof {
                let nv = decimal_value(v@.subrange(a as int, k + 1));
                assert(nv == prev * 10 + d);
                assert(prev * 10 + d >= prev) by (nonlinear_arith)
                    requires
                        prev >= 0,
                        d >= 0,
                ;
            }
        }
        k = k + 1;
    }
    if over {
        None
    } else {
        Some(val as u32)
    }
}


/// A prefix of a digit sequence has at most the value of the whole.
pub proof fn lemma_decimal_prefix(ds: Seq<char>, k: int)
    requires
        0 <= k <= ds.len(),
        forall|j: int| 0 <= j < ds.len() ==> is_ascii_digit(#[trigger] ds[j]),
    ensures
        decimal_value(ds.take(k)) <= decimal_value(ds),
    decreases ds.len() - k,
{
    if k < ds.len() {
        let t = ds.take(k + 1);
        assert(t.drop_last() =~= ds.take(k));
        assert(is_ascii_digit(t.last()));
        let a = decimal_value(ds.take(k));
        let d = ((t.last() as u32) - ('0' as u32)) as nat;
        assert(a * 10 + d >= a) by (nonlinear_arith)
            requires
                a >= 0,
                d >= 0,
        ;
        lemma_decimal_prefix(ds, k + 1);
    } else {
        assert(ds.take(k) =~= ds);
    }
}

/// The value of the digits `v[a..b]` as a `usize`; `None` when it does not
/// fit.
pub fn digits_value_usize(v: &Vec<char>, a: usize, b: usize) -> (r: Option<usize>)
    requires
        a <= b <= v.len(),
        forall|k: int| a <= k < b ==> is_ascii_digit(#[trigger] v@[k]),
    ensures
        match r {
            Some(x) => x == decimal_value(v@.subrange(a as int, b as int)),
            None => decimal_value(v@.subrange(a as int, b as int)) > usize::MAX,
        },
{
    let ghost all = v@.subrange(a as int, b as int);
    let mut val: usize = 0;
    let mut k = a;
    while k < b
        invariant
            a <= k <= b <= v.len(),
            all == v@.subrange(a as int, b as int),
            forall|j: int| a <= j < b ==> is_ascii_digit(#[trigger] v@[j]),
            val == decimal_value(v@.subrange(a as int, k as int)),
        decreases b - k,
    {
        let ghost s = v@.subrange(a as int, k + 1);
        proof {
            assert(s.drop_last() =~= v@.subrange(a as int, k as int));
            assert(s.last() == v@[k as int]);
            assert(is_ascii_digit(v@[k as int]));
            assert(s =~= all.take(k + 1 - a));
            assert forall|j: int| 0 <= j < all.len() implies is_ascii_digit(#[trigger] all[j]) by {
                assert(all[j] == v@[a + j]);
            }
            lemma_decimal_prefix(all, k + 1 - a);
        }
        let d: usize = ((v[k] as u32) - 48) as usize;
        match val.checked_mul(10) {
            Some(x) => match x.checked_add(d) {
                Some(y) => {
                    val = y;
                },
                None => {
                    return None;
                },
            },
            None => {
                proof {
                    assert(decimal_value(s) == val * 10 + d);
                }
                return None;
            },
        }
        k = k + 1;
    }
    Some(val)
}

/// Inserts `x` into the strictly sorted `v`, unless it is already there.
pub fn insert_sorted(v: &mut Vec<Vec<char>>, x: Vec<char>)
    requires
        strictly_sorted(seqs_of(old(v)@)),
    ensures
        strictly_sorted(seqs_of(final(v)@)),
        seqs_of(final(v)@).to_set() == seqs_of(old(v)@).to_set().insert(x@),
{
    let ghost s0 = seqs_of(v@);
    let mut i: usize = 0;
    while i < v.len() && lex_less(&v[i], &x)
        invariant
            i <= v.len(),
            s0 == seqs_of(v@),
            strictly_sorted(s0),
            forall|j: int| 0 <= j < i ==> lex_lt(#[trigger] s0[j], x@),
        decreases v.len() - i,
    {
        i = i + 1;
    }
    if i < v.len() && eq_vec(&v[i], &x) {
        proof {
            assert(s0[i as int] == x@);
            assert(s0.to_set().insert(x@) =~= s0.to_set());
        }
        return;
    }
    proof {
        if i < v.len() {
            assert(!lex_lt(s0[i as int], x@));
            assert(s0[i as int] != x@);
            lemma_lex_total(s0[i as int], x@);
            assert(lex_lt(x@, s0[i as int]));
        }
    }
    let ghost xv = x@;
    v.insert(i, x);
    proof {
        let s1 = seqs_of(v@);
        assert(s1 =~= s0.insert(i as int, xv));
        assert forall|a: int, b: int| 0 <= a < b < s1.len() implies lex_lt(#[trigger] s1[a], #[trigger] s1[b]) by {
            if b < i {
                assert(s1[a] == s0[a] && s1[b] == s0[b]);
            } else if b == i {
                assert(s1[a] == s0[a]);
            } else if a < i {
                assert(s1[a] == s0[a] && s1[b] == s0[b - 1]);
                assert(lex_lt(s0[a], xv));
                lemma_lex_trans(s0[a], xv, s0[i as int]);
                if b - 1 > i {
                    lemma_lex_trans(s0[a], s0[i as int], s0[b - 1]);
                }
            } else if a == i {
                assert(s1[b] == s0[b - 1]);
                if b - 1 > i {
                    lemma_lex_trans(xv, s0[i as int], s0[b - 1]);
                }
            } else {
                assert(s1[a] == s0[a - 1] && s1[b] == s0[b - 1]);
            }
        }
        assert forall|y: Seq<char>| s1.to_set().contains(y) <==> s0.to_set().insert(xv).contains(y) by {
            if s1.to_set().contains(y) {
                let k = choose|k: int| 0 <= k < s1.len() && s1[k] == y;
                if k < i {
                    assert(s0[k] == y);
                } else if k > i {
                    assert(s0[k - 1] == y);
                }
            }
            if s0.to_set().contains(y) {
                let k = choose|k: int| 0 <= k < s0.len() && s0[k] == y;
                if k < i {
                    assert(s1[k] == y);
                } else {
                    assert(s1[k + 1] == y);
                }
            }
            if y == xv {
                assert(s1[i as int] == y);
            }
        }
        assert(s1.to_set() =~= s0.to_set().insert(xv));
    }
}


/// The strings of `ts` joined by `sep`.
pub fn join_strings(ts: &Vec<String>, sep: &str) -> (s: String)
    ensures
        s@ == join(ts@.map_values(|t: String| t@), sep@),
{
    let ghost all = ts@.map_values(|t: String| t@);
    let mut s = String::new();
    let mut i: usize = 0;
    while i < ts.len()
        invariant
            i <= ts.len(),
            all == ts@.map_values(|t: String| t@),
            s@ == join(all.take(i as int), sep@),
        decreases ts.len() - i,
    {
        proof {
            let d = all.take(i + 1);
            assert(d.drop_last() =~= all.take(i as int));
            assert(d.last() == ts@[i as int]@);
        }
        if i > 0 {
            push_str(&mut s, sep);
        }
        push_str(&mut s, ts[i].as_str());
        proof {
            let d = all.take(i + 1);
            if i == 0 {
                assert(s@ =~= join(d, sep@));
            } else {
                assert(s@ =~= join(d.drop_last(), sep@) + sep@ + d.last());
            }
        }
        i = i + 1;
    }
    proof {
        assert(all.take(ts.len() as int) =~= all);
    }
    s
}

} // verus!
