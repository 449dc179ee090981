//! The personal norm quintuple `n = <c, u, α, s_act, s_val>`.
//!
//! Norms identified while spreading are stored unqualified (`s_act` and
//! `s_val` false) and become qualified only after passing evaluation.
use vstd::prelude::*;

use crate::text::{chars_of, contains, contains_lit, lower, lower_vec, string_chars, trim, trim_range};

verus! {

/// The type α of a norm (focus theory): descriptive or injunctive.
#[derive(Clone, Copy, Debug, PartialEq, Eq, Structural)]
pub enum NormType {
    /// An observed regularity ("people tip the waiter").
    Descriptive,
    /// A rule carrying approval or disapproval ("one should not smoke indoors").
    Injunctive,
}

/// Whether a lowercased, trimmed type name reads as injunctive.
pub open spec fn reads_injunctive(l: Seq<char>) -> bool {
    contains(l, "inj"@) || contains(l, "should"@) || contains(l, "ought"@)
}

impl NormType {
    /// The stable label of the type.
    pub open spec fn label_view(self) -> Seq<char> {
        match self {
            NormType::Descriptive => "des"@,
            NormType::Injunctive => "inj"@,
        }
    }

    /// The type read loosely from free text.
    pub open spec fn loose_view(s: Seq<char>) -> NormType {
        if reads_injunctive(lower(trim(s))) {
            NormType::Injunctive
        } else {
            NormType::Descriptive
        }
    }

    /// Stable label for output and cache keys ("des" / "inj").
    pub fn label(&self) -> (r: &'static str)
        ensures
            r@ == self.label_view(),
    {
        match self {
            NormType::Descriptive => "des",
            NormType::Injunctive => "inj",
        }
    }

    /// Reads the type from model output: injunctive when the trimmed,
    /// lowercased text contains "inj", "should" or "ought", descriptive
    /// otherwise.
    pub fn parse_loose(s: &str) -> (r: NormType)
        ensures
            r == NormType::loose_view(s@),
    {
        let v = chars_of(s);
        let (a, b) = trim_range(&v, 0, v.len());
        let l = lower_vec(&string_chars(&v, a, b));
        proof {
            assert(v@.subrange(0, v.len() as int) =~= v@);
        }
        if contains_lit(&l, "inj") || contains_lit(&l, "should") || contains_lit(&l, "ought") {
            NormType::Injunctive
        } else {
            NormType::Descriptive
        }
    }
}

/// `u.clamp(1, 100)`.
pub open spec fn clamp_utility(u: u8) -> u8 {
    if u < 1 {
        1
    } else if u > 100 {
        100
    } else {
        u
    }
}

/// A personal norm `<c, u, α, s_act, s_val>`.
#[derive(Clone, Debug, PartialEq, Eq)]
pub struct PersonalNorm {
    /// c: natural-language description ("no smoking indoors").
    pub content: String,
    /// u: utility in `[1, 100]`.
    pub utility: u8,
    /// α: descriptive or injunctive.
    pub alpha: NormType,
    /// s_act: active.
    pub s_act: bool,
    /// s_val: valid.
    pub s_val: bool,
}

impl PersonalNorm {
    /// Qualified = active and valid.
    pub open spec fn is_qualified(self) -> bool {
        self.s_act && self.s_val
    }

    /// A new norm with explicit flags; the utility is clamped to `[1, 100]`.
    pub fn new(content: &str, utility: u8, alpha: NormType, s_act: bool, s_val: bool) -> (r: Self)
        ensures
            r.content@ == content@,
            r.utility == clamp_utility(utility),
            r.alpha == alpha,
            r.s_act == s_act,
            r.s_val == s_val,
    {
        let u = if utility < 1 {
            1
        } else if utility > 100 {
            100
        } else {
            utility
        };
        PersonalNorm { content: content.to_owned(), utility: u, alpha, s_act, s_val }
    }

    /// The initial norm an entrepreneur creates: qualified at once.
    pub fn created(content: &str, utility: u8, alpha: NormType) -> (r: Self)
        ensures
            r.content@ == content@,
            r.utility == clamp_utility(utility),
            r.alpha == alpha,
            r.s_act && r.s_val,
    {
        Self::new(content, utility, alpha, true, true)
    }

    /// A norm identified while spreading: unqualified, awaiting evaluation.
    pub fn identified(content: &str, utility: u8, alpha: NormType) -> (r: Self)
        ensures
            r.content@ == content@,
            r.utility == clamp_utility(utility),
            r.alpha == alpha,
            !r.s_act && !r.s_val,
    {
        Self::new(content, utility, alpha, false, false)
    }

    /// Qualified = `s_act && s_val`; emergence is measured on this set.
    pub fn qualified(&self) -> (r: bool)
        ensures
            r == self.is_qualified(),
    {
        self.s_act && self.s_val
    }

    /// Passes evaluation: becomes active and valid.
    pub fn promote(&mut self)
        ensures
            final(self).s_act && final(self).s_val,
            final(self).content == old(self).content,
            final(self).utility == old(self).utility,
            final(self).alpha == old(self).alpha,
    {
        self.s_act = true;
        self.s_val = true;
    }

    /// Absorbed into an abstract norm by long-term synthesis: inactive.
    pub fn deactivate(&mut self)
        ensures
            !final(self).s_act,
            final(self).s_val == old(self).s_val,
            final(self).content == old(self).content,
            final(self).utility == old(self).utility,
            final(self).alpha == old(self).alpha,
    {
        self.s_act = false;
    }

    /// A copy of this norm.
    pub fn duplicate(&self) -> (r: Self)
        ensures
            r == *self,
    {
        PersonalNorm {
            content: self.content.clone(),
            utility: self.utility,
            alpha: self.alpha,
            s_act: self.s_act,
            s_val: self.s_val,
        }
    }
}

} // verus!
