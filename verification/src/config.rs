//! Labels and parsers of the run configuration: the social-network topology
//! and the canonical-norm identity mode.
use vstd::prelude::*;

use crate::text::{
    chars_of, eq_lit, is_ascii_upper, is_whitespace, lead_ws, lower, lower_vec, push_str, string_chars, trail_ws,
    trim, trim_range,
};

verus! {

/// Topology of the social network along which agents talk and observe.
#[derive(Debug, Clone, Copy, PartialEq, Eq, Structural)]
pub enum Network {
    /// Watts–Strogatz small world (default).
    WattsStrogatz,
    /// Erdős–Rényi random graph.
    ErdosRenyi,
    /// Barabási–Albert scale-free graph.
    BarabasiAlbert,
}

impl Network {
    /// The stable label of the topology.
    pub open spec fn label_view(self) -> Seq<char> {
        match self {
            Network::WattsStrogatz => "ws"@,
            Network::ErdosRenyi => "er"@,
            Network::BarabasiAlbert => "ba"@,
        }
    }

    /// Stable label for output and cache keys.
    pub fn label(&self) -> (r: &'static str)
        ensures
            r@ == self.label_view(),
    {
        match self {
            Network::WattsStrogatz => "ws",
            Network::ErdosRenyi => "er",
            Network::BarabasiAlbert => "ba",
        }
    }
}

/// The topology named by an already trimmed, lowercased name.
pub open spec fn network_named(name: Seq<char>) -> Option<Network> {
    if name == "ws"@ || name == "watts_strogatz"@ || name == "watts-strogatz"@ || name
        == "smallworld"@ {
        Some(Network::WattsStrogatz)
    } else if name == "er"@ || name == "erdos_renyi"@ || name == "erdos-renyi"@ || name
        == "random"@ {
        Some(Network::ErdosRenyi)
    } else if name == "ba"@ || name == "barabasi_albert"@ || name == "barabasi-albert"@ || name
        == "scalefree"@ {
        Some(Network::BarabasiAlbert)
    } else {
        None
    }
}

/// The error message for an unknown topology name.
pub open spec fn network_error(s: Seq<char>) -> Seq<char> {
    "不正なネットワーク: \""@ + s + "\" (ws / er / ba のいずれか)"@
}

/// Parses a [`Network`] from its name, ignoring surrounding whitespace and
/// ASCII case.
pub fn parse_network(s: &str) -> (r: Result<Network, String>)
    ensures
        match network_named(lower(trim(s@))) {
            Some(n) => r == Ok::<Network, String>(n),
            None => r is Err && r->Err_0@ == network_error(s@),
        },
{
    let v = chars_of(s);
    let (a, b) = trim_range(&v, 0, v.len());
    let name = lower_vec(&string_chars(&v, a, b));
    proof {
        assert(v@.subrange(0, v.len() as int) =~= v@);
    }
    if eq_lit(&name, "ws") || eq_lit(&name, "watts_strogatz") || eq_lit(&name, "watts-strogatz")
        || eq_lit(&name, "smallworld") {
        Ok(Network::WattsStrogatz)
    } else if eq_lit(&name, "er") || eq_lit(&name, "erdos_renyi") || eq_lit(&name, "erdos-renyi")
        || eq_lit(&name, "random") {
        Ok(Network::ErdosRenyi)
    } else if eq_lit(&name, "ba") || eq_lit(&name, "barabasi_albert") || eq_lit(
        &name,
        "barabasi-albert",
    ) || eq_lit(&name, "scalefree") {
        Ok(Network::BarabasiAlbert)
    } else {
        let mut msg = String::new();
        push_str(&mut msg, "不正なネットワーク: \"");
        push_str(&mut msg, s);
        push_str(&mut msg, "\" (ws / er / ba のいずれか)");
        Err(msg)
    }
}

/// How norm descriptions are bucketed into one canonical norm.
#[derive(Debug, Clone, Copy, PartialEq, Eq, Structural)]
pub enum CanonicalMode {
    /// Rule-based deterministic normalisation (default; no model calls).
    Deterministic,
    /// Semantic sameness judged by the language model (cached).
    Llm,
}

impl CanonicalMode {
    /// The stable label of the mode.
    pub open spec fn label_view(self) -> Seq<char> {
        match self {
            CanonicalMode::Deterministic => "deterministic"@,
            CanonicalMode::Llm => "llm"@,
        }
    }

    /// Stable label for output.
    pub fn label(&self) -> (r: &'static str)
        ensures
            r@ == self.label_view(),
    {
        match self {
            CanonicalMode::Deterministic => "deterministic",
            CanonicalMode::Llm => "llm",
        }
    }
}

/// The mode named by an already trimmed, lowercased name.
pub open spec fn canonical_mode_named(name: Seq<char>) -> Option<CanonicalMode> {
    if name == "deterministic"@ || name == "rule"@ || name == "rules"@ {
        Some(CanonicalMode::Deterministic)
    } else if name == "llm"@ {
        Some(CanonicalMode::Llm)
    } else {
        None
    }
}

/// The error message for an unknown mode name.
pub open spec fn canonical_mode_error(s: Seq<char>) -> Seq<char> {
    "不正な canonical-mode: \""@ + s + "\" (deterministic / llm)"@
}

/// Parses a [`CanonicalMode`] from its name, ignoring surrounding whitespace
/// and ASCII case.
pub fn parse_canonical_mode(s: &str) -> (r: Result<CanonicalMode, String>)
    ensures
        match canonical_mode_named(lower(trim(s@))) {
            Some(m) => r == Ok::<CanonicalMode, String>(m),
            None => r is Err && r->Err_0@ == canonical_mode_error(s@),
        },
{
    let v = chars_of(s);
    let (a, b) = trim_range(&v, 0, v.len());
    let name = lower_vec(&string_chars(&v, a, b));
    proof {
        assert(v@.subrange(0, v.len() as int) =~= v@);
    }
    if eq_lit(&name, "deterministic") || eq_lit(&name, "rule") || eq_lit(&name, "rules") {
        Ok(CanonicalMode::Deterministic)
    } else if eq_lit(&name, "llm") {
        Ok(CanonicalMode::Llm)
    } else {
        let mut msg = String::new();
        push_str(&mut msg, "不正な canonical-mode: \"");
        push_str(&mut msg, s);
        push_str(&mut msg, "\" (deterministic / llm)");
        Err(msg)
    }
}

/// A name without surrounding whitespace and without ASCII capitals reads as
/// itself.
proof fn lemma_plain_name(s: Seq<char>)
    requires
        s.len() > 0,
        !is_whitespace(s[0]),
        !is_whitespace(s.last()),
        forall|i: int| 0 <= i < s.len() ==> !is_ascii_upper(#[trigger] s[i]),
    ensures
        lower(trim(s)) == s,
{
    assert(lead_ws(s) == 0);
    assert(s.skip(0) =~= s);
    assert(trail_ws(s) == 0);
    assert(s.take(s.len() as int) =~= s);
    assert(lower(s) =~= s);
}

/// Every topology label parses back to its topology.
pub proof fn law_network_label_round_trip(n: Network)
    ensures
        network_named(lower(trim(n.label_view()))) == Some(n),
{
    reveal_strlit("ws");
    reveal_strlit("watts_strogatz");
    reveal_strlit("watts-strogatz");
    reveal_strlit("smallworld");
    reveal_strlit("er");
    reveal_strlit("erdos_renyi");
    reveal_strlit("erdos-renyi");
    reveal_strlit("random");
    reveal_strlit("ba");
    lemma_plain_name(n.label_view());
    match n {
        Network::WattsStrogatz => {},
        Network::ErdosRenyi => {
            assert("er"@ != "ws"@);
            assert("er"@ != "watts_strogatz"@);
            assert("er"@ != "watts-strogatz"@);
            assert("er"@ != "smallworld"@);
        },
        Network::BarabasiAlbert => {
            assert("ba"@ != "ws"@);
            assert("ba"@ != "watts_strogatz"@);
            assert("ba"@ != "watts-strogatz"@);
            assert("ba"@ != "smallworld"@);
            assert("ba"@ != "er"@);
            assert("ba"@ != "erdos_renyi"@);
            assert("ba"@ != "erdos-renyi"@);
            assert("ba"@ != "random"@);
        },
    }
}

/// Every canonical-mode label parses back to its mode.
pub proof fn law_canonical_mode_label_round_trip(m: CanonicalMode)
    ensures
        canonical_mode_named(lower(trim(m.label_view()))) == Some(m),
{
    reveal_strlit("deterministic");
    reveal_strlit("rule");
    reveal_strlit("rules");
    reveal_strlit("llm");
    lemma_plain_name(m.label_view());
    match m {
        CanonicalMode::Deterministic => {},
        CanonicalMode::Llm => {
            assert("llm"@ != "deterministic"@);
            assert("llm"@ != "rule"@);
            assert("llm"@ != "rules"@);
        },
    }
}

} // verus!
