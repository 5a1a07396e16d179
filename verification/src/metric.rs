//! The quantity that a synthesis minimises.

use crate::clifford_circuit::{
    depth_below, spec_entangling_count, CliffordCircuit, CliffordGate,
};
use vstd::prelude::*;
use vstd::string::StringExecFns;

verus! {

/// The cost of a circuit: its number of two-qubit gates, or its number of
/// layers of two-qubit gates.
#[derive(Debug, Clone, Copy, PartialEq, Eq, Structural)]
pub enum Metric {
    COUNT,
    DEPTH,
}

/// The name of the count metric.
pub open spec fn count_name() -> Seq<char> {
    seq!['c', 'o', 'u', 'n', 't']
}

/// The name of the depth metric.
pub open spec fn depth_name() -> Seq<char> {
    seq!['d', 'e', 'p', 't', 'h']
}

/// The message that reports `name` as the name of no metric.
pub open spec fn unknown_metric_message(name: Seq<char>) -> Seq<char> {
    "Unknown metric name `"@ + name + "`"@
}

/// Tells whether two strings hold the same characters.
pub fn same_text(a: &str, b: &str) -> (r: bool)
    ensures
        r == (a@ == b@),
{
    let len = a.unicode_len();
    if len != b.unicode_len() {
        return false;
    }
    let mut k: usize = 0;
    while k < len
        invariant
            k <= len,
            len == a@.len(),
            len == b@.len(),
            forall|j: int| 0 <= j < k ==> a@[j] == b@[j],
        decreases len - k,
    {
        if a.get_char(k) != b.get_char(k) {
            return false;
        }
        k += 1;
    }
    assert(a@ =~= b@);
    true
}

impl Metric {
    /// The cost of `gates` on `nqbits` qubits under this metric.
    pub open spec fn spec_on(self, gates: Seq<CliffordGate>, nqbits: nat) -> nat {
        match self {
            Metric::DEPTH => depth_below(gates, true, nqbits),
            Metric::COUNT => spec_entangling_count(gates),
        }
    }

    /// Attempts to build a metric from its name, `depth` or `count`.
    pub fn from_string(name: &str) -> (r: Result<Self, String>)
        ensures
            name@ == depth_name() ==> r == Ok::<Metric, String>(Metric::DEPTH),
            name@ == count_name() ==> r == Ok::<Metric, String>(Metric::COUNT),
            name@ != depth_name() && name@ != count_name() ==> r is Err && r->Err_0@
                == unknown_metric_message(name@),
    {
        proof {
            reveal_strlit("depth");
            reveal_strlit("count");
            assert("depth"@ =~= depth_name());
            assert("count"@ =~= count_name());
            assert(!(depth_name() =~= count_name())) by {
                assert(depth_name()[0] != count_name()[0]);
            }
        }
        if same_text(name, "depth") {
            Ok(Self::DEPTH)
        } else if same_text(name, "count") {
            Ok(Self::COUNT)
        } else {
            let mut message = String::from_str("Unknown metric name `");
            message.append(name);
            message.append("`");
            Err(message)
        }
    }

    /// The cost of a circuit under this metric.
    pub fn on_circuit(&self, circuit: &CliffordCircuit) -> (r: usize)
        requires
            circuit.wf(),
        ensures
            r == self.spec_on(circuit@, circuit.nqbits as nat),
    {
        match self {
            Self::DEPTH => circuit.entangling_depth(),
            Self::COUNT => circuit.entangling_count(),
        }
    }
}

} // verus!
