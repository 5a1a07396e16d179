//! Greedy synthesis of Pauli networks.
//!
//! A sequence of Pauli operators, the generators of multi-qubit rotations, is
//! turned into a circuit of Clifford gates that makes every operator trivial
//! at some point, with few entangling gates or few layers of them.
//!
//! - [`symplectic`] is the mathematical model: signed Pauli strings and what
//!   the Clifford gates do to them.
//! - [`pauli_set`] is the bit-packed container of operators, conjugated as a
//!   whole by each gate; [`pauli_like`] is what can be conjugated so.
//! - [`clifford_circuit`] and [`metric`] are the gates, the circuits and their
//!   cost.
//! - [`chunks`] and [`moves`] are the local moves and their gain;
//!   [`greedy_pauli_network`] is one step of the search under the count or the
//!   depth policy, the latter with the matchings of [`matching`].
//! - [`pauli_dag`] is the graph of the commutation dependencies.
//! - [`synthesis`] and [`greedy_order_preserving`] are the two methods of
//!   synthesis, and [`shuffle`] the random relabelings of the qubits that
//!   [`synthesis::greedy_pauli_network`] may try.

pub mod bits;
pub mod chunks;
pub mod clifford_circuit;
pub mod greedy_order_preserving;
pub mod greedy_pauli_network;
pub mod matching;
pub mod metric;
pub mod moves;
pub mod pauli;
pub mod pauli_dag;
pub mod pauli_like;
pub mod pauli_set;
pub mod random;
pub mod shuffle;
pub mod sorting;
pub mod symplectic;
pub mod synthesis;
