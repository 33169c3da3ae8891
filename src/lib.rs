/// The commutator, anticommutator and double commutator layouts, and the laws they obey.
pub mod commutators;
/// Status codes for a foreign-call boundary.
pub mod exit_codes;
/// Fermionic actions: adjoint and particle-number conservation.
pub mod fermion;
/// Normal ordering of fermionic terms under the anticommutation relations.
pub mod fermion_order;
/// Counting inversions, the sign of sorting by exchanges of neighbours.
pub mod inversions;
/// Index unpacking for symmetric integral arrays, and one- and two-body terms.
pub mod integrals;
/// The Pauli strings of the Jordan-Wigner map.
pub mod jordan_wigner;
/// Majorana terms: sorting with sign, pair reduction, normal ordering, adjoint and parity.
pub mod majorana;
/// The linear maps between fermionic and Majorana operators.
pub mod mappings;
/// Grouping of equal terms, the structural half of merging duplicates.
pub mod simplify;
/// The compressed-sparse-row term layout shared by both operator kinds.
pub mod terms;
