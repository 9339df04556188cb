//! Verified combinatorial core of an optimal-transport toolkit: the orderings,
//! index selections, table shapes and iteration schedules on which the
//! Sinkhorn, Wasserstein, barycenter and JKO computations are built.

pub mod iteration;
pub mod layout;
pub mod ordering;
pub mod scan;
