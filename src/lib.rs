pub mod algos;
pub mod bits;
pub mod cache;
pub mod enumerate;
pub mod helper;
pub mod invariants;
pub mod tedges;
pub mod tgraph;
