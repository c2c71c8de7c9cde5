pub mod ballot_parsing;
pub mod condorcet_voting;
pub mod matrix;
pub mod quadratic_voting;
pub mod schulze_paths;
