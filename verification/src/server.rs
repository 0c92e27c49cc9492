//! The server side of the protocol.

use crate::backend::LocalMultiSheBackend;
use crate::engine::{flatten, plain_dedup_rank, rank_table, table_view, SmdsEngine};
use crate::order::is_sorted;
use crate::types::{ServerStageState, UserDataset};
use vstd::prelude::*;

verus! {

/// Coordinates the server's work on the users' datasets.
#[derive(Debug, Clone)]
pub struct ServerCoordinator<B = LocalMultiSheBackend> {
    pub engine: SmdsEngine<B>,
}

impl<B> ServerCoordinator<B> {
    /// A coordinator driving `engine`.
    pub fn new(engine: SmdsEngine<B>) -> (c: Self)
        ensures
            c.engine.params == engine.params,
    {
        ServerCoordinator { engine }
    }

    /// The server stage: all values in ascending order and the reference
    /// ranks.
    pub fn stage(&self, datasets: &[UserDataset]) -> (st: ServerStageState)
        ensures
            is_sorted(st.sorted_values@),
            st.sorted_values@.to_multiset() == flatten(datasets@).to_multiset(),
            table_view(st.dedup_ranks@) == rank_table(datasets@),
    {
        self.engine.server_stage(datasets)
    }

    /// The reference ranks of the datasets.
    pub fn reference_ranks(&self, datasets: &[UserDataset]) -> (r: Vec<Vec<u64>>)
        ensures
            table_view(r@) == rank_table(datasets@),
    {
        plain_dedup_rank(datasets)
    }
}

} // verus!
