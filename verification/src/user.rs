//! The user side of the protocol.

use crate::backend::LocalMultiSheBackend;
use crate::engine::{flatten, request_matches, roots_representable, user_state_matches, SmdsEngine};
use crate::types::{PbeRequest, UserDataset, UserState};
use vstd::prelude::*;

verus! {

/// A user of the protocol, with the engine it runs.
#[derive(Debug, Clone)]
pub struct UserClient<B = LocalMultiSheBackend> {
    pub user_id: usize,
    pub engine: SmdsEngine<B>,
}

/// The dataset as the only dataset of a list.
fn single_dataset(dataset: &UserDataset) -> (r: Vec<UserDataset>)
    ensures
        r@.len() == 1,
        r@[0].values@ == dataset.values@,
        flatten(r@) == dataset.values@,
{
    let values = dataset.values.clone();
    assert(values@ =~= dataset.values@);
    let mut r: Vec<UserDataset> = Vec::new();
    r.push(UserDataset { values });
    proof {
        assert(r@.drop_last() =~= Seq::<UserDataset>::empty());
        assert(flatten(r@.drop_last()) =~= Seq::<u64>::empty());
        assert(flatten(r@) =~= dataset.values@);
    }
    r
}

impl<B> UserClient<B> {
    /// A client for user `user_id`.
    pub fn new(user_id: usize, engine: SmdsEngine<B>) -> (c: Self)
        ensures
            c.user_id == user_id,
            c.engine.params == engine.params,
    {
        UserClient { user_id, engine }
    }

    /// The offline state of this dataset, computed as for the only user
    /// (user 0) of a one-dataset offline phase.
    pub fn prepare_state(&self, dataset: &UserDataset, seed: u64) -> (st: UserState)
        requires
            roots_representable(dataset.values@),
            dataset.values@.len() + 2 <= usize::MAX,
        ensures
            user_state_matches(st, *dataset, 0, seed),
    {
        let datasets = single_dataset(dataset);
        let out = self.engine.build_offline_bootstrap(&datasets, seed);
        let mut states = out.user_states;
        assert(user_state_matches(states@[0], datasets@[0], 0, seed));
        states.remove(0)
    }

    /// The request of this dataset, computed as for the only user (user 0)
    /// of a one-dataset list.
    pub fn build_request(&self, dataset: &UserDataset, seed: u64) -> (req: PbeRequest)
        ensures
            request_matches(req, *dataset, 0, seed),
    {
        let datasets = single_dataset(dataset);
        let mut requests = self.engine.build_pbe_requests(&datasets, seed);
        assert(request_matches(requests@[0], datasets@[0], 0, seed));
        requests.remove(0)
    }
}

} // verus!
