use vstd::prelude::*;

verus! {

/// The phases of a Tendermint round.
#[derive(Clone, Copy, Debug, PartialEq, Eq, Structural)]
pub enum Step {
    Propose,
    Prevote,
    Precommit,
}

/// The state of a Tendermint instance: the current round and step, and the
/// values locked and seen valid, with their rounds.
pub struct TendermintState<ProposalTy> {
    pub round: u32,
    pub step: Step,
    pub locked_value: Option<ProposalTy>,
    pub locked_round: Option<u32>,
    pub valid_value: Option<ProposalTy>,
    pub valid_round: Option<u32>,
}

impl<ProposalTy> TendermintState<ProposalTy> {
    /// The state before anything happened: round zero, proposing, nothing
    /// locked and nothing valid.
    pub open spec fn is_initial(&self) -> bool {
        &&& self.round == 0
        &&& self.step == Step::Propose
        &&& self.locked_value is None
        &&& self.locked_round is None
        &&& self.valid_value is None
        &&& self.valid_round is None
    }

    pub fn new() -> (r: Self)
        ensures
            r.is_initial(),
    {
        TendermintState {
            round: 0,
            step: Step::Propose,
            locked_value: None,
            locked_round: None,
            valid_value: None,
            valid_round: None,
        }
    }
}

/// A Tendermint state machine: the services it relies on and its state.
pub struct Tendermint<ProposalTy, DepsTy> {
    pub deps: DepsTy,
    pub state: TendermintState<ProposalTy>,
}

impl<ProposalTy, DepsTy> Tendermint<ProposalTy, DepsTy> {
    /// A state machine over `deps` in the initial state.
    pub fn new(deps: DepsTy) -> (r: Self)
        ensures
            r.deps == deps,
            r.state.is_initial(),
    {
        Tendermint { deps, state: TendermintState::new() }
    }
}

} // verus!
