use vstd::prelude::*;

use crate::block::{meets_target, mine_outcome, same_transaction, with_nonce, Block};

verus! {

/// How many nonces the worker tries between two looks at the miner's state.
pub const MINING_STEPS: usize = 2_000_000;

/// What the miner knows: whether its worker should be mining, and the template it mines.
pub struct MinerState {
    pub mining: bool,
    pub current_template: Option<Block>,
}

/// What happens to the miner.
pub enum MinerEvent {
    /// The periodic tick.
    Tick,
    /// The node answered a template request.
    Template(Block),
    /// The node answered whether the current template is still valid.
    TemplateValidity(bool),
    /// The worker found a block.
    Mined(Block),
}

/// What the miner asks of its connection to the node.
pub enum MinerAction {
    FetchTemplate,
    ValidateTemplate(Block),
    SubmitBlock(Block),
    Wait,
}

impl MinerState {
    pub fn new() -> (r: MinerState)
        ensures
            !r.mining,
            r.current_template is None,
    {
        MinerState { mining: false, current_template: None }
    }

    /// Decides what to do on an event. On a tick an idle miner asks for a template and a busy
    /// one asks whether its template still holds; a template starts the mining; a template
    /// found stale stops it, so that the next tick fetches a new one; a mined block is
    /// submitted and the mining stops.
    pub fn step(&mut self, event: MinerEvent) -> (r: MinerAction)
        ensures
            match event {
                MinerEvent::Tick => {
                    &&& final(self).mining == old(self).mining
                    &&& final(self).current_template == old(self).current_template
                    &&& if !old(self).mining {
                        r is FetchTemplate
                    } else {
                        match old(self).current_template {
                            Some(t) => r matches MinerAction::ValidateTemplate(v) && v.header
                                == t.header && v.transactions@.len() == t.transactions@.len() && (
                            forall|i: int|
                                0 <= i < v.transactions@.len() ==> same_transaction(
                                    #[trigger] v.transactions@[i],
                                    t.transactions@[i],
                                )),
                            None => r is Wait,
                        }
                    }
                },
                MinerEvent::Template(b) => {
                    &&& final(self).mining
                    &&& final(self).current_template == Some(b)
                    &&& r is Wait
                },
                MinerEvent::TemplateValidity(valid) => {
                    &&& final(self).mining == (old(self).mining && valid)
                    &&& final(self).current_template == old(self).current_template
                    &&& r is Wait
                },
                MinerEvent::Mined(b) => {
                    &&& !final(self).mining
                    &&& final(self).current_template == old(self).current_template
                    &&& r == MinerAction::SubmitBlock(b)
                },
            },
    {
        match event {
            MinerEvent::Tick => {
                if !self.mining {
                    MinerAction::FetchTemplate
                } else {
                    match &self.current_template {
                        Some(t) => MinerAction::ValidateTemplate(t.clone()),
                        None => MinerAction::Wait,
                    }
                }
            },
            MinerEvent::Template(b) => {
                self.current_template = Some(b);
                self.mining = true;
                MinerAction::Wait
            },
            MinerEvent::TemplateValidity(valid) => {
                if !valid {
                    self.mining = false;
                }
                MinerAction::Wait
            },
            MinerEvent::Mined(b) => {
                self.mining = false;
                MinerAction::SubmitBlock(b)
            },
        }
    }
}

/// One round of the worker: mines a copy of the template for at most `steps` nonces and
/// returns it if it meets its target.
pub fn mine_round(template: &Block, steps: usize) -> (r: Option<Block>)
    ensures
        match r {
            Some(b) => {
                &&& meets_target(b.header)
                &&& b.header.prev_block_hash == template.header.prev_block_hash
                &&& b.header.merkle_root == template.header.merkle_root
                &&& b.header.target == template.header.target
                &&& b.transactions@.len() == template.transactions@.len()
                &&& forall|i: int|
                    0 <= i < b.transactions@.len() ==> same_transaction(
                        #[trigger] b.transactions@[i],
                        template.transactions@[i],
                    )
            },
            None => true,
        },
        template.header.nonce + steps <= u64::MAX ==> match r {
            Some(b) => {
                &&& b.header == with_nonce(template.header, b.header.nonce)
                &&& template.header.nonce <= b.header.nonce <= template.header.nonce + steps
                &&& forall|n: u64|
                    template.header.nonce <= n < b.header.nonce ==> !meets_target(
                        #[trigger] with_nonce(template.header, n),
                    )
            },
            None => forall|n: u64|
                template.header.nonce <= n <= template.header.nonce + steps ==> !meets_target(
                    #[trigger] with_nonce(template.header, n),
                ),
        },
        template.header.nonce + steps > u64::MAX && r is None ==> forall|n: u64|
            template.header.nonce <= n ==> !meets_target(#[trigger] with_nonce(template.header, n)),
{
    let mut block = template.clone();
    let ghost start = block.header;
    if block.header.mine(steps) {
        proof {
            if start.nonce + steps <= u64::MAX {
                assert(block.header == with_nonce(start, block.header.nonce));
            }
        }
        Some(block)
    } else {
        proof {
            assert(mine_outcome(start, block.header, steps as int, false));
            if start.nonce + steps <= u64::MAX {
                assert(block.header == with_nonce(start, block.header.nonce));
            }
        }
        None
    }
}

} // verus!
