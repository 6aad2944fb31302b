use vstd::prelude::*;

verus! {

/// Whether this node holds a live connection to a peer.
#[derive(Debug, Clone, Copy, PartialEq, Eq, Structural)]
pub enum LinkState {
    Disconnected,
    Connected,
}

/// What a health check does for one peer.
#[derive(Debug, Clone, Copy, PartialEq, Eq, Structural)]
pub enum CheckAction {
    /// No connection: make one.
    Connect,
    /// A connection: ping through it.
    Ping,
}

/// The step of a health check for a peer in `state`.
pub fn check_action(state: LinkState) -> (r: CheckAction)
    ensures
        state == LinkState::Disconnected ==> r == CheckAction::Connect,
        state == LinkState::Connected ==> r == CheckAction::Ping,
{
    match state {
        LinkState::Disconnected => CheckAction::Connect,
        LinkState::Connected => CheckAction::Ping,
    }
}

/// The state after the check step: a connection made or a ping answered
/// leaves the peer connected; a failed ping clears the connection; a failed
/// connect leaves it disconnected.
pub fn after_check(state: LinkState, succeeded: bool) -> (r: LinkState)
    ensures
        r == (if succeeded {
            LinkState::Connected
        } else {
            LinkState::Disconnected
        }),
{
    match (state, succeeded) {
        (LinkState::Disconnected, true) => LinkState::Connected,
        (LinkState::Disconnected, false) => LinkState::Disconnected,
        (LinkState::Connected, true) => LinkState::Connected,
        (LinkState::Connected, false) => LinkState::Disconnected,
    }
}

/// Peers and the state of this node's connection to each.
#[derive(Debug, Clone)]
pub struct LinkManager {
    pub nodes: Vec<String>,
    pub states: Vec<LinkState>,
}

impl LinkManager {
    pub open spec fn wf(&self) -> bool {
        self.nodes@.len() == self.states@.len()
    }

    /// Every peer starts without a connection.
    pub fn new(nodes: Vec<String>) -> (r: LinkManager)
        ensures
            r.wf(),
            r.nodes@ == nodes@,
            forall|i: int| 0 <= i < r.states@.len() ==> r.states@[i] == LinkState::Disconnected,
    {
        let mut states: Vec<LinkState> = Vec::new();
        let mut i: usize = 0;
        while i < nodes.len()
            invariant
                i <= nodes@.len(),
                states@.len() == i,
                forall|j: int| 0 <= j < i ==> states@[j] == LinkState::Disconnected,
            decreases nodes@.len() - i,
        {
            states.push(LinkState::Disconnected);
            i = i + 1;
        }
        LinkManager { nodes, states }
    }

    /// Whether calls can go to the peer named `name` now.
    pub fn get_connection(&self, name: &String) -> (r: bool)
        requires
            self.wf(),
        ensures
            r == exists|i: int|
                0 <= i < self.nodes@.len() && self.nodes@[i]@ == name@ && self.states@[i] == LinkState::Connected
                    && forall|j: int| 0 <= j < i ==> self.nodes@[j]@ != name@,
    {
        let mut i: usize = 0;
        while i < self.nodes.len()
            invariant
                self.wf(),
                i <= self.nodes@.len(),
                forall|j: int| 0 <= j < i ==> self.nodes@[j]@ != name@,
            decreases self.nodes@.len() - i,
        {
            if self.nodes[i] == *name {
                let connected = self.states[i] == LinkState::Connected;
                proof {
                    if !connected {
                        assert forall|k: int|
                            0 <= k < self.nodes@.len() && self.nodes@[k]@ == name@ && self.states@[k]
                                == LinkState::Connected implies exists|j: int| 0 <= j < k && self.nodes@[j]@ == name@ by {
                            if k > i {
                                assert(self.nodes@[i as int]@ == name@);
                            }
                        }
                    }
                }
                return connected;
            }
            i = i + 1;
        }
        false
    }

    /// The check step for every peer, in order.
    pub fn check_round(&self) -> (r: Vec<CheckAction>)
        requires
            self.wf(),
        ensures
            r@.len() == self.states@.len(),
            forall|i: int|
                0 <= i < r@.len() ==> (#[trigger] r@[i] == CheckAction::Connect) == (self.states@[i]
                    == LinkState::Disconnected),
    {
        let mut out: Vec<CheckAction> = Vec::new();
        let mut i: usize = 0;
        while i < self.states.len()
            invariant
                i <= self.states@.len(),
                out@.len() == i,
                forall|j: int|
                    0 <= j < i ==> (#[trigger] out@[j] == CheckAction::Connect) == (self.states@[j]
                        == LinkState::Disconnected),
            decreases self.states@.len() - i,
        {
            out.push(check_action(self.states[i]));
            i = i + 1;
        }
        out
    }

    /// Records the results of a round: `succeeded[i]` for peer `i`.
    pub fn apply_round(&mut self, succeeded: &Vec<bool>)
        requires
            old(self).wf(),
            succeeded@.len() == old(self).states@.len(),
        ensures
            final(self).wf(),
            final(self).nodes == old(self).nodes,
            forall|i: int|
                0 <= i < succeeded@.len() ==> #[trigger] final(self).states@[i] == (if succeeded@[i] {
                    LinkState::Connected
                } else {
                    LinkState::Disconnected
                }),
    {
        let mut i: usize = 0;
        while i < succeeded.len()
            invariant
                self.wf(),
                self.nodes == old(self).nodes,
                succeeded@.len() == self.states@.len(),
                i <= succeeded@.len(),
                forall|j: int|
                    0 <= j < i ==> #[trigger] self.states@[j] == (if succeeded@[j] {
                        LinkState::Connected
                    } else {
                        LinkState::Disconnected
                    }),
            decreases succeeded@.len() - i,
        {
            let next = after_check(self.states[i], succeeded[i]);
            self.states.set(i, next);
            i = i + 1;
        }
    }
}

} // verus!
