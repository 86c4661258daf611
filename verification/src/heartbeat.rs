//! The heartbeat: every thirty seconds each client is pinged, and the clients
//! whose channel is closed are dropped from every room.

use vstd::prelude::*;
use crate::rooms::RoomRegistry;

verus! {

/// Seconds between two pings.
pub const PING_INTERVAL_SECS: u64 = 30;

/// Seconds of silence after which a client counts as gone (kept for the
/// configuration; the heartbeat goes by closed channels).
pub const TIMEOUT_SECS: u64 = 90;

/// The text of a ping.
pub fn ping_text() -> (s: String)
    ensures
        s@ == "[server] PING\n"@,
{
    String::from_str("[server] PING\n")
}

/// Takes every client whose channel closed out of every room; rooms stay,
/// keys stay.
pub fn reap_dead_clients(registry: &mut RoomRegistry, dead: &Vec<u128>)
    requires
        old(registry).wf(),
    ensures
        final(registry).wf(),
        final(registry).members().dom() == old(registry).members().dom(),
        forall|r: Seq<char>|
            #[trigger] final(registry).members().contains_key(r) ==> final(registry).members()[r]
                == old(registry).members()[r].difference(dead@.to_set()),
        final(registry).keys() == old(registry).keys(),
{
    let mut i: usize = 0;
    while i < dead.len()
        invariant
            registry.wf(),
            i <= dead@.len(),
            registry.members().dom() == old(registry).members().dom(),
            registry.keys() == old(registry).keys(),
            forall|r: Seq<char>|
                #[trigger] registry.members().contains_key(r) ==> registry.members()[r]
                    == old(registry).members()[r].difference(dead@.take(i as int).to_set()),
        decreases dead@.len() - i,
    {
        let ghost before = registry.members();
        registry.remove_everywhere(dead[i]);
        proof {
            assert(dead@.take(i + 1) =~= dead@.take(i as int).push(dead@[i as int]));
            assert forall|r: Seq<char>| #[trigger] registry.members().contains_key(r) implies registry.members()[r]
                == old(registry).members()[r].difference(dead@.take(i + 1).to_set()) by {
                assert(before.contains_key(r));
                dead@.take(i as int).lemma_push_to_set_commute(dead@[i as int]);
                assert(registry.members()[r] =~= old(registry).members()[r].difference(
                    dead@.take(i + 1).to_set(),
                ));
            }
        }
        i = i + 1;
    }
    proof {
        assert(dead@.take(dead@.len() as int) =~= dead@);
    }
}

} // verus!
