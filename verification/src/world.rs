//! A world: the roster of users sharing one seed, and the broadcast fan-out
//! that routes one member's action to all the others.

use crate::action::{ActionModel, ServerAction};
use crate::table::Table;
use crate::user::{User, UserModel};
use crate::{ConnectionID, Seed};
use vstd::prelude::*;

verus! {

/// One action addressed to one connection, ready for the transport to
/// transmit.  The core returns these instead of touching sockets itself.
pub struct Envelope {
    pub to: ConnectionID,
    pub action: ServerAction,
}

/// Mathematical model of an [`Envelope`].
#[verifier::ext_equal]
pub struct EnvelopeModel {
    pub to: ConnectionID,
    pub action: ActionModel,
}

impl View for Envelope {
    type V = EnvelopeModel;

    open spec fn view(&self) -> EnvelopeModel {
        EnvelopeModel { to: self.to, action: self.action@ }
    }
}

/// The models of a batch of envelopes, in delivery order.
pub open spec fn envelope_views(s: Seq<Envelope>) -> Seq<EnvelopeModel> {
    s.map_values(|e: Envelope| e@)
}

/// The fan-out of `a` over the members `order`, skipping `sender`: one
/// envelope per other member, in roster order.
pub open spec fn spec_broadcast(order: Seq<u32>, sender: u32, a: ActionModel) -> Seq<EnvelopeModel>
    decreases order.len(),
{
    if order.len() == 0 {
        Seq::empty()
    } else {
        spec_broadcast(order.drop_last(), sender, a) + if order.last() == sender {
            Seq::<EnvelopeModel>::empty()
        } else {
            seq![EnvelopeModel { to: order.last(), action: a }]
        }
    }
}

/// Roster exclusion: a broadcast never addresses the sender that triggered
/// it, whatever the roster holds, and every envelope carries the broadcast
/// action unchanged.
pub proof fn lemma_broadcast_excludes_sender(order: Seq<u32>, sender: u32, a: ActionModel)
    ensures
        forall|i: int|
            0 <= i < spec_broadcast(order, sender, a).len()
                ==> (#[trigger] spec_broadcast(order, sender, a)[i]).to != sender,
        forall|i: int|
            0 <= i < spec_broadcast(order, sender, a).len()
                ==> (#[trigger] spec_broadcast(order, sender, a)[i]).action == a,
    decreases order.len(),
{
    if order.len() > 0 {
        lemma_broadcast_excludes_sender(order.drop_last(), sender, a);
    }
}

/// A set of connections sharing live updates, keyed by the seed they all
/// presented at login.
pub struct World {
    pub seed: Seed,
    pub users: Table<User>,
}

/// Mathematical model of a [`World`]: the roster map and its join order.
#[verifier::ext_equal]
pub struct WorldModel {
    pub seed: Seed,
    pub users: Map<ConnectionID, UserModel>,
    pub order: Seq<ConnectionID>,
}

impl View for World {
    type V = WorldModel;

    open spec fn view(&self) -> WorldModel {
        WorldModel { seed: self.seed, users: self.users@, order: self.users.order() }
    }
}

impl World {
    /// The roster table holds no duplicate members.
    pub open spec fn wf(&self) -> bool {
        self.users.wf()
    }

    /// An empty world for `seed`.
    pub fn new(seed: Seed) -> (w: World)
        ensures
            w@.seed == seed,
            w@.users == Map::<ConnectionID, UserModel>::empty(),
            w@.order == Seq::<ConnectionID>::empty(),
            w.wf(),
    {
        World { seed, users: Table::new() }
    }

    /// Fans `action` out to every roster member but `sender_id`, in roster
    /// order.  The envelopes are handed back for the transport to transmit;
    /// a failed transmission is the transport's affair and never feeds back
    /// into the core.
    pub fn broadcast(&self, action: &ServerAction, sender_id: ConnectionID) -> (out: Vec<
        Envelope,
    >)
        requires
            self.wf(),
        ensures
            envelope_views(out@) == spec_broadcast(self@.order, sender_id, action@),
    {
        let ghost order = self@.order;
        let mut out: Vec<Envelope> = Vec::new();
        let mut i: usize = 0;
        let n = self.users.len();
        proof {
            assert(envelope_views(out@) =~= spec_broadcast(order.subrange(0, 0), sender_id,
                action@));
        }
        while i < n
            invariant
                self.wf(),
                n == order.len(),
                order == self@.order,
                i <= n,
                envelope_views(out@) == spec_broadcast(order.subrange(0, i as int), sender_id,
                    action@),
            decreases n - i,
        {
            let uid = self.users.key_at(i);
            if uid != sender_id {
                out.push(Envelope { to: uid, action: action.clone() });
            }
            i = i + 1;
            proof {
                let pre = order.subrange(0, i - 1);
                let cur = order.subrange(0, i as int);
                assert(cur.drop_last() =~= pre);
                assert(cur.last() == order[i - 1]);
                assert(envelope_views(out@) =~= spec_broadcast(cur, sender_id, action@));
            }
        }
        proof {
            assert(order.subrange(0, n as int) =~= order);
        }
        out
    }
}

} // verus!
