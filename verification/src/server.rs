//! The event core: a strictly serial state machine that is the sole mutator
//! of all session state.
//!
//! The transport layer owns the sockets and the event channel; it hands the
//! core one [`ServerEvent`] at a time and transmits the [`Envelope`]s the
//! core returns.  [`spec_step`] is the mathematical transition relation: what
//! [`Server::process_next_event`] does to the registry and what it sends is
//! exactly one step of it.  A failure inside one event (a client acting
//! before login, a disconnect with no membership) is scoped to that event: it
//! is reported in the step's result, never by abandoning the state machine.

use crate::action::{ActionModel, Lanes, ServerAction};
use crate::table::Table;
use crate::user::{zero_lanes, User, UserModel};
use crate::world::{
    envelope_views, spec_broadcast, Envelope, EnvelopeModel, World, WorldModel,
};
use crate::{ConnectionID, Seed};
use vstd::prelude::*;

verus! {

/// Peer metadata attached to a connection once its transport handshake is
/// reported: the addresses the handshake carried, as plain text.
pub struct PeerInfo {
    pub client: Option<String>,
    pub peer: Option<String>,
}

/// Mathematical model of a [`PeerInfo`].
#[verifier::ext_equal]
pub struct PeerInfoModel {
    pub client: Option<Seq<char>>,
    pub peer: Option<Seq<char>>,
}

impl View for PeerInfo {
    type V = PeerInfoModel;

    open spec fn view(&self) -> PeerInfoModel {
        PeerInfoModel {
            client: match self.client {
                Some(ref c) => Some(c@),
                None => None,
            },
            peer: match self.peer {
                Some(ref p) => Some(p@),
                None => None,
            },
        }
    }
}

/// One tracked connection: its handshake metadata, once attached.  The
/// transmit handle itself stays with the transport; the core addresses a
/// connection purely by its identifier.
pub struct Connection {
    pub shake: Option<PeerInfo>,
}

/// Mathematical model of a [`Connection`].
#[verifier::ext_equal]
pub struct ConnectionModel {
    pub shake: Option<PeerInfoModel>,
}

impl View for Connection {
    type V = ConnectionModel;

    open spec fn view(&self) -> ConnectionModel {
        ConnectionModel {
            shake: match self.shake {
                Some(ref s) => Some(s@),
                None => None,
            },
        }
    }
}

/// The peer address of a connection, or empty text when none is known.
pub open spec fn spec_peer_addr(c: ConnectionModel) -> Seq<char> {
    match c.shake {
        Some(info) => match info.peer {
            Some(p) => p,
            None => Seq::empty(),
        },
        None => Seq::empty(),
    }
}

/// The client address of a connection: the address the handshake reported,
/// or a placeholder built from the peer address.
pub open spec fn spec_client_addr(c: ConnectionModel) -> Seq<char> {
    match c.shake {
        Some(info) => match info.client {
            Some(cl) => cl,
            None => "Unknown Client: "@ + spec_peer_addr(c),
        },
        None => "Unknown Client: "@ + spec_peer_addr(c),
    }
}

impl Connection {
    /// A freshly accepted connection, with no handshake metadata yet.
    pub fn new() -> (c: Connection)
        ensures
            c@ == (ConnectionModel { shake: None }),
    {
        Connection { shake: None }
    }

    /// The peer address for log lines, empty when unknown.
    pub fn peer_addr(&self) -> (s: String)
        ensures
            s@ == spec_peer_addr(self@),
    {
        match &self.shake {
            Some(info) => match &info.peer {
                Some(p) => p.clone(),
                None => String::new(),
            },
            None => String::new(),
        }
    }

    /// The client address for log lines, with a placeholder when the
    /// handshake carried none.
    pub fn client_addr(&self) -> (s: String)
        ensures
            s@ == spec_client_addr(self@),
    {
        match &self.shake {
            Some(info) => match &info.client {
                Some(cl) => return cl.clone(),
                None => {},
            },
            None => {},
        }
        let mut s = String::from_str("Unknown Client: ");
        let peer = self.peer_addr();
        s.append(peer.as_str());
        s
    }
}

/// What the transport reports into the core, one at a time.
pub enum ServerEvent {
    /// A new connection was accepted; no world membership yet.
    Connection { sender_id: ConnectionID },
    /// Handshake metadata arrived for an already-reported connection.
    Handshake { sender_id: ConnectionID, shake: PeerInfo },
    /// The connection closed, with the transport's close code and reason.
    Disconnection { sender_id: ConnectionID, code: u16, reason: String },
    /// A decoded client action arrived on the connection.
    Action { sender_id: ConnectionID, action: ServerAction },
}

/// Mathematical model of a [`ServerEvent`].
#[verifier::ext_equal]
pub enum EventModel {
    Connection { sender_id: ConnectionID },
    Handshake { sender_id: ConnectionID, shake: PeerInfoModel },
    Disconnection { sender_id: ConnectionID, code: u16, reason: Seq<char> },
    Action { sender_id: ConnectionID, action: ActionModel },
}

impl View for ServerEvent {
    type V = EventModel;

    open spec fn view(&self) -> EventModel {
        match *self {
            ServerEvent::Connection { sender_id } => EventModel::Connection { sender_id },
            ServerEvent::Handshake { sender_id, ref shake } => EventModel::Handshake {
                sender_id,
                shake: shake@,
            },
            ServerEvent::Disconnection { sender_id, code, ref reason } => {
                EventModel::Disconnection { sender_id, code, reason: reason@ }
            },
            ServerEvent::Action { sender_id, ref action } => EventModel::Action {
                sender_id,
                action: action@,
            },
        }
    }
}

/// Why one event's side effects were skipped.  Each of these is scoped to
/// the single event that raised it; the state machine goes on.
#[derive(Clone, Copy, PartialEq, Eq, Structural, Debug)]
pub enum EventError {
    /// A login arrived for a connection the core was never told about.
    UnknownConnection,
    /// A disconnection, logout or movement arrived for a connection that
    /// holds no world membership.
    NotLoggedIn,
    /// A server-origin action arrived from a client.
    UnsupportedAction,
}

/// Mathematical model of the whole registry.
#[verifier::ext_equal]
pub struct ServerModel {
    /// Every tracked connection, logged in or not.
    pub connections: Map<ConnectionID, ConnectionModel>,
    /// The live worlds; a seed is present exactly while its roster is not
    /// empty.
    pub worlds: Map<Seed, WorldModel>,
    /// The reverse index: which world each logged-in connection is in.
    pub user_worlds: Map<ConnectionID, Seed>,
}

/// One transition of the state machine: the state after the event, the
/// envelopes to transmit in order, and the event's own outcome.
#[verifier::ext_equal]
pub struct StepModel {
    pub state: ServerModel,
    pub out: Seq<EnvelopeModel>,
    pub result: Result<(), EventError>,
}

/// The world for `seed`, or a fresh empty one if none is live.
pub open spec fn world_or_new(worlds: Map<Seed, WorldModel>, seed: Seed) -> WorldModel {
    if worlds.contains_key(seed) {
        worlds[seed]
    } else {
        WorldModel { seed, users: Map::empty(), order: Seq::empty() }
    }
}

/// Ends `id`'s world membership, if any: drops the reverse-index entry,
/// removes the user from its world's roster, fans a `Leave` out to the
/// remaining members, and destroys the world the instant its roster empties.
/// The third component says whether a membership was found.
pub open spec fn spec_teardown(s: ServerModel, id: ConnectionID) -> (ServerModel, Seq<
    EnvelopeModel,
>, bool) {
    if !s.user_worlds.contains_key(id) {
        (s, Seq::empty(), false)
    } else {
        let seed = s.user_worlds[id];
        let uw = s.user_worlds.remove(id);
        if s.worlds.contains_key(seed) {
            let w = s.worlds[seed];
            let w2 = WorldModel {
                seed: w.seed,
                users: w.users.remove(id),
                order: if w.users.contains_key(id) {
                    w.order.remove(w.order.index_of(id))
                } else {
                    w.order
                },
            };
            let out = spec_broadcast(w2.order, id, ActionModel::Leave { id });
            if w2.order.len() == 0 {
                (
                    ServerModel {
                        connections: s.connections,
                        worlds: s.worlds.remove(seed),
                        user_worlds: uw,
                    },
                    out,
                    true,
                )
            } else {
                (
                    ServerModel {
                        connections: s.connections,
                        worlds: s.worlds.insert(seed, w2),
                        user_worlds: uw,
                    },
                    out,
                    true,
                )
            }
        } else {
            (ServerModel { connections: s.connections, worlds: s.worlds, user_worlds: uw },
            Seq::empty(), true)
        }
    }
}

/// The roster snapshot sent to a fresh member: for every existing member in
/// join order, one `Join` with its name and one `Transform` with its last
/// known transform, all addressed to the newcomer.
pub open spec fn spec_snapshot(
    order: Seq<ConnectionID>,
    users: Map<ConnectionID, UserModel>,
    to: ConnectionID,
) -> Seq<EnvelopeModel>
    decreases order.len(),
{
    if order.len() == 0 {
        Seq::empty()
    } else {
        let uid = order.last();
        let u = users[uid];
        spec_snapshot(order.drop_last(), users, to) + seq![
            EnvelopeModel { to, action: ActionModel::Join { id: uid, name: u.name } },
            EnvelopeModel {
                to,
                action: ActionModel::Transform {
                    id: uid,
                    position: u.position,
                    velocity: u.velocity,
                    rotation: u.rotation,
                },
            },
        ]
    }
}

/// A login: requires a tracked connection; ends any previous membership as a
/// logout would; gets or lazily creates the world; announces the newcomer to
/// the current members; snapshots the roster to the newcomer; then adds the
/// newcomer with a zeroed transform.
pub open spec fn spec_login(s: ServerModel, id: ConnectionID, seed: Seed, name: Seq<u8>)
    -> StepModel {
    if !s.connections.contains_key(id) {
        StepModel { state: s, out: Seq::empty(), result: Err(EventError::UnknownConnection) }
    } else {
        let td = spec_teardown(s, id);
        let s0 = td.0;
        let w = world_or_new(s0.worlds, seed);
        let join_out = spec_broadcast(w.order, id, ActionModel::Join { id, name });
        let snap_out = spec_snapshot(w.order, w.users, id);
        let user = UserModel {
            name,
            position: zero_lanes(),
            velocity: zero_lanes(),
            rotation: zero_lanes(),
        };
        let w2 = WorldModel {
            seed: w.seed,
            users: w.users.insert(id, user),
            order: if w.users.contains_key(id) {
                w.order
            } else {
                w.order.push(id)
            },
        };
        StepModel {
            state: ServerModel {
                connections: s0.connections,
                worlds: s0.worlds.insert(seed, w2),
                user_worlds: s0.user_worlds.insert(id, seed),
            },
            out: td.1 + join_out + snap_out,
            result: Ok(()),
        }
    }
}

/// A movement update: requires a membership; overwrites the member's stored
/// transform and fans the update out to every other member.
pub open spec fn spec_move(
    s: ServerModel,
    id: ConnectionID,
    position: Lanes,
    velocity: Lanes,
    rotation: Lanes,
) -> StepModel {
    if !s.user_worlds.contains_key(id) {
        StepModel { state: s, out: Seq::empty(), result: Err(EventError::NotLoggedIn) }
    } else {
        let seed = s.user_worlds[id];
        let w = s.worlds[seed];
        let u = w.users[id];
        let u2 = UserModel { name: u.name, position, velocity, rotation };
        let w2 = WorldModel { seed: w.seed, users: w.users.insert(id, u2), order: w.order };
        let out = spec_broadcast(w2.order, id, ActionModel::Transform {
            id,
            position,
            velocity,
            rotation,
        });
        StepModel {
            state: ServerModel {
                connections: s.connections,
                worlds: s.worlds.insert(seed, w2),
                user_worlds: s.user_worlds,
            },
            out,
            result: Ok(()),
        }
    }
}

/// The transition relation of the event core.
pub open spec fn spec_step(s: ServerModel, e: EventModel) -> StepModel {
    match e {
        EventModel::Connection { sender_id } => StepModel {
            state: ServerModel {
                connections: s.connections.insert(sender_id, ConnectionModel { shake: None }),
                worlds: s.worlds,
                user_worlds: s.user_worlds,
            },
            out: Seq::empty(),
            result: Ok(()),
        },
        EventModel::Handshake { sender_id, shake } => {
            if s.connections.contains_key(sender_id) {
                StepModel {
                    state: ServerModel {
                        connections: s.connections.insert(sender_id, ConnectionModel {
                            shake: Some(shake),
                        }),
                        worlds: s.worlds,
                        user_worlds: s.user_worlds,
                    },
                    out: Seq::empty(),
                    result: Ok(()),
                }
            } else {
                // The connection may already be gone; the metadata is dropped.
                StepModel { state: s, out: Seq::empty(), result: Ok(()) }
            }
        },
        EventModel::Disconnection { sender_id, .. } => {
            let s1 = ServerModel {
                connections: s.connections.remove(sender_id),
                worlds: s.worlds,
                user_worlds: s.user_worlds,
            };
            let td = spec_teardown(s1, sender_id);
            StepModel {
                state: td.0,
                out: td.1,
                result: if td.2 {
                    Ok(())
                } else {
                    Err(EventError::NotLoggedIn)
                },
            }
        },
        EventModel::Action { sender_id, action } => match action {
            ActionModel::Noop => StepModel { state: s, out: Seq::empty(), result: Ok(()) },
            ActionModel::Login { seed, name } => spec_login(s, sender_id, seed, name),
            ActionModel::Logout => {
                let td = spec_teardown(s, sender_id);
                StepModel {
                    state: td.0,
                    out: td.1,
                    result: if td.2 {
                        Ok(())
                    } else {
                        Err(EventError::NotLoggedIn)
                    },
                }
            },
            // The client-supplied identifier is ignored: the update is
            // relayed under the sender's own identifier.
            ActionModel::Transform { position, velocity, rotation, .. } => spec_move(
                s,
                sender_id,
                position,
                velocity,
                rotation,
            ),
            _ => StepModel {
                state: s,
                out: Seq::empty(),
                result: Err(EventError::UnsupportedAction),
            },
        },
    }
}

/// A world in good standing: keyed by its own seed, never empty, with a
/// duplicate-free roster order matching the roster map.
pub open spec fn world_ok(sd: Seed, w: WorldModel) -> bool {
    &&& w.seed == sd
    &&& w.order.len() > 0
    &&& w.order.no_duplicates()
    &&& forall|id: ConnectionID| #![trigger w.users.contains_key(id)] #![trigger w.order.contains(id)]
        w.users.contains_key(id) <==> w.order.contains(id)
}

/// The registry invariant: every live world is in good standing, and world
/// membership and the reverse index mirror each other exactly.
pub open spec fn inv(s: ServerModel) -> bool {
    &&& forall|sd: Seed| #[trigger] s.worlds.contains_key(sd) ==> world_ok(sd, s.worlds[sd])
    &&& forall|id: ConnectionID| #[trigger] s.user_worlds.contains_key(id) ==> {
        &&& s.worlds.contains_key(s.user_worlds[id])
        &&& s.worlds[s.user_worlds[id]].users.contains_key(id)
    }
    &&& forall|sd: Seed, id: ConnectionID|
        s.worlds.contains_key(sd) && #[trigger] s.worlds[sd].users.contains_key(id) ==> {
            &&& s.user_worlds.contains_key(id)
            &&& s.user_worlds[id] == sd
        }
}

proof fn lemma_distinct_remove(s: Seq<u32>, k: u32)
    requires
        s.no_duplicates(),
        s.contains(k),
    ensures
        s.remove(s.index_of(k)).len() == s.len() - 1,
        s.remove(s.index_of(k)).no_duplicates(),
        forall|x: u32| #[trigger]
            s.remove(s.index_of(k)).contains(x) <==> (s.contains(x) && x != k),
{
    let i = s.index_of(k);
    assert(0 <= i < s.len() && s[i] == k);
    let t = s.remove(i);
    s.remove_ensures(i);
    assert forall|x: u32| #[trigger] t.contains(x) implies s.contains(x) && x != k by {
        let j = choose|j: int| 0 <= j < t.len() && t[j] == x;
        if j < i {
            assert(s[j] == x);
        } else {
            assert(s[j + 1] == x);
        }
    }
    assert forall|x: u32| s.contains(x) && x != k implies #[trigger] t.contains(x) by {
        let j = choose|j: int| 0 <= j < s.len() && s[j] == x;
        if j < i {
            assert(t[j] == x);
        } else {
            assert(j != i);
            assert(t[j - 1] == x);
        }
    }
    assert forall|a: int, b: int|
        0 <= a < t.len() && 0 <= b < t.len() && a != b implies t[a] != t[b] by {
        let sa: int = if a < i { a } else { a + 1 };
        let sb: int = if b < i { b } else { b + 1 };
        assert(t[a] == s[sa]);
        assert(t[b] == s[sb]);
    }
}

proof fn lemma_push_fresh(s: Seq<u32>, k: u32)
    requires
        s.no_duplicates(),
        !s.contains(k),
    ensures
        s.push(k).no_duplicates(),
        forall|x: u32| #[trigger] s.push(k).contains(x) <==> (s.contains(x) || x == k),
{
    let t = s.push(k);
    assert forall|a: int, b: int|
        0 <= a < t.len() && 0 <= b < t.len() && a != b implies t[a] != t[b] by {
        if a < s.len() && b < s.len() {
        } else if a < s.len() {
            assert(t[a] == s[a]);
            assert(s.contains(s[a]));
        } else if b < s.len() {
            assert(t[b] == s[b]);
            assert(s.contains(s[b]));
        }
    }
    assert forall|x: u32| #[trigger] t.contains(x) implies s.contains(x) || x == k by {
        let j = choose|j: int| 0 <= j < t.len() && t[j] == x;
        if j < s.len() {
            assert(s[j] == x);
        }
    }
    assert forall|x: u32| s.contains(x) || x == k implies #[trigger] t.contains(x) by {
        if x == k {
            assert(t[s.len() as int] == k);
        } else {
            let j = choose|j: int| 0 <= j < s.len() && s[j] == x;
            assert(t[j] == x);
        }
    }
}

proof fn lemma_teardown_inv(s: ServerModel, id: ConnectionID)
    requires
        inv(s),
    ensures
        inv(spec_teardown(s, id).0),
        !spec_teardown(s, id).0.user_worlds.contains_key(id),
        forall|sd: Seed| #[trigger]
            spec_teardown(s, id).0.worlds.contains_key(sd)
                ==> !spec_teardown(s, id).0.worlds[sd].users.contains_key(id),
{
    let s2 = spec_teardown(s, id).0;
    if !s.user_worlds.contains_key(id) {
        assert forall|sd: Seed| #[trigger] s2.worlds.contains_key(sd) implies !s2.worlds[
            sd].users.contains_key(id) by {
            if s2.worlds[sd].users.contains_key(id) {
                assert(s.user_worlds.contains_key(id));
            }
        }
    } else {
        let seed = s.user_worlds[id];
        let uw = s.user_worlds.remove(id);
        assert(s.worlds.contains_key(seed));
        let w = s.worlds[seed];
        assert(world_ok(seed, w));
        assert(w.users.contains_key(id));
        assert(w.order.contains(id));
        lemma_distinct_remove(w.order, id);
        let w2 = WorldModel {
            seed: w.seed,
            users: w.users.remove(id),
            order: w.order.remove(w.order.index_of(id)),
        };
        if w2.order.len() == 0 {
            // The roster emptied: the world is destroyed.  No other
            // connection can still be mapped to this seed, else the roster
            // could not be empty.
            assert forall|id2: ConnectionID| #[trigger] s2.user_worlds.contains_key(id2)
                implies s2.worlds.contains_key(s2.user_worlds[id2]) && s2.worlds[s2.user_worlds[
                id2]].users.contains_key(id2) by {
                assert(s.user_worlds.contains_key(id2));
                let sd2 = s.user_worlds[id2];
                if sd2 == seed {
                    assert(w.users.contains_key(id2));
                    assert(id2 != id);
                    assert(w2.order.contains(id2));
                }
            }
            assert forall|sd: Seed, id2: ConnectionID|
                s2.worlds.contains_key(sd) && #[trigger] s2.worlds[sd].users.contains_key(id2)
                implies s2.user_worlds.contains_key(id2) && s2.user_worlds[id2] == sd by {
                assert(sd != seed);
                assert(s.worlds[sd].users.contains_key(id2));
                if id2 == id {
                    assert(s.user_worlds[id] == sd);
                }
            }
        } else {
            assert(world_ok(seed, w2)) by {
                assert forall|x: ConnectionID| #[trigger]
                    w2.users.contains_key(x) <==> w2.order.contains(x) by {
                    assert(w2.order.contains(x) <==> (w.order.contains(x) && x != id));
                }
            }
            assert forall|sd: Seed| #[trigger] s2.worlds.contains_key(sd) implies world_ok(
                sd, s2.worlds[sd]) by {
                if sd != seed {
                    assert(world_ok(sd, s.worlds[sd]));
                }
            }
            assert forall|id2: ConnectionID| #[trigger] s2.user_worlds.contains_key(id2)
                implies s2.worlds.contains_key(s2.user_worlds[id2]) && s2.worlds[s2.user_worlds[
                id2]].users.contains_key(id2) by {
                assert(s.user_worlds.contains_key(id2));
                assert(id2 != id);
            }
            assert forall|sd: Seed, id2: ConnectionID|
                s2.worlds.contains_key(sd) && #[trigger] s2.worlds[sd].users.contains_key(id2)
                implies s2.user_worlds.contains_key(id2) && s2.user_worlds[id2] == sd by {
                if sd == seed {
                    assert(w.users.contains_key(id2));
                    assert(id2 != id);
                } else {
                    assert(s.worlds[sd].users.contains_key(id2));
                    if id2 == id {
                        assert(s.user_worlds[id] == sd);
                    }
                }
            }
        }
        assert forall|sd: Seed| #[trigger] s2.worlds.contains_key(sd) implies !s2.worlds[
            sd].users.contains_key(id) by {
            if s2.worlds[sd].users.contains_key(id) {
                assert(s2.user_worlds.contains_key(id));
            }
        }
    }
}

proof fn lemma_login_inv(s: ServerModel, id: ConnectionID, seed: Seed, name: Seq<u8>)
    requires
        inv(s),
    ensures
        inv(spec_login(s, id, seed, name).state),
{
    if s.connections.contains_key(id) {
        lemma_teardown_inv(s, id);
        let s0 = spec_teardown(s, id).0;
        let w = world_or_new(s0.worlds, seed);
        // The newcomer holds no membership after the teardown, so it stands
        // in no roster and not in this world's order.
        assert(!w.users.contains_key(id));
        if s0.worlds.contains_key(seed) {
            assert(world_ok(seed, w));
            assert(!w.order.contains(id));
        } else {
            assert(!w.order.contains(id));
        }
        lemma_push_fresh(w.order, id);
        let user = UserModel {
            name,
            position: zero_lanes(),
            velocity: zero_lanes(),
            rotation: zero_lanes(),
        };
        let w2 = WorldModel {
            seed: w.seed,
            users: w.users.insert(id, user),
            order: w.order.push(id),
        };
        let s2 = spec_login(s, id, seed, name).state;
        assert(world_ok(seed, w2)) by {
            assert forall|x: ConnectionID| #[trigger]
                w2.users.contains_key(x) <==> w2.order.contains(x) by {
                assert(w2.order.contains(x) <==> (w.order.contains(x) || x == id));
            }
        }
        assert forall|sd: Seed| #[trigger] s2.worlds.contains_key(sd) implies world_ok(sd,
            s2.worlds[sd]) by {
            if sd != seed {
                assert(world_ok(sd, s0.worlds[sd]));
            }
        }
        assert forall|id2: ConnectionID| #[trigger] s2.user_worlds.contains_key(id2) implies
            s2.worlds.contains_key(s2.user_worlds[id2]) && s2.worlds[s2.user_worlds[
            id2]].users.contains_key(id2) by {
            if id2 != id {
                assert(s0.user_worlds.contains_key(id2));
            }
        }
        assert forall|sd: Seed, id2: ConnectionID|
            s2.worlds.contains_key(sd) && #[trigger] s2.worlds[sd].users.contains_key(id2)
            implies s2.user_worlds.contains_key(id2) && s2.user_worlds[id2] == sd by {
            if sd == seed {
                if id2 != id {
                    assert(w.users.contains_key(id2));
                    assert(s0.worlds.contains_key(seed));
                    assert(s0.user_worlds.contains_key(id2) && s0.user_worlds[id2] == seed);
                }
            } else {
                assert(s0.worlds.contains_key(sd));
                assert(s0.worlds[sd].users.contains_key(id2));
                assert(id2 != id);
            }
        }
    }
}

proof fn lemma_move_inv(s: ServerModel, id: ConnectionID, position: Lanes, velocity: Lanes,
    rotation: Lanes)
    requires
        inv(s),
    ensures
        inv(spec_move(s, id, position, velocity, rotation).state),
{
    if s.user_worlds.contains_key(id) {
        let seed = s.user_worlds[id];
        let w = s.worlds[seed];
        assert(world_ok(seed, w));
        let s2 = spec_move(s, id, position, velocity, rotation).state;
        let w2 = s2.worlds[seed];
        assert(world_ok(seed, w2)) by {
            assert forall|x: ConnectionID| #[trigger]
                w2.users.contains_key(x) <==> w2.order.contains(x) by {
                assert(w2.users.contains_key(x) <==> (w.users.contains_key(x) || x == id));
                assert(w.users.contains_key(id));
            }
        }
        assert forall|sd: Seed| #[trigger] s2.worlds.contains_key(sd) implies world_ok(sd,
            s2.worlds[sd]) by {
            if sd != seed {
                assert(world_ok(sd, s.worlds[sd]));
            }
        }
        assert forall|sd: Seed, id2: ConnectionID|
            s2.worlds.contains_key(sd) && #[trigger] s2.worlds[sd].users.contains_key(id2)
            implies s2.user_worlds.contains_key(id2) && s2.user_worlds[id2] == sd by {
            if sd == seed && id2 != id {
                assert(w.users.contains_key(id2));
            }
            if sd != seed {
                assert(s.worlds[sd].users.contains_key(id2));
            }
        }
    }
}

/// Every step of the transition relation keeps the registry invariant.
pub proof fn lemma_step_inv(s: ServerModel, e: EventModel)
    requires
        inv(s),
    ensures
        inv(spec_step(s, e).state),
{
    match e {
        EventModel::Connection { .. } => {},
        EventModel::Handshake { .. } => {},
        EventModel::Disconnection { sender_id, .. } => {
            let s1 = ServerModel {
                connections: s.connections.remove(sender_id),
                worlds: s.worlds,
                user_worlds: s.user_worlds,
            };
            lemma_teardown_inv(s1, sender_id);
        },
        EventModel::Action { sender_id, action } => match action {
            ActionModel::Login { seed, name } => lemma_login_inv(s, sender_id, seed, name),
            ActionModel::Logout => lemma_teardown_inv(s, sender_id),
            ActionModel::Transform { position, velocity, rotation, .. } => lemma_move_inv(
                s,
                sender_id,
                position,
                velocity,
                rotation,
            ),
            _ => {},
        },
    }
}

/// Idempotent teardown: a disconnection for a connection that never logged
/// in (or had already logged out) is harmless.  It reports an error scoped
/// to that one event, sends nothing, creates and destroys no world, touches
/// no other connection's record, and leaves every membership as it was.
pub proof fn lemma_idempotent_teardown(
    s: ServerModel,
    id: ConnectionID,
    code: u16,
    reason: Seq<char>,
)
    requires
        inv(s),
        !s.user_worlds.contains_key(id),
    ensures
        ({
            let st = spec_step(s, EventModel::Disconnection { sender_id: id, code, reason });
            &&& st.result == Err::<(), EventError>(EventError::NotLoggedIn)
            &&& st.out == Seq::<EnvelopeModel>::empty()
            &&& st.state.worlds == s.worlds
            &&& st.state.user_worlds == s.user_worlds
            &&& st.state.connections == s.connections.remove(id)
        }),
{
}

/// Lazy creation, first half: no event brings the world for `sd` into
/// existence except a login that presents `sd` itself.  Together with
/// [`Server::new`], which starts with no worlds at all, the world for a seed
/// cannot exist before the first login presenting it.
pub proof fn lemma_world_created_only_by_login(s: ServerModel, e: EventModel, sd: Seed)
    requires
        inv(s),
        !s.worlds.contains_key(sd),
    ensures
        spec_step(s, e).state.worlds.contains_key(sd) ==> (e matches EventModel::Action {
            action: ActionModel::Login { seed, .. },
            ..
        } && seed == sd),
{
    match e {
        EventModel::Connection { .. } => {},
        EventModel::Handshake { .. } => {},
        EventModel::Disconnection { sender_id, .. } => {
            let s1 = ServerModel {
                connections: s.connections.remove(sender_id),
                worlds: s.worlds,
                user_worlds: s.user_worlds,
            };
            lemma_teardown_keeps_absent(s1, sender_id, sd);
        },
        EventModel::Action { sender_id, action } => match action {
            ActionModel::Login { seed, name } => {
                if seed != sd && s.connections.contains_key(sender_id) {
                    lemma_teardown_keeps_absent(s, sender_id, sd);
                }
            },
            ActionModel::Logout => {
                lemma_teardown_keeps_absent(s, sender_id, sd);
            },
            ActionModel::Transform { .. } => {
                if s.user_worlds.contains_key(sender_id) {
                    assert(s.worlds.contains_key(s.user_worlds[sender_id]));
                }
            },
            _ => {},
        },
    }
}

proof fn lemma_teardown_keeps_absent(s: ServerModel, id: ConnectionID, sd: Seed)
    requires
        !s.worlds.contains_key(sd),
    ensures
        !spec_teardown(s, id).0.worlds.contains_key(sd),
{
}

/// Lazy creation, second half: a login presenting `sd` from a tracked
/// connection leaves the world for `sd` live, with the newcomer on its
/// roster.
pub proof fn lemma_login_creates_world(s: ServerModel, id: ConnectionID, sd: Seed, name: Seq<u8>)
    requires
        inv(s),
        s.connections.contains_key(id),
    ensures
        spec_login(s, id, sd, name).state.worlds.contains_key(sd),
        spec_login(s, id, sd, name).state.worlds[sd].users.contains_key(id),
{
}

/// Lazy destruction: the moment the last member of a world leaves — by
/// disconnection or logout — that world is gone from the registry, while
/// every other live world stays exactly as it was, however many remain.
pub proof fn lemma_last_leave_destroys_world(s: ServerModel, id: ConnectionID)
    requires
        inv(s),
        s.user_worlds.contains_key(id),
        s.worlds[s.user_worlds[id]].order.len() == 1,
    ensures
        !spec_teardown(s, id).0.worlds.contains_key(s.user_worlds[id]),
        forall|sd2: Seed| sd2 != s.user_worlds[id] ==> (#[trigger] spec_teardown(
            s,
            id,
        ).0.worlds.contains_key(sd2) <==> s.worlds.contains_key(sd2)),
        forall|sd2: Seed|
            sd2 != s.user_worlds[id] && s.worlds.contains_key(sd2) ==> #[trigger] spec_teardown(
                s,
                id,
            ).0.worlds[sd2] == s.worlds[sd2],
{
    let seed = s.user_worlds[id];
    assert(s.worlds.contains_key(seed));
    let w = s.worlds[seed];
    assert(world_ok(seed, w));
    assert(w.users.contains_key(id));
    assert(w.order.contains(id));
    lemma_distinct_remove(w.order, id);
}

/// A member leaving a world that still has others does not destroy it: the
/// world stays live with the remaining roster.
pub proof fn lemma_leave_keeps_world(s: ServerModel, id: ConnectionID)
    requires
        inv(s),
        s.user_worlds.contains_key(id),
        s.worlds[s.user_worlds[id]].order.len() > 1,
    ensures
        spec_teardown(s, id).0.worlds.contains_key(s.user_worlds[id]),
        spec_teardown(s, id).0.worlds[s.user_worlds[id]].users
            == s.worlds[s.user_worlds[id]].users.remove(id),
{
    let seed = s.user_worlds[id];
    assert(s.worlds.contains_key(seed));
    let w = s.worlds[seed];
    assert(world_ok(seed, w));
    assert(w.order.contains(id));
    lemma_distinct_remove(w.order, id);
}

/// Ordering: the core applies events strictly in the order they arrive, and
/// each step's envelopes are emitted in order.  From a state where `a` and
/// `b` are tracked, hold no membership, and no world for `sd` is live, the
/// event sequence `Login(a, sd)`, `Login(b, sd)`, `Move(a, ...)` yields: no
/// envelope for the first login; for `b`'s login first the `Join(b)`
/// announcement to `a`, then the roster snapshot `Join(a)` followed by
/// `Transform(a, zeroed)` to `b`; and for the movement one `Transform(a)` to
/// `b` alone.
pub proof fn lemma_event_ordering(
    s: ServerModel,
    a: ConnectionID,
    b: ConnectionID,
    sd: Seed,
    na: Seq<u8>,
    nb: Seq<u8>,
    p: Lanes,
    v: Lanes,
    rt: Lanes,
)
    requires
        inv(s),
        a != b,
        s.connections.contains_key(a),
        s.connections.contains_key(b),
        !s.user_worlds.contains_key(a),
        !s.user_worlds.contains_key(b),
        !s.worlds.contains_key(sd),
    ensures
        ({
            let st1 = spec_step(s, EventModel::Action {
                sender_id: a,
                action: ActionModel::Login { seed: sd, name: na },
            });
            let st2 = spec_step(st1.state, EventModel::Action {
                sender_id: b,
                action: ActionModel::Login { seed: sd, name: nb },
            });
            let st3 = spec_step(st2.state, EventModel::Action {
                sender_id: a,
                action: ActionModel::Transform { id: a, position: p, velocity: v, rotation: rt },
            });
            &&& st1.out == Seq::<EnvelopeModel>::empty()
            &&& st2.out == seq![
                EnvelopeModel { to: a, action: ActionModel::Join { id: b, name: nb } },
                EnvelopeModel { to: b, action: ActionModel::Join { id: a, name: na } },
                EnvelopeModel {
                    to: b,
                    action: ActionModel::Transform {
                        id: a,
                        position: zero_lanes(),
                        velocity: zero_lanes(),
                        rotation: zero_lanes(),
                    },
                },
            ]
            &&& st3.out == seq![
                EnvelopeModel {
                    to: b,
                    action: ActionModel::Transform { id: a, position: p, velocity: v, rotation: rt },
                },
            ]
        }),
{
    let ua = UserModel {
        name: na,
        position: zero_lanes(),
        velocity: zero_lanes(),
        rotation: zero_lanes(),
    };
    let ub = UserModel {
        name: nb,
        position: zero_lanes(),
        velocity: zero_lanes(),
        rotation: zero_lanes(),
    };
    let st1 = spec_step(s, EventModel::Action {
        sender_id: a,
        action: ActionModel::Login { seed: sd, name: na },
    });
    let e0 = Seq::<ConnectionID>::empty();
    assert(st1.out =~= Seq::<EnvelopeModel>::empty());
    let w1 = WorldModel { seed: sd, users: Map::empty().insert(a, ua), order: e0.push(a) };
    assert(st1.state.worlds[sd] =~~= w1);
    assert(st1.state.worlds.contains_key(sd));
    let st2 = spec_step(st1.state, EventModel::Action {
        sender_id: b,
        action: ActionModel::Login { seed: sd, name: nb },
    });
    assert(!st1.state.user_worlds.contains_key(b));
    let oa = w1.order;
    assert(oa =~= seq![a]);
    let join_b = ActionModel::Join { id: b, name: nb };
    assert(spec_broadcast(oa, b, join_b) =~= seq![EnvelopeModel { to: a, action: join_b }]) by {
        assert(oa.drop_last() =~= e0);
        assert(spec_broadcast(e0, b, join_b) =~= Seq::<EnvelopeModel>::empty());
    }
    assert(spec_snapshot(oa, w1.users, b) =~= seq![
        EnvelopeModel { to: b, action: ActionModel::Join { id: a, name: na } },
        EnvelopeModel {
            to: b,
            action: ActionModel::Transform {
                id: a,
                position: zero_lanes(),
                velocity: zero_lanes(),
                rotation: zero_lanes(),
            },
        },
    ]) by {
        assert(oa.drop_last() =~= e0);
        assert(spec_snapshot(e0, w1.users, b) =~= Seq::<EnvelopeModel>::empty());
        assert(w1.users[a] == ua);
    }
    assert(st2.out =~= seq![
        EnvelopeModel { to: a, action: ActionModel::Join { id: b, name: nb } },
        EnvelopeModel { to: b, action: ActionModel::Join { id: a, name: na } },
        EnvelopeModel {
            to: b,
            action: ActionModel::Transform {
                id: a,
                position: zero_lanes(),
                velocity: zero_lanes(),
                rotation: zero_lanes(),
            },
        },
    ]);
    let w2 = st2.state.worlds[sd];
    assert(w2.order =~= seq![a, b]);
    assert(w2.users[a] == ua);
    let st3 = spec_step(st2.state, EventModel::Action {
        sender_id: a,
        action: ActionModel::Transform { id: a, position: p, velocity: v, rotation: rt },
    });
    assert(st2.state.user_worlds.contains_key(a) && st2.state.user_worlds[a] == sd);
    let mv = ActionModel::Transform { id: a, position: p, velocity: v, rotation: rt };
    assert(spec_broadcast(w2.order, a, mv) =~= seq![EnvelopeModel { to: b, action: mv }]) by {
        assert(w2.order.drop_last() =~= seq![a]);
        assert(seq![a].drop_last() =~= e0);
        assert(spec_broadcast(e0, a, mv) =~= Seq::<EnvelopeModel>::empty());
        assert(spec_broadcast(seq![a], a, mv) =~= Seq::<EnvelopeModel>::empty());
    }
    assert(st3.out =~= seq![EnvelopeModel { to: b, action: mv }]);
}

/// The authoritative registry: every tracked connection, every live world,
/// and the reverse index from connection to world seed.  One logical thread
/// owns a `Server` and feeds it events one at a time; nothing else mutates
/// this state.
pub struct Server {
    pub connections: Table<Connection>,
    pub worlds: Table<World>,
    pub user_worlds: Table<u32>,
}

impl View for Server {
    type V = ServerModel;

    open spec fn view(&self) -> ServerModel {
        ServerModel {
            connections: self.connections@,
            worlds: self.worlds@,
            user_worlds: self.user_worlds@,
        }
    }
}

impl Server {
    /// Well-formed: the tables hold no duplicate keys, every roster is in
    /// good standing, and membership and reverse index mirror each other.
    pub open spec fn wf(&self) -> bool {
        &&& self.connections.wf()
        &&& self.worlds.wf()
        &&& self.user_worlds.wf()
        &&& inv(self@)
    }

    /// A fresh core: nothing tracked, no worlds live.
    pub fn new() -> (s: Server)
        ensures
            s@.connections == Map::<ConnectionID, ConnectionModel>::empty(),
            s@.worlds == Map::<Seed, WorldModel>::empty(),
            s@.user_worlds == Map::<ConnectionID, Seed>::empty(),
            s.wf(),
    {
        Server {
            connections: Table::new(),
            worlds: Table::new(),
            user_worlds: Table::new(),
        }
    }

    /// Ends `id`'s world membership, as one piece of disconnection, logout
    /// and re-login.  Returns the `Leave` fan-out and whether a membership
    /// was found.
    fn teardown(&mut self, id: ConnectionID) -> (r: (Vec<Envelope>, bool))
        requires
            old(self).connections.wf(),
            old(self).worlds.wf(),
            old(self).user_worlds.wf(),
            inv(old(self)@),
        ensures
            final(self).connections.wf(),
            final(self).worlds.wf(),
            final(self).user_worlds.wf(),
            inv(final(self)@),
            final(self)@ == spec_teardown(old(self)@, id).0,
            envelope_views(r.0@) == spec_teardown(old(self)@, id).1,
            r.1 == spec_teardown(old(self)@, id).2,
    {
        let ghost s = self@;
        proof {
            lemma_teardown_inv(s, id);
        }
        match self.user_worlds.remove(id) {
            None => {
                proof {
                    assert(self.user_worlds@ =~= s.user_worlds);
                    assert(self@ =~= spec_teardown(s, id).0);
                    assert(envelope_views(Seq::<Envelope>::empty()) =~= Seq::<
                        EnvelopeModel,
                    >::empty());
                }
                (Vec::new(), false)
            },
            Some(seed) => {
                match self.worlds.remove(seed) {
                    None => {
                        // A membership always names a live world: the
                        // registry invariant rules this branch out.
                        proof {
                            assert(false);
                        }
                        (Vec::new(), true)
                    },
                    Some(mut world) => {
                        proof {
                            assert(world_ok(seed, s.worlds[seed]));
                            world.users.lemma_wf_order();
                        }
                        world.users.remove(id);
                        let out = world.broadcast(&ServerAction::Leave { id }, id);
                        if world.users.is_empty() {
                            proof {
                                assert(self@ =~= spec_teardown(s, id).0);
                            }
                            (out, true)
                        } else {
                            self.worlds.insert(seed, world);
                            proof {
                                assert(self.worlds@ =~= spec_teardown(s, id).0.worlds);
                                assert(self@ =~= spec_teardown(s, id).0);
                            }
                            (out, true)
                        }
                    },
                }
            },
        }
    }

    /// Handles a login for connection `id` presenting `seed` and `name`.
    fn login(&mut self, id: ConnectionID, seed: Seed, name: Vec<u8>) -> (r: Result<
        Vec<Envelope>,
        EventError,
    >)
        requires
            old(self).connections.wf(),
            old(self).worlds.wf(),
            old(self).user_worlds.wf(),
            inv(old(self)@),
        ensures
            final(self).connections.wf(),
            final(self).worlds.wf(),
            final(self).user_worlds.wf(),
            inv(final(self)@),
            final(self)@ == spec_login(old(self)@, id, seed, name@).state,
            match r {
                Ok(out) => spec_login(old(self)@, id, seed, name@).result is Ok
                    && envelope_views(out@) == spec_login(old(self)@, id, seed, name@).out,
                Err(e) => spec_login(old(self)@, id, seed, name@).result == Err::<(), EventError>(
                    e,
                ),
            },
    {
        let ghost s = self@;
        let ghost nm = name@;
        proof {
            lemma_login_inv(s, id, seed, nm);
        }
        if !self.connections.contains_key(id) {
            return Err(EventError::UnknownConnection);
        }
        let (mut out, _) = self.teardown(id);
        let ghost s0 = spec_teardown(s, id).0;
        proof {
            lemma_teardown_inv(s, id);
        }
        let mut world = match self.worlds.remove(seed) {
            Some(w) => w,
            None => World::new(seed),
        };
        let ghost w = world_or_new(s0.worlds, seed);
        proof {
            if s0.worlds.contains_key(seed) {
                assert(world_ok(seed, s0.worlds[seed]));
            }
            world.users.lemma_wf_order();
            assert(world@ == w);
        }
        let join = ServerAction::Join { id, name: name.clone() };
        let mut joins = world.broadcast(&join, id);
        out.append(&mut joins);
        let ghost base = spec_teardown(s, id).1 + spec_broadcast(w.order, id, ActionModel::Join {
            id,
            name: nm,
        });
        proof {
            assert(envelope_views(out@) =~= base + spec_snapshot(w.order.subrange(0, 0), w.users,
                id));
        }
        let mut i: usize = 0;
        let n = world.users.len();
        while i < n
            invariant
                world.wf(),
                world@ == w,
                n == w.order.len(),
                i <= n,
                envelope_views(out@) == base + spec_snapshot(w.order.subrange(0, i as int),
                    w.users, id),
            decreases n - i,
        {
            let uid = world.users.key_at(i);
            let member = world.users.value_at(i);
            let ghost j_env = EnvelopeModel {
                to: id,
                action: ActionModel::Join { id: uid, name: member.name@ },
            };
            let ghost m_env = EnvelopeModel {
                to: id,
                action: ActionModel::Transform {
                    id: uid,
                    position: member.position,
                    velocity: member.velocity,
                    rotation: member.rotation,
                },
            };
            let ghost out_before = out@;
            let member_join = ServerAction::Join { id: uid, name: member.name.clone() };
            let member_move = ServerAction::Transform {
                id: uid,
                position: member.position,
                velocity: member.velocity,
                rotation: member.rotation,
            };
            out.push(Envelope { to: id, action: member_join });
            out.push(Envelope { to: id, action: member_move });
            i = i + 1;
            proof {
                assert(envelope_views(out@) =~= envelope_views(out_before) + seq![j_env, m_env]);
                let pre = w.order.subrange(0, i - 1);
                let cur = w.order.subrange(0, i as int);
                assert(cur.drop_last() =~= pre);
                assert(cur.last() == w.order[i - 1]);
                assert(member@ == w.users[cur.last()]);
                assert(spec_snapshot(cur, w.users, id) == spec_snapshot(pre, w.users, id)
                    + seq![j_env, m_env]);
                assert(envelope_views(out@) =~= base + spec_snapshot(cur, w.users, id));
            }
        }
        proof {
            assert(w.order.subrange(0, n as int) =~= w.order);
        }
        let user = User::new(name);
        world.users.insert(id, user);
        self.worlds.insert(seed, world);
        self.user_worlds.insert(id, seed);
        proof {
            assert(self.worlds@ =~= spec_login(s, id, seed, nm).state.worlds);
            assert(self@ =~= spec_login(s, id, seed, nm).state);
        }
        Ok(out)
    }

    /// Handles a movement update from connection `id`.
    fn apply_move(&mut self, id: ConnectionID, position: Lanes, velocity: Lanes, rotation: Lanes)
        -> (r: Result<Vec<Envelope>, EventError>)
        requires
            old(self).connections.wf(),
            old(self).worlds.wf(),
            old(self).user_worlds.wf(),
            inv(old(self)@),
        ensures
            final(self).connections.wf(),
            final(self).worlds.wf(),
            final(self).user_worlds.wf(),
            inv(final(self)@),
            final(self)@ == spec_move(old(self)@, id, position, velocity, rotation).state,
            match r {
                Ok(out) => spec_move(old(self)@, id, position, velocity, rotation).result is Ok
                    && envelope_views(out@) == spec_move(old(self)@, id, position, velocity,
                    rotation,
                ).out,
                Err(e) => spec_move(old(self)@, id, position, velocity, rotation).result == Err::<
                    (),
                    EventError,
                >(e),
            },
    {
        let ghost s = self@;
        proof {
            lemma_move_inv(s, id, position, velocity, rotation);
        }
        let seed = match self.user_worlds.get(id) {
            Some(sd) => *sd,
            None => {
                return Err(EventError::NotLoggedIn);
            },
        };
        let mut world = match self.worlds.remove(seed) {
            Some(w) => w,
            None => {
                // A membership always names a live world: the registry
                // invariant rules this branch out.
                proof {
                    assert(false);
                }
                return Err(EventError::NotLoggedIn);
            },
        };
        proof {
            assert(world_ok(seed, s.worlds[seed]));
            world.users.lemma_wf_order();
        }
        let name = match world.users.get(id) {
            Some(member) => member.name.clone(),
            None => {
                // A member mapped to this world always stands on its roster:
                // the registry invariant rules this branch out.
                proof {
                    assert(false);
                }
                return Err(EventError::NotLoggedIn);
            },
        };
        let user = User { name, position, velocity, rotation };
        world.users.insert(id, user);
        let action = ServerAction::Transform { id, position, velocity, rotation };
        let out = world.broadcast(&action, id);
        self.worlds.insert(seed, world);
        proof {
            assert(self.worlds@ =~= spec_move(s, id, position, velocity, rotation).state.worlds);
            assert(self@ =~= spec_move(s, id, position, velocity, rotation).state);
        }
        Ok(out)
    }

    /// Applies one event to the registry: exactly one step of [`spec_step`].
    /// The returned envelopes are what the transport must now transmit, in
    /// order.  An `Err` is scoped to this event alone — the state is still
    /// exactly what [`spec_step`] says, and the caller goes on with the next
    /// event.
    pub fn process_next_event(&mut self, event: ServerEvent) -> (r: Result<
        Vec<Envelope>,
        EventError,
    >)
        requires
            old(self).wf(),
        ensures
            final(self).wf(),
            final(self)@ == spec_step(old(self)@, event@).state,
            match r {
                Ok(out) => spec_step(old(self)@, event@).result is Ok && envelope_views(out@)
                    == spec_step(old(self)@, event@).out,
                Err(e) => spec_step(old(self)@, event@).result == Err::<(), EventError>(e)
                    && spec_step(old(self)@, event@).out == Seq::<EnvelopeModel>::empty(),
            },
    {
        let ghost s = self@;
        let ghost ev = event@;
        proof {
            lemma_step_inv(s, ev);
        }
        match event {
            ServerEvent::Connection { sender_id } => {
                self.connections.insert(sender_id, Connection::new());
                Ok(Vec::new())
            },
            ServerEvent::Handshake { sender_id, shake } => {
                if self.connections.contains_key(sender_id) {
                    self.connections.insert(sender_id, Connection { shake: Some(shake) });
                }
                Ok(Vec::new())
            },
            ServerEvent::Disconnection { sender_id, code: _, reason: _ } => {
                self.connections.remove(sender_id);
                let (out, found) = self.teardown(sender_id);
                if found {
                    Ok(out)
                } else {
                    Err(EventError::NotLoggedIn)
                }
            },
            ServerEvent::Action { sender_id, action } => match action {
                ServerAction::Noop => Ok(Vec::new()),
                ServerAction::Login { seed, name } => self.login(sender_id, seed, name),
                ServerAction::Logout => {
                    let (out, found) = self.teardown(sender_id);
                    if found {
                        Ok(out)
                    } else {
                        Err(EventError::NotLoggedIn)
                    }
                },
                ServerAction::Transform { id: _, position, velocity, rotation } => {
                    self.apply_move(sender_id, position, velocity, rotation)
                },
                _ => Err(EventError::UnsupportedAction),
            },
        }
    }
}

impl Default for Server {
    /// Same as [`Server::new`].
    fn default() -> (s: Server)
        ensures
            s@.connections == Map::<ConnectionID, ConnectionModel>::empty(),
            s@.worlds == Map::<Seed, WorldModel>::empty(),
            s@.user_worlds == Map::<ConnectionID, Seed>::empty(),
            s.wf(),
    {
        Server::new()
    }
}

} // verus!
