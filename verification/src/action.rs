//! The wire codec: typed actions to and from fixed little-endian binary
//! layouts.
//!
//! Every action is a tagged union on the wire: a four-byte little-endian
//! discriminant followed by a fixed-layout payload.  The only variable parts
//! are the name and prefab fields, each written as an eight-byte
//! little-endian length followed by that many raw bytes.  Spatial components
//! travel as raw 32-bit lanes (IEEE-754 single-precision bit patterns); the
//! relay stores and forwards them and never does arithmetic on them, so the
//! core carries them as `u32` bit patterns end to end.
//!
//! Names and prefabs are likewise carried as raw bytes: the relay forwards
//! them verbatim, and whether they are well-formed UTF-8 is the display
//! layer's concern, never a decode failure.

use vstd::prelude::*;

verus! {

/// Three spatial lanes (x, y, z), each a raw 32-bit bit pattern.
pub type Lanes = (u32, u32, u32);

/// Message sent between server and user or vice versa.
#[derive(Debug)]
pub enum ServerAction {
    Noop,
    Login { seed: u32, name: Vec<u8> },
    Logout,
    Join { id: u32, name: Vec<u8> },
    Leave { id: u32 },
    Transform { id: u32, position: Lanes, velocity: Lanes, rotation: Lanes },
    Spawn { id: u32, position: Lanes, velocity: Lanes, rotation: Lanes, prefab: Vec<u8> },
    Despawn { id: u32 },
    Damage { id: u32, position: Lanes },
}

/// Mathematical model of a [`ServerAction`]: byte fields become sequences.
#[verifier::ext_equal]
pub enum ActionModel {
    Noop,
    Login { seed: u32, name: Seq<u8> },
    Logout,
    Join { id: u32, name: Seq<u8> },
    Leave { id: u32 },
    Transform { id: u32, position: Lanes, velocity: Lanes, rotation: Lanes },
    Spawn { id: u32, position: Lanes, velocity: Lanes, rotation: Lanes, prefab: Seq<u8> },
    Despawn { id: u32 },
    Damage { id: u32, position: Lanes },
}

impl View for ServerAction {
    type V = ActionModel;

    open spec fn view(&self) -> ActionModel {
        match *self {
            ServerAction::Noop => ActionModel::Noop,
            ServerAction::Login { seed, ref name } => ActionModel::Login { seed, name: name@ },
            ServerAction::Logout => ActionModel::Logout,
            ServerAction::Join { id, ref name } => ActionModel::Join { id, name: name@ },
            ServerAction::Leave { id } => ActionModel::Leave { id },
            ServerAction::Transform { id, position, velocity, rotation } => {
                ActionModel::Transform { id, position, velocity, rotation }
            },
            ServerAction::Spawn { id, position, velocity, rotation, ref prefab } => {
                ActionModel::Spawn { id, position, velocity, rotation, prefab: prefab@ }
            },
            ServerAction::Despawn { id } => ActionModel::Despawn { id },
            ServerAction::Damage { id, position } => ActionModel::Damage { id, position },
        }
    }
}

impl Clone for ServerAction {
    /// Cloning keeps the action's model exactly.
    fn clone(&self) -> (r: Self)
        ensures
            r@ == self@,
    {
        match self {
            ServerAction::Noop => ServerAction::Noop,
            ServerAction::Login { seed, name } => {
                let name2 = name.clone();
                proof {
                    assert(name2@ =~= name@);
                }
                ServerAction::Login { seed: *seed, name: name2 }
            },
            ServerAction::Logout => ServerAction::Logout,
            ServerAction::Join { id, name } => {
                let name2 = name.clone();
                proof {
                    assert(name2@ =~= name@);
                }
                ServerAction::Join { id: *id, name: name2 }
            },
            ServerAction::Leave { id } => ServerAction::Leave { id: *id },
            ServerAction::Transform { id, position, velocity, rotation } => {
                ServerAction::Transform {
                    id: *id,
                    position: *position,
                    velocity: *velocity,
                    rotation: *rotation,
                }
            },
            ServerAction::Spawn { id, position, velocity, rotation, prefab } => {
                let prefab2 = prefab.clone();
                proof {
                    assert(prefab2@ =~= prefab@);
                }
                ServerAction::Spawn {
                    id: *id,
                    position: *position,
                    velocity: *velocity,
                    rotation: *rotation,
                    prefab: prefab2,
                }
            },
            ServerAction::Despawn { id } => ServerAction::Despawn { id: *id },
            ServerAction::Damage { id, position } => {
                ServerAction::Damage { id: *id, position: *position }
            },
        }
    }
}

impl PartialEq for ServerAction {
    /// Two actions are equal exactly when their models are.
    fn eq(&self, other: &Self) -> (r: bool) {
        match (self, other) {
            (ServerAction::Noop, ServerAction::Noop) => true,
            (
                ServerAction::Login { seed: s1, name: n1 },
                ServerAction::Login { seed: s2, name: n2 },
            ) => {
                let r = *s1 == *s2 && n1 == n2;
                proof {
                    // Case split so extensionality can equate the name views.
                    if n1@ =~= n2@ {
                    }
                }
                r
            },
            (ServerAction::Logout, ServerAction::Logout) => true,
            (
                ServerAction::Join { id: i1, name: n1 },
                ServerAction::Join { id: i2, name: n2 },
            ) => {
                let r = *i1 == *i2 && n1 == n2;
                proof {
                    // Case split so extensionality can equate the name views.
                    if n1@ =~= n2@ {
                    }
                }
                r
            },
            (ServerAction::Leave { id: i1 }, ServerAction::Leave { id: i2 }) => *i1 == *i2,
            (
                ServerAction::Transform { id: i1, position: p1, velocity: v1, rotation: r1 },
                ServerAction::Transform { id: i2, position: p2, velocity: v2, rotation: r2 },
            ) => {
                *i1 == *i2 && p1.0 == p2.0 && p1.1 == p2.1 && p1.2 == p2.2 && v1.0 == v2.0
                    && v1.1 == v2.1 && v1.2 == v2.2 && r1.0 == r2.0 && r1.1 == r2.1
                    && r1.2 == r2.2
            },
            (
                ServerAction::Spawn { id: i1, position: p1, velocity: v1, rotation: r1, prefab: f1 },
                ServerAction::Spawn { id: i2, position: p2, velocity: v2, rotation: r2, prefab: f2 },
            ) => {
                let r = *i1 == *i2 && p1.0 == p2.0 && p1.1 == p2.1 && p1.2 == p2.2 && v1.0 == v2.0
                    && v1.1 == v2.1 && v1.2 == v2.2 && r1.0 == r2.0 && r1.1 == r2.1 && r1.2 == r2.2
                    && f1 == f2;
                proof {
                    // Case split so extensionality can equate the prefab views.
                    if f1@ =~= f2@ {
                    }
                }
                r
            },
            (ServerAction::Despawn { id: i1 }, ServerAction::Despawn { id: i2 }) => *i1 == *i2,
            (
                ServerAction::Damage { id: i1, position: p1 },
                ServerAction::Damage { id: i2, position: p2 },
            ) => *i1 == *i2 && p1.0 == p2.0 && p1.1 == p2.1 && p1.2 == p2.2,
            _ => false,
        }
    }
}

impl vstd::std_specs::cmp::PartialEqSpecImpl for ServerAction {
    open spec fn obeys_eq_spec() -> bool {
        true
    }

    open spec fn eq_spec(&self, other: &Self) -> bool {
        self@ == other@
    }
}

/// Little-endian byte image of a 32-bit value.
pub open spec fn le32(x: u32) -> Seq<u8> {
    seq![
        (x & 0xff) as u8,
        ((x >> 8) & 0xff) as u8,
        ((x >> 16) & 0xff) as u8,
        ((x >> 24) & 0xff) as u8,
    ]
}

/// Little-endian byte image of a 64-bit value.
pub open spec fn le64(x: u64) -> Seq<u8> {
    seq![
        (x & 0xff) as u8,
        ((x >> 8) & 0xff) as u8,
        ((x >> 16) & 0xff) as u8,
        ((x >> 24) & 0xff) as u8,
        ((x >> 32) & 0xff) as u8,
        ((x >> 40) & 0xff) as u8,
        ((x >> 48) & 0xff) as u8,
        ((x >> 56) & 0xff) as u8,
    ]
}

/// The 32-bit value whose little-endian byte image is `b0 b1 b2 b3`.
pub open spec fn u32_of_le(b0: u8, b1: u8, b2: u8, b3: u8) -> u32 {
    (b0 as u32) | ((b1 as u32) << 8) | ((b2 as u32) << 16) | ((b3 as u32) << 24)
}

/// The 64-bit value whose little-endian byte image is `b0 .. b7`.
pub open spec fn u64_of_le(b0: u8, b1: u8, b2: u8, b3: u8, b4: u8, b5: u8, b6: u8, b7: u8) -> u64 {
    (b0 as u64) | ((b1 as u64) << 8) | ((b2 as u64) << 16) | ((b3 as u64) << 24)
        | ((b4 as u64) << 32) | ((b5 as u64) << 40) | ((b6 as u64) << 48) | ((b7 as u64) << 56)
}

/// Byte image of three spatial lanes.
pub open spec fn lanes_le(v: Lanes) -> Seq<u8> {
    le32(v.0) + le32(v.1) + le32(v.2)
}

/// The exact byte sequence an action encodes to.
pub open spec fn spec_encode(a: ActionModel) -> Seq<u8> {
    match a {
        ActionModel::Noop => le32(0),
        ActionModel::Login { seed, name } => le32(1) + le32(seed) + le64(name.len() as u64) + name,
        ActionModel::Logout => le32(2),
        ActionModel::Join { id, name } => le32(3) + le32(id) + le64(name.len() as u64) + name,
        ActionModel::Leave { id } => le32(4) + le32(id),
        ActionModel::Transform { id, position, velocity, rotation } => {
            le32(5) + le32(id) + lanes_le(position) + lanes_le(velocity) + lanes_le(rotation)
        },
        ActionModel::Spawn { id, position, velocity, rotation, prefab } => {
            le32(6) + le32(id) + lanes_le(position) + lanes_le(velocity) + lanes_le(rotation)
                + le64(prefab.len() as u64) + prefab
        },
        ActionModel::Despawn { id } => le32(7) + le32(id),
        ActionModel::Damage { id, position } => le32(8) + le32(id) + lanes_le(position),
    }
}

/// Appends the little-endian image of `x` to `out`.
fn push_u32_le(out: &mut Vec<u8>, x: u32)
    ensures
        final(out)@ == old(out)@ + le32(x),
{
    out.push((x & 0xff) as u8);
    out.push(((x >> 8) & 0xff) as u8);
    out.push(((x >> 16) & 0xff) as u8);
    out.push(((x >> 24) & 0xff) as u8);
    proof {
        assert(final(out)@ =~= old(out)@ + le32(x));
    }
}

/// Appends the little-endian image of `x` to `out`.
fn push_u64_le(out: &mut Vec<u8>, x: u64)
    ensures
        final(out)@ == old(out)@ + le64(x),
{
    out.push((x & 0xff) as u8);
    out.push(((x >> 8) & 0xff) as u8);
    out.push(((x >> 16) & 0xff) as u8);
    out.push(((x >> 24) & 0xff) as u8);
    out.push(((x >> 32) & 0xff) as u8);
    out.push(((x >> 40) & 0xff) as u8);
    out.push(((x >> 48) & 0xff) as u8);
    out.push(((x >> 56) & 0xff) as u8);
    proof {
        assert(final(out)@ =~= old(out)@ + le64(x));
    }
}

/// Appends a copy of `bytes` to `out`.
fn push_bytes(out: &mut Vec<u8>, bytes: &Vec<u8>)
    ensures
        final(out)@ == old(out)@ + bytes@,
{
    let mut i: usize = 0;
    while i < bytes.len()
        invariant
            i <= bytes@.len(),
            out@ == old(out)@ + bytes@.subrange(0, i as int),
        decreases bytes@.len() - i,
    {
        out.push(bytes[i]);
        i = i + 1;
        proof {
            assert(out@ =~= old(out)@ + bytes@.subrange(0, i as int));
        }
    }
    proof {
        assert(bytes@.subrange(0, bytes@.len() as int) =~= bytes@);
    }
}

/// Appends the byte image of three lanes to `out`.
fn push_lanes_le(out: &mut Vec<u8>, v: Lanes)
    ensures
        final(out)@ == old(out)@ + lanes_le(v),
{
    push_u32_le(out, v.0);
    push_u32_le(out, v.1);
    push_u32_le(out, v.2);
}

impl ServerAction {
    /// Encodes the action into its wire image.  Encoding never fails; the
    /// `Result` stands so that a transport holding the other end of the
    /// contract always has a buffer to send.
    pub fn encode(&self) -> (r: Result<Vec<u8>, CodecError>)
        ensures
            r is Ok,
            r matches Ok(bytes) ==> bytes@ == spec_encode(self@),
    {
        let mut out: Vec<u8> = Vec::new();
        match self {
            ServerAction::Noop => {
                push_u32_le(&mut out, 0);
            },
            ServerAction::Login { seed, name } => {
                push_u32_le(&mut out, 1);
                push_u32_le(&mut out, *seed);
                push_u64_le(&mut out, name.len() as u64);
                push_bytes(&mut out, name);
            },
            ServerAction::Logout => {
                push_u32_le(&mut out, 2);
            },
            ServerAction::Join { id, name } => {
                push_u32_le(&mut out, 3);
                push_u32_le(&mut out, *id);
                push_u64_le(&mut out, name.len() as u64);
                push_bytes(&mut out, name);
            },
            ServerAction::Leave { id } => {
                push_u32_le(&mut out, 4);
                push_u32_le(&mut out, *id);
            },
            ServerAction::Transform { id, position, velocity, rotation } => {
                push_u32_le(&mut out, 5);
                push_u32_le(&mut out, *id);
                push_lanes_le(&mut out, *position);
                push_lanes_le(&mut out, *velocity);
                push_lanes_le(&mut out, *rotation);
            },
            ServerAction::Spawn { id, position, velocity, rotation, prefab } => {
                push_u32_le(&mut out, 6);
                push_u32_le(&mut out, *id);
                push_lanes_le(&mut out, *position);
                push_lanes_le(&mut out, *velocity);
                push_lanes_le(&mut out, *rotation);
                push_u64_le(&mut out, prefab.len() as u64);
                push_bytes(&mut out, prefab);
            },
            ServerAction::Despawn { id } => {
                push_u32_le(&mut out, 7);
                push_u32_le(&mut out, *id);
            },
            ServerAction::Damage { id, position } => {
                push_u32_le(&mut out, 8);
                push_u32_le(&mut out, *id);
                push_lanes_le(&mut out, *position);
            },
        }
        Ok(out)
    }
}

/// The 32-bit value laid out little-endian at offset `i` of `b`.
pub open spec fn u32_at(b: Seq<u8>, i: int) -> u32 {
    u32_of_le(b[i], b[i + 1], b[i + 2], b[i + 3])
}

/// The 64-bit value laid out little-endian at offset `i` of `b`.
pub open spec fn u64_at(b: Seq<u8>, i: int) -> u64 {
    u64_of_le(b[i], b[i + 1], b[i + 2], b[i + 3], b[i + 4], b[i + 5], b[i + 6], b[i + 7])
}

/// The three lanes laid out at offset `i` of `b`.
pub open spec fn lanes_at(b: Seq<u8>, i: int) -> Lanes {
    (u32_at(b, i), u32_at(b, i + 4), u32_at(b, i + 8))
}

/// Ceiling on the length of an untrusted buffer handed to decode.
pub const DECODE_LIMIT: usize = 1024;

/// The action a byte buffer decodes to, or why it does not.
///
/// A buffer over [`DECODE_LIMIT`] bytes is rejected outright.  Otherwise the
/// first four bytes pick the variant; a buffer shorter than that variant's
/// minimum length is rejected as truncated, and bytes beyond the payload are
/// tolerated for forward compatibility.  An unknown discriminant is an
/// explicit failure, never reinterpreted as another variant.
pub open spec fn spec_decode(b: Seq<u8>) -> Result<ActionModel, CodecError> {
    if b.len() > DECODE_LIMIT {
        Err(CodecError::Oversized)
    } else if b.len() < 4 {
        Err(CodecError::Truncated)
    } else {
        let tag = u32_at(b, 0);
        if tag == 0 {
            Ok(ActionModel::Noop)
        } else if tag == 1 {
            if b.len() < 16 {
                Err(CodecError::Truncated)
            } else if u64_at(b, 8) > b.len() - 16 {
                Err(CodecError::Truncated)
            } else {
                Ok(ActionModel::Login {
                    seed: u32_at(b, 4),
                    name: b.subrange(16, 16 + u64_at(b, 8) as int),
                })
            }
        } else if tag == 2 {
            Ok(ActionModel::Logout)
        } else if tag == 3 {
            if b.len() < 16 {
                Err(CodecError::Truncated)
            } else if u64_at(b, 8) > b.len() - 16 {
                Err(CodecError::Truncated)
            } else {
                Ok(ActionModel::Join {
                    id: u32_at(b, 4),
                    name: b.subrange(16, 16 + u64_at(b, 8) as int),
                })
            }
        } else if tag == 4 {
            if b.len() < 8 {
                Err(CodecError::Truncated)
            } else {
                Ok(ActionModel::Leave { id: u32_at(b, 4) })
            }
        } else if tag == 5 {
            if b.len() < 44 {
                Err(CodecError::Truncated)
            } else {
                Ok(ActionModel::Transform {
                    id: u32_at(b, 4),
                    position: lanes_at(b, 8),
                    velocity: lanes_at(b, 20),
                    rotation: lanes_at(b, 32),
                })
            }
        } else if tag == 6 {
            if b.len() < 52 {
                Err(CodecError::Truncated)
            } else if u64_at(b, 44) > b.len() - 52 {
                Err(CodecError::Truncated)
            } else {
                Ok(ActionModel::Spawn {
                    id: u32_at(b, 4),
                    position: lanes_at(b, 8),
                    velocity: lanes_at(b, 20),
                    rotation: lanes_at(b, 32),
                    prefab: b.subrange(52, 52 + u64_at(b, 44) as int),
                })
            }
        } else if tag == 7 {
            if b.len() < 8 {
                Err(CodecError::Truncated)
            } else {
                Ok(ActionModel::Despawn { id: u32_at(b, 4) })
            }
        } else if tag == 8 {
            if b.len() < 20 {
                Err(CodecError::Truncated)
            } else {
                Ok(ActionModel::Damage { id: u32_at(b, 4), position: lanes_at(b, 8) })
            }
        } else {
            Err(CodecError::UnknownDiscriminant)
        }
    }
}

/// Reads the 32-bit little-endian value at offset `i`.
fn read_u32_le(data: &[u8], i: usize) -> (x: u32)
    requires
        data@.len() <= DECODE_LIMIT,
        i + 4 <= data@.len(),
    ensures
        x == u32_at(data@, i as int),
{
    (data[i] as u32) | ((data[i + 1] as u32) << 8) | ((data[i + 2] as u32) << 16)
        | ((data[i + 3] as u32) << 24)
}

/// Reads the 64-bit little-endian value at offset `i`.
fn read_u64_le(data: &[u8], i: usize) -> (x: u64)
    requires
        data@.len() <= DECODE_LIMIT,
        i + 8 <= data@.len(),
    ensures
        x == u64_at(data@, i as int),
{
    (data[i] as u64) | ((data[i + 1] as u64) << 8) | ((data[i + 2] as u64) << 16)
        | ((data[i + 3] as u64) << 24) | ((data[i + 4] as u64) << 32)
        | ((data[i + 5] as u64) << 40) | ((data[i + 6] as u64) << 48)
        | ((data[i + 7] as u64) << 56)
}

/// Reads three lanes laid out at offset `i`.
fn read_lanes(data: &[u8], i: usize) -> (v: Lanes)
    requires
        data@.len() <= DECODE_LIMIT,
        i + 12 <= data@.len(),
    ensures
        v == lanes_at(data@, i as int),
{
    (read_u32_le(data, i), read_u32_le(data, i + 4), read_u32_le(data, i + 8))
}

/// Copies `n` bytes starting at offset `start` into a fresh buffer.
fn read_bytes(data: &[u8], start: usize, n: usize) -> (v: Vec<u8>)
    requires
        data@.len() <= DECODE_LIMIT,
        start + n <= data@.len(),
    ensures
        v@ == data@.subrange(start as int, start as int + n as int),
{
    let piece = vstd::slice::slice_subrange(data, start, start + n);
    vstd::slice::slice_to_vec(piece)
}

impl ServerAction {
    /// Decodes one untrusted buffer, exactly as [`spec_decode`] reads it.
    pub fn decode(data: &[u8]) -> (r: Result<ServerAction, CodecError>)
        ensures
            data@.len() > DECODE_LIMIT ==> r == Err::<ServerAction, CodecError>(
                CodecError::Oversized,
            ),
            match spec_decode(data@) {
                Ok(m) => r matches Ok(a) && a@ == m,
                Err(e) => r matches Err(got) && got == e,
            },
    {
        if data.len() > DECODE_LIMIT {
            return Err(CodecError::Oversized);
        }
        if data.len() < 4 {
            return Err(CodecError::Truncated);
        }
        let tag = read_u32_le(data, 0);
        match tag {
            0 => Ok(ServerAction::Noop),
            1 => {
                if data.len() < 16 {
                    return Err(CodecError::Truncated);
                }
                let n = read_u64_le(data, 8);
                if n > (data.len() - 16) as u64 {
                    return Err(CodecError::Truncated);
                }
                let seed = read_u32_le(data, 4);
                let name = read_bytes(data, 16, n as usize);
                Ok(ServerAction::Login { seed, name })
            },
            2 => Ok(ServerAction::Logout),
            3 => {
                if data.len() < 16 {
                    return Err(CodecError::Truncated);
                }
                let n = read_u64_le(data, 8);
                if n > (data.len() - 16) as u64 {
                    return Err(CodecError::Truncated);
                }
                let id = read_u32_le(data, 4);
                let name = read_bytes(data, 16, n as usize);
                Ok(ServerAction::Join { id, name })
            },
            4 => {
                if data.len() < 8 {
                    return Err(CodecError::Truncated);
                }
                Ok(ServerAction::Leave { id: read_u32_le(data, 4) })
            },
            5 => {
                if data.len() < 44 {
                    return Err(CodecError::Truncated);
                }
                Ok(ServerAction::Transform {
                    id: read_u32_le(data, 4),
                    position: read_lanes(data, 8),
                    velocity: read_lanes(data, 20),
                    rotation: read_lanes(data, 32),
                })
            },
            6 => {
                if data.len() < 52 {
                    return Err(CodecError::Truncated);
                }
                let n = read_u64_le(data, 44);
                if n > (data.len() - 52) as u64 {
                    return Err(CodecError::Truncated);
                }
                Ok(ServerAction::Spawn {
                    id: read_u32_le(data, 4),
                    position: read_lanes(data, 8),
                    velocity: read_lanes(data, 20),
                    rotation: read_lanes(data, 32),
                    prefab: read_bytes(data, 52, n as usize),
                })
            },
            7 => {
                if data.len() < 8 {
                    return Err(CodecError::Truncated);
                }
                Ok(ServerAction::Despawn { id: read_u32_le(data, 4) })
            },
            8 => {
                if data.len() < 20 {
                    return Err(CodecError::Truncated);
                }
                Ok(ServerAction::Damage {
                    id: read_u32_le(data, 4),
                    position: read_lanes(data, 8),
                })
            },
            _ => Err(CodecError::UnknownDiscriminant),
        }
    }
}

proof fn lemma_le32_roundtrip(x: u32)
    ensures
        u32_of_le(le32(x)[0], le32(x)[1], le32(x)[2], le32(x)[3]) == x,
{
    assert((((x & 0xff) as u8) as u32) | (((((x >> 8) & 0xff) as u8) as u32) << 8)
        | (((((x >> 16) & 0xff) as u8) as u32) << 16) | (((((x >> 24) & 0xff) as u8) as u32) << 24)
        == x) by (bit_vector);
}

proof fn lemma_le64_roundtrip(x: u64)
    ensures
        u64_of_le(
            le64(x)[0], le64(x)[1], le64(x)[2], le64(x)[3],
            le64(x)[4], le64(x)[5], le64(x)[6], le64(x)[7],
        ) == x,
{
    assert((((x & 0xff) as u8) as u64) | (((((x >> 8) & 0xff) as u8) as u64) << 8)
        | (((((x >> 16) & 0xff) as u8) as u64) << 16) | (((((x >> 24) & 0xff) as u8) as u64) << 24)
        | (((((x >> 32) & 0xff) as u8) as u64) << 32) | (((((x >> 40) & 0xff) as u8) as u64) << 40)
        | (((((x >> 48) & 0xff) as u8) as u64) << 48) | (((((x >> 56) & 0xff) as u8) as u64) << 56)
        == x) by (bit_vector);
}

proof fn lemma_u32_embed(pre: Seq<u8>, x: u32, post: Seq<u8>)
    ensures
        u32_at(pre + le32(x) + post, pre.len() as int) == x,
{
    let b = pre + le32(x) + post;
    assert(b[pre.len() as int] == le32(x)[0]);
    assert(b[pre.len() as int + 1] == le32(x)[1]);
    assert(b[pre.len() as int + 2] == le32(x)[2]);
    assert(b[pre.len() as int + 3] == le32(x)[3]);
    lemma_le32_roundtrip(x);
}

proof fn lemma_u64_embed(pre: Seq<u8>, x: u64, post: Seq<u8>)
    ensures
        u64_at(pre + le64(x) + post, pre.len() as int) == x,
{
    let b = pre + le64(x) + post;
    assert(b[pre.len() as int] == le64(x)[0]);
    assert(b[pre.len() as int + 1] == le64(x)[1]);
    assert(b[pre.len() as int + 2] == le64(x)[2]);
    assert(b[pre.len() as int + 3] == le64(x)[3]);
    assert(b[pre.len() as int + 4] == le64(x)[4]);
    assert(b[pre.len() as int + 5] == le64(x)[5]);
    assert(b[pre.len() as int + 6] == le64(x)[6]);
    assert(b[pre.len() as int + 7] == le64(x)[7]);
    lemma_le64_roundtrip(x);
}

proof fn lemma_lanes_embed(pre: Seq<u8>, v: Lanes, post: Seq<u8>)
    ensures
        lanes_at(pre + lanes_le(v) + post, pre.len() as int) == v,
{
    let b = pre + lanes_le(v) + post;
    assert(b =~= pre + le32(v.0) + (le32(v.1) + le32(v.2) + post));
    lemma_u32_embed(pre, v.0, le32(v.1) + le32(v.2) + post);
    assert(b =~= (pre + le32(v.0)) + le32(v.1) + (le32(v.2) + post));
    lemma_u32_embed(pre + le32(v.0), v.1, le32(v.2) + post);
    assert(b =~= (pre + le32(v.0) + le32(v.1)) + le32(v.2) + post);
    lemma_u32_embed(pre + le32(v.0) + le32(v.1), v.2, post);
}

proof fn lemma_tail_embed(pre: Seq<u8>, tail: Seq<u8>)
    ensures
        (pre + tail).subrange(pre.len() as int, (pre.len() + tail.len()) as int) == tail,
{
    assert((pre + tail).subrange(pre.len() as int, (pre.len() + tail.len()) as int) =~= tail);
}

proof fn lemma_rt_noop()
    ensures
        spec_decode(spec_encode(ActionModel::Noop)) == Ok::<ActionModel, CodecError>(
            ActionModel::Noop,
        ),
{
    let e = spec_encode(ActionModel::Noop);
    assert(e =~= Seq::<u8>::empty() + le32(0) + Seq::<u8>::empty());
    lemma_u32_embed(Seq::<u8>::empty(), 0, Seq::<u8>::empty());
}

proof fn lemma_rt_logout()
    ensures
        spec_decode(spec_encode(ActionModel::Logout)) == Ok::<ActionModel, CodecError>(
            ActionModel::Logout,
        ),
{
    let e = spec_encode(ActionModel::Logout);
    assert(e =~= Seq::<u8>::empty() + le32(2) + Seq::<u8>::empty());
    lemma_u32_embed(Seq::<u8>::empty(), 2, Seq::<u8>::empty());
}

proof fn lemma_rt_named(tag: u32, id: u32, name: Seq<u8>)
    requires
        tag == 1 || tag == 3,
        16 + name.len() <= DECODE_LIMIT,
    ensures
        u32_at(le32(tag) + le32(id) + le64(name.len() as u64) + name, 0) == tag,
        u32_at(le32(tag) + le32(id) + le64(name.len() as u64) + name, 4) == id,
        u64_at(le32(tag) + le32(id) + le64(name.len() as u64) + name, 8) == name.len() as u64,
        (le32(tag) + le32(id) + le64(name.len() as u64) + name).subrange(
            16,
            16 + name.len() as int,
        ) == name,
{
    let n = name.len() as u64;
    let e = le32(tag) + le32(id) + le64(n) + name;
    assert(e =~= Seq::<u8>::empty() + le32(tag) + (le32(id) + le64(n) + name));
    lemma_u32_embed(Seq::<u8>::empty(), tag, le32(id) + le64(n) + name);
    assert(e =~= le32(tag) + le32(id) + (le64(n) + name));
    lemma_u32_embed(le32(tag), id, le64(n) + name);
    assert(e =~= (le32(tag) + le32(id)) + le64(n) + name);
    lemma_u64_embed(le32(tag) + le32(id), n, name);
    assert(e =~= (le32(tag) + le32(id) + le64(n)) + name);
    lemma_tail_embed(le32(tag) + le32(id) + le64(n), name);
}

proof fn lemma_rt_id_only(tag: u32, id: u32)
    ensures
        u32_at(le32(tag) + le32(id), 0) == tag,
        u32_at(le32(tag) + le32(id), 4) == id,
{
    let e = le32(tag) + le32(id);
    assert(e =~= Seq::<u8>::empty() + le32(tag) + le32(id));
    lemma_u32_embed(Seq::<u8>::empty(), tag, le32(id));
    assert(e =~= le32(tag) + le32(id) + Seq::<u8>::empty());
    lemma_u32_embed(le32(tag), id, Seq::<u8>::empty());
}

proof fn lemma_rt_spatial(tag: u32, id: u32, position: Lanes, velocity: Lanes, rotation: Lanes, post: Seq<u8>)
    ensures
        u32_at(le32(tag) + le32(id) + lanes_le(position) + lanes_le(velocity)
            + lanes_le(rotation) + post, 0) == tag,
        u32_at(le32(tag) + le32(id) + lanes_le(position) + lanes_le(velocity)
            + lanes_le(rotation) + post, 4) == id,
        lanes_at(le32(tag) + le32(id) + lanes_le(position) + lanes_le(velocity)
            + lanes_le(rotation) + post, 8) == position,
        lanes_at(le32(tag) + le32(id) + lanes_le(position) + lanes_le(velocity)
            + lanes_le(rotation) + post, 20) == velocity,
        lanes_at(le32(tag) + le32(id) + lanes_le(position) + lanes_le(velocity)
            + lanes_le(rotation) + post, 32) == rotation,
{
    let e = le32(tag) + le32(id) + lanes_le(position) + lanes_le(velocity) + lanes_le(rotation)
        + post;
    assert(e =~= Seq::<u8>::empty() + le32(tag) + (le32(id) + lanes_le(position)
        + lanes_le(velocity) + lanes_le(rotation) + post));
    lemma_u32_embed(Seq::<u8>::empty(), tag, le32(id) + lanes_le(position) + lanes_le(velocity)
        + lanes_le(rotation) + post);
    assert(e =~= le32(tag) + le32(id) + (lanes_le(position) + lanes_le(velocity)
        + lanes_le(rotation) + post));
    lemma_u32_embed(le32(tag), id, lanes_le(position) + lanes_le(velocity) + lanes_le(rotation)
        + post);
    let p1 = le32(tag) + le32(id);
    assert(e =~= p1 + lanes_le(position) + (lanes_le(velocity) + lanes_le(rotation) + post));
    lemma_lanes_embed(p1, position, lanes_le(velocity) + lanes_le(rotation) + post);
    let p2 = p1 + lanes_le(position);
    assert(e =~= p2 + lanes_le(velocity) + (lanes_le(rotation) + post));
    lemma_lanes_embed(p2, velocity, lanes_le(rotation) + post);
    let p3 = p2 + lanes_le(velocity);
    assert(e =~= p3 + lanes_le(rotation) + post);
    lemma_lanes_embed(p3, rotation, post);
}

proof fn lemma_rt_login(seed: u32, name: Seq<u8>)
    requires
        spec_encode(ActionModel::Login { seed, name }).len() <= DECODE_LIMIT,
    ensures
        spec_decode(spec_encode(ActionModel::Login { seed, name }))
            == Ok::<ActionModel, CodecError>(ActionModel::Login { seed, name }),
{
    lemma_rt_named(1, seed, name);
}

proof fn lemma_rt_join(id: u32, name: Seq<u8>)
    requires
        spec_encode(ActionModel::Join { id, name }).len() <= DECODE_LIMIT,
    ensures
        spec_decode(spec_encode(ActionModel::Join { id, name }))
            == Ok::<ActionModel, CodecError>(ActionModel::Join { id, name }),
{
    lemma_rt_named(3, id, name);
}

proof fn lemma_rt_transform(id: u32, position: Lanes, velocity: Lanes, rotation: Lanes)
    ensures
        spec_decode(spec_encode(ActionModel::Transform { id, position, velocity, rotation }))
            == Ok::<ActionModel, CodecError>(ActionModel::Transform {
            id,
            position,
            velocity,
            rotation,
        }),
{
    let e = spec_encode(ActionModel::Transform { id, position, velocity, rotation });
    lemma_rt_spatial(5, id, position, velocity, rotation, Seq::<u8>::empty());
    assert(e =~= le32(5) + le32(id) + lanes_le(position) + lanes_le(velocity)
        + lanes_le(rotation) + Seq::<u8>::empty());
}

#[verifier::rlimit(60)]
proof fn lemma_rt_spawn(id: u32, position: Lanes, velocity: Lanes, rotation: Lanes, prefab: Seq<u8>)
    requires
        spec_encode(ActionModel::Spawn { id, position, velocity, rotation, prefab }).len()
            <= DECODE_LIMIT,
    ensures
        spec_decode(spec_encode(ActionModel::Spawn { id, position, velocity, rotation, prefab }))
            == Ok::<ActionModel, CodecError>(ActionModel::Spawn {
            id,
            position,
            velocity,
            rotation,
            prefab,
        }),
{
    let n = prefab.len() as u64;
    let e = spec_encode(ActionModel::Spawn { id, position, velocity, rotation, prefab });
    lemma_rt_spatial(6, id, position, velocity, rotation, le64(n) + prefab);
    assert(e =~= le32(6) + le32(id) + lanes_le(position) + lanes_le(velocity)
        + lanes_le(rotation) + (le64(n) + prefab));
    let p4 = le32(6) + le32(id) + lanes_le(position) + lanes_le(velocity) + lanes_le(rotation);
    assert(e =~= p4 + le64(n) + prefab);
    lemma_u64_embed(p4, n, prefab);
    assert(e =~= (p4 + le64(n)) + prefab);
    lemma_tail_embed(p4 + le64(n), prefab);
}

proof fn lemma_rt_leave(id: u32)
    ensures
        spec_decode(spec_encode(ActionModel::Leave { id })) == Ok::<ActionModel, CodecError>(
            ActionModel::Leave { id },
        ),
{
    lemma_rt_id_only(4, id);
}

proof fn lemma_rt_despawn(id: u32)
    ensures
        spec_decode(spec_encode(ActionModel::Despawn { id })) == Ok::<ActionModel, CodecError>(
            ActionModel::Despawn { id },
        ),
{
    lemma_rt_id_only(7, id);
}

proof fn lemma_rt_damage(id: u32, position: Lanes)
    ensures
        spec_decode(spec_encode(ActionModel::Damage { id, position }))
            == Ok::<ActionModel, CodecError>(ActionModel::Damage { id, position }),
{
    let e = spec_encode(ActionModel::Damage { id, position });
    assert(e =~= Seq::<u8>::empty() + le32(8) + (le32(id) + lanes_le(position)));
    lemma_u32_embed(Seq::<u8>::empty(), 8, le32(id) + lanes_le(position));
    assert(e =~= le32(8) + le32(id) + lanes_le(position));
    lemma_u32_embed(le32(8), id, lanes_le(position));
    let p1 = le32(8) + le32(id);
    assert(e =~= p1 + lanes_le(position) + Seq::<u8>::empty());
    lemma_lanes_embed(p1, position, Seq::<u8>::empty());
}

/// Round trip: every action whose wire image fits the decode ceiling decodes
/// back to exactly itself, whatever its fields hold.  (An action with a name
/// or prefab so long that its image exceeds the ceiling is rejected by decode
/// as oversized, so the claim is conditioned on the image fitting.)
pub proof fn lemma_round_trip(a: ActionModel)
    requires
        spec_encode(a).len() <= DECODE_LIMIT,
    ensures
        spec_decode(spec_encode(a)) == Ok::<ActionModel, CodecError>(a),
{
    match a {
        ActionModel::Noop => lemma_rt_noop(),
        ActionModel::Login { seed, name } => lemma_rt_login(seed, name),
        ActionModel::Logout => lemma_rt_logout(),
        ActionModel::Join { id, name } => lemma_rt_join(id, name),
        ActionModel::Leave { id } => lemma_rt_leave(id),
        ActionModel::Transform { id, position, velocity, rotation } => {
            lemma_rt_transform(id, position, velocity, rotation)
        },
        ActionModel::Spawn { id, position, velocity, rotation, prefab } => {
            lemma_rt_spawn(id, position, velocity, rotation, prefab)
        },
        ActionModel::Despawn { id } => lemma_rt_despawn(id),
        ActionModel::Damage { id, position } => lemma_rt_damage(id, position),
    }
}

/// Why a byte buffer failed to decode.
#[derive(Clone, Copy, PartialEq, Eq, Structural, Debug)]
pub enum CodecError {
    /// The buffer exceeds the untrusted-input ceiling; nothing of it was parsed.
    Oversized,
    /// The buffer ends before the payload its discriminant demands.
    Truncated,
    /// The discriminant names no known action.
    UnknownDiscriminant,
}

} // verus!
