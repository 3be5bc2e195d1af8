//! Typed P2P protocol messages, parsed from and serialized into frames.
//!
//! Unknown codes are kept as `Unknown`, not dropped; SyncInfo and Peers bodies
//! are kept opaque. Serializing a message and parsing the frame gives the
//! message back.

use vstd::prelude::*;
use crate::types::ModifierId;
use crate::transport::cursor::{
    ByteCursor, DecodeError, spec_read_u8, spec_read_bytes, append_bytes, copy_bytes, holds_at,
    lemma_holds_at_sub,
};
use crate::transport::frame::{Frame, MAX_BODY_SIZE, frame_bytes, spec_decode, lemma_frame_roundtrip};
use crate::transport::vlq::{self, vlq_encode, spec_read_vlq_length, MAX_VLQ_LENGTH, lemma_read_vlq_at};

verus! {

/// Well-known message codes.
pub struct MessageCode;

impl MessageCode {
    pub const GET_PEERS: u8 = 1;
    pub const PEERS: u8 = 2;
    pub const MODIFIER_REQUEST: u8 = 22;
    pub const MODIFIER_RESPONSE: u8 = 33;
    pub const INV: u8 = 55;
    pub const SYNC_INFO: u8 = 65;
}

/// Modifier type ids.
pub struct ModifierType;

impl ModifierType {
    pub const HEADER: u8 = 1;
    pub const TRANSACTION: u8 = 2;
    pub const BLOCK_TRANSACTIONS: u8 = 3;
    pub const AD_PROOFS: u8 = 4;
    pub const EXTENSION: u8 = 5;
}

/// A modifier type that is a block section: header, block transactions, AD
/// proofs or extension. Transactions are not.
pub open spec fn is_block_modifier(modifier_type: u8) -> bool {
    ||| modifier_type == ModifierType::HEADER
    ||| modifier_type == ModifierType::BLOCK_TRANSACTIONS
    ||| modifier_type == ModifierType::AD_PROOFS
    ||| modifier_type == ModifierType::EXTENSION
}

/// Whether `modifier_type` is a block section.
pub fn is_block_modifier_type(modifier_type: u8) -> (b: bool)
    ensures
        b == is_block_modifier(modifier_type),
{
    modifier_type == ModifierType::HEADER || modifier_type == ModifierType::BLOCK_TRANSACTIONS
        || modifier_type == ModifierType::AD_PROOFS || modifier_type == ModifierType::EXTENSION
}

/// A typed protocol message.
#[derive(Debug, Clone)]
pub enum ProtocolMessage {
    GetPeers,
    Peers { body: Vec<u8> },
    Inv { modifier_type: u8, ids: Vec<ModifierId> },
    ModifierRequest { modifier_type: u8, ids: Vec<ModifierId> },
    ModifierResponse { modifier_type: u8, modifiers: Vec<(ModifierId, Vec<u8>)> },
    SyncInfo { body: Vec<u8> },
    Unknown { code: u8, body: Vec<u8> },
}

/// The content of a `ProtocolMessage`.
pub enum MessageView {
    GetPeers,
    Peers { body: Seq<u8> },
    Inv { modifier_type: u8, ids: Seq<ModifierId> },
    ModifierRequest { modifier_type: u8, ids: Seq<ModifierId> },
    ModifierResponse { modifier_type: u8, modifiers: Seq<(ModifierId, Seq<u8>)> },
    SyncInfo { body: Seq<u8> },
    Unknown { code: u8, body: Seq<u8> },
}

/// The ids and the bytes of each payload.
pub open spec fn modifiers_view(mods: Seq<(ModifierId, Vec<u8>)>) -> Seq<(ModifierId, Seq<u8>)> {
    mods.map_values(|m: (ModifierId, Vec<u8>)| (m.0, m.1@))
}

/// The modifier id whose bytes are `b` (the first 32 of them).
pub open spec fn id_from_bytes(b: Seq<u8>) -> ModifierId {
    [
        b[0], b[1], b[2], b[3], b[4], b[5], b[6], b[7], b[8], b[9], b[10], b[11], b[12], b[13], b[14],
        b[15], b[16], b[17], b[18], b[19], b[20], b[21], b[22], b[23], b[24], b[25], b[26], b[27], b[28],
        b[29], b[30], b[31],
    ]
}

/// Reading an id back from its bytes gives the id.
pub proof fn lemma_id_from_bytes(id: ModifierId)
    ensures
        id_from_bytes(id@) == id,
{
    broadcast use vstd::array::group_array_axioms;

    assert(id_from_bytes(id@) =~= id);
}

impl View for ProtocolMessage {
    type V = MessageView;

    open spec fn view(&self) -> MessageView {
        match self {
            ProtocolMessage::GetPeers => MessageView::GetPeers,
            ProtocolMessage::Peers { body } => MessageView::Peers { body: body@ },
            ProtocolMessage::Inv { modifier_type, ids } => MessageView::Inv {
                modifier_type: *modifier_type,
                ids: ids@,
            },
            ProtocolMessage::ModifierRequest { modifier_type, ids } => MessageView::ModifierRequest {
                modifier_type: *modifier_type,
                ids: ids@,
            },
            ProtocolMessage::ModifierResponse { modifier_type, modifiers } =>
                MessageView::ModifierResponse {
                modifier_type: *modifier_type,
                modifiers: modifiers_view(modifiers@),
            },
            ProtocolMessage::SyncInfo { body } => MessageView::SyncInfo { body: body@ },
            ProtocolMessage::Unknown { code, body } => MessageView::Unknown { code: *code, body: body@ },
        }
    }
}

// ---------------------------------------------------------------------------
// Body layouts
// ---------------------------------------------------------------------------

/// The ids one after another.
pub open spec fn concat_ids(ids: Seq<ModifierId>) -> Seq<u8>
    decreases ids.len(),
{
    if ids.len() == 0 {
        seq![]
    } else {
        concat_ids(ids.drop_last()) + ids.last()@
    }
}

/// One modifier on the wire: its id, its payload length as VLQ, its payload.
pub open spec fn modifier_bytes(m: (ModifierId, Seq<u8>)) -> Seq<u8> {
    m.0@ + vlq_encode(m.1.len() as u64) + m.1
}

/// The modifiers one after another.
pub open spec fn concat_modifiers(mods: Seq<(ModifierId, Seq<u8>)>) -> Seq<u8>
    decreases mods.len(),
{
    if mods.len() == 0 {
        seq![]
    } else {
        concat_modifiers(mods.drop_last()) + modifier_bytes(mods.last())
    }
}

/// An Inv or ModifierRequest body: type byte, VLQ count, ids.
pub open spec fn inv_body_bytes(modifier_type: u8, ids: Seq<ModifierId>) -> Seq<u8> {
    seq![modifier_type] + vlq_encode(ids.len() as u64) + concat_ids(ids)
}

/// A ModifierResponse body: type byte, VLQ count, modifiers.
pub open spec fn modifier_response_body_bytes(modifier_type: u8, mods: Seq<(ModifierId, Seq<u8>)>) -> Seq<u8> {
    seq![modifier_type] + vlq_encode(mods.len() as u64) + concat_modifiers(mods)
}

/// Reading `count` ids of 32 bytes at position `p` of `s`.
pub open spec fn spec_read_ids(s: Seq<u8>, p: nat, count: nat) -> Result<(Seq<ModifierId>, nat), DecodeError>
    decreases count,
{
    if count == 0 {
        Ok((seq![], p))
    } else {
        match spec_read_bytes(s, p, 32) {
            Err(e) => Err(e),
            Ok((id, q)) => match spec_read_ids(s, q, (count - 1) as nat) {
                Err(e) => Err(e),
                Ok((rest, r)) => Ok((seq![id_from_bytes(id)] + rest, r)),
            },
        }
    }
}

/// Reading `count` modifiers at position `p` of `s`: each a 32-byte id, a VLQ
/// length (at most 256 KiB) and a payload.
pub open spec fn spec_read_modifiers(s: Seq<u8>, p: nat, count: nat) -> Result<(Seq<(ModifierId, Seq<u8>)>, nat), DecodeError>
    decreases count,
{
    if count == 0 {
        Ok((seq![], p))
    } else {
        match spec_read_bytes(s, p, 32) {
            Err(e) => Err(e),
            Ok((id, q)) => match spec_read_vlq_length(s, q) {
                Err(e) => Err(e),
                Ok((len, r)) => match spec_read_bytes(s, r, len as nat) {
                    Err(e) => Err(e),
                    Ok((data, t)) => match spec_read_modifiers(s, t, (count - 1) as nat) {
                        Err(e) => Err(e),
                        Ok((rest, u)) => Ok((seq![(id_from_bytes(id), data)] + rest, u)),
                    },
                },
            },
        }
    }
}

/// Parsing an Inv or ModifierRequest body; bytes after the last id are ignored.
pub open spec fn spec_parse_inv_body(s: Seq<u8>) -> Result<(u8, Seq<ModifierId>), DecodeError> {
    match spec_read_u8(s, 0) {
        Err(e) => Err(e),
        Ok((t, p)) => match spec_read_vlq_length(s, p) {
            Err(e) => Err(e),
            Ok((count, q)) => match spec_read_ids(s, q, count as nat) {
                Err(e) => Err(e),
                Ok((ids, _)) => Ok((t, ids)),
            },
        },
    }
}

/// Parsing a ModifierResponse body; bytes after the last modifier are ignored.
pub open spec fn spec_parse_modifier_response_body(s: Seq<u8>) -> Result<(u8, Seq<(ModifierId, Seq<u8>)>), DecodeError> {
    match spec_read_u8(s, 0) {
        Err(e) => Err(e),
        Ok((t, p)) => match spec_read_vlq_length(s, p) {
            Err(e) => Err(e),
            Ok((count, q)) => match spec_read_modifiers(s, q, count as nat) {
                Err(e) => Err(e),
                Ok((mods, _)) => Ok((t, mods)),
            },
        },
    }
}

/// The message a frame with `code` and `body` parses to.
pub open spec fn spec_from_frame(code: u8, body: Seq<u8>) -> Result<MessageView, DecodeError> {
    if code == MessageCode::GET_PEERS {
        Ok(MessageView::GetPeers)
    } else if code == MessageCode::PEERS {
        Ok(MessageView::Peers { body })
    } else if code == MessageCode::INV {
        match spec_parse_inv_body(body) {
            Ok((t, ids)) => Ok(MessageView::Inv { modifier_type: t, ids }),
            Err(e) => Err(e),
        }
    } else if code == MessageCode::MODIFIER_REQUEST {
        match spec_parse_inv_body(body) {
            Ok((t, ids)) => Ok(MessageView::ModifierRequest { modifier_type: t, ids }),
            Err(e) => Err(e),
        }
    } else if code == MessageCode::MODIFIER_RESPONSE {
        match spec_parse_modifier_response_body(body) {
            Ok((t, mods)) => Ok(MessageView::ModifierResponse { modifier_type: t, modifiers: mods }),
            Err(e) => Err(e),
        }
    } else if code == MessageCode::SYNC_INFO {
        Ok(MessageView::SyncInfo { body })
    } else {
        Ok(MessageView::Unknown { code, body })
    }
}

/// The frame (code and body) a message serializes to.
pub open spec fn spec_to_frame(m: MessageView) -> (u8, Seq<u8>) {
    match m {
        MessageView::GetPeers => (MessageCode::GET_PEERS, seq![]),
        MessageView::Peers { body } => (MessageCode::PEERS, body),
        MessageView::Inv { modifier_type, ids } => (MessageCode::INV, inv_body_bytes(modifier_type, ids)),
        MessageView::ModifierRequest { modifier_type, ids } => (
            MessageCode::MODIFIER_REQUEST,
            inv_body_bytes(modifier_type, ids),
        ),
        MessageView::ModifierResponse { modifier_type, modifiers } => (
            MessageCode::MODIFIER_RESPONSE,
            modifier_response_body_bytes(modifier_type, modifiers),
        ),
        MessageView::SyncInfo { body } => (MessageCode::SYNC_INFO, body),
        MessageView::Unknown { code, body } => (code, body),
    }
}

// ---------------------------------------------------------------------------
// Parsing and serializing
// ---------------------------------------------------------------------------

/// Reads a 32-byte modifier id.
fn read_id(cursor: &mut ByteCursor) -> (r: Result<ModifierId, DecodeError>)
    ensures
        final(cursor).bytes() == old(cursor).bytes(),
        match spec_read_bytes(old(cursor).bytes(), old(cursor).pos(), 32) {
            Ok((b, q)) => r matches Ok(id) && id@ == b && id == id_from_bytes(b) && final(cursor).pos() == q,
            Err(e) => r == Err::<ModifierId, DecodeError>(e) && final(cursor).pos() == old(cursor).bytes().len(),
        },
{
    let bytes = cursor.read_bytes(32)?;
    let mut id: ModifierId = [0u8; 32];
    let mut i: usize = 0;
    while i < 32
        invariant
            bytes@.len() == 32,
            i <= 32,
            forall|j: int| 0 <= j < i ==> id@[j] == bytes@[j],
        decreases 32 - i,
    {
        id[i] = bytes[i];
        i = i + 1;
    }
    assert(id@ == bytes@);
    proof {
        lemma_id_from_bytes(id);
    }
    Ok(id)
}

fn parse_inv_body(data: &[u8]) -> (r: Result<(u8, Vec<ModifierId>), DecodeError>)
    ensures
        match spec_parse_inv_body(data@) {
            Ok((t, ids)) => r matches Ok((t2, v)) && t2 == t && v@ == ids,
            Err(e) => r matches Err(e2) && e2 == e,
        },
{
    let mut cursor = ByteCursor::new(data);
    let modifier_type = cursor.read_u8()?;
    let count = vlq::read_vlq_length(&mut cursor)?;
    let ghost s = data@;
    let ghost q = cursor.pos();
    let mut ids: Vec<ModifierId> = Vec::new();
    let mut i: usize = 0;
    while i < count
        invariant
            cursor.bytes() == s,
            s == data@,
            i <= count,
            spec_parse_inv_body(s) == match spec_read_ids(s, q, count as nat) {
                Err(e) => Err(e),
                Ok((ids, _)) => Ok((modifier_type, ids)),
            },
            spec_read_ids(s, q, count as nat) == match spec_read_ids(s, cursor.pos(), (count - i) as nat) {
                Err(e) => Err(e),
                Ok((rest, r)) => Ok((ids@ + rest, r)),
            },
        decreases count - i,
    {
        let ghost cur = cursor.pos();
        let ghost before = ids@;
        let id = match read_id(&mut cursor) {
            Ok(id) => id,
            Err(e) => {
                return Err(e);
            },
        };
        ids.push(id);
        proof {
            match spec_read_ids(s, cursor.pos(), (count - i - 1) as nat) {
                Ok((rest, r)) => {
                    assert(before + (seq![id] + rest) == before.push(id) + rest);
                },
                Err(e) => {},
            }
        }
        i = i + 1;
    }
    assert(ids@ + Seq::<ModifierId>::empty() == ids@);
    Ok((modifier_type, ids))
}

fn encode_inv_body(modifier_type: u8, ids: &[ModifierId]) -> (body: Vec<u8>)
    ensures
        body@ == inv_body_bytes(modifier_type, ids@),
{
    let mut body: Vec<u8> = Vec::new();
    body.push(modifier_type);
    vlq::write_vlq(&mut body, ids.len() as u64);
    let ghost head = body@;
    let ghost all = ids@;
    let mut i: usize = 0;
    assert(all.take(0) == Seq::<ModifierId>::empty());
    while i < ids.len()
        invariant
            i <= ids@.len(),
            all == ids@,
            body@ == head + concat_ids(all.take(i as int)),
        decreases ids.len() - i,
    {
        append_bytes(&mut body, ids[i].as_slice());
        assert(all.take(i + 1).drop_last() == all.take(i as int));
        i = i + 1;
    }
    assert(all.take(ids@.len() as int) == all);
    body
}

fn parse_modifier_response_body(data: &[u8]) -> (r: Result<(u8, Vec<(ModifierId, Vec<u8>)>), DecodeError>)
    ensures
        match spec_parse_modifier_response_body(data@) {
            Ok((t, mods)) => r matches Ok((t2, v)) && t2 == t && modifiers_view(v@) == mods,
            Err(e) => r matches Err(e2) && e2 == e,
        },
{
    let mut cursor = ByteCursor::new(data);
    let modifier_type = cursor.read_u8()?;
    let count = vlq::read_vlq_length(&mut cursor)?;
    let ghost s = data@;
    let ghost q = cursor.pos();
    let mut modifiers: Vec<(ModifierId, Vec<u8>)> = Vec::new();
    let mut i: usize = 0;
    while i < count
        invariant
            cursor.bytes() == s,
            s == data@,
            i <= count,
            spec_parse_modifier_response_body(s) == match spec_read_modifiers(s, q, count as nat) {
                Err(e) => Err(e),
                Ok((mods, _)) => Ok((modifier_type, mods)),
            },
            spec_read_modifiers(s, q, count as nat) == match spec_read_modifiers(
                s,
                cursor.pos(),
                (count - i) as nat,
            ) {
                Err(e) => Err(e),
                Ok((rest, r)) => Ok((modifiers_view(modifiers@) + rest, r)),
            },
        decreases count - i,
    {
        let ghost before = modifiers_view(modifiers@);
        let id = match read_id(&mut cursor) {
            Ok(id) => id,
            Err(e) => {
                return Err(e);
            },
        };
        let data_len = match vlq::read_vlq_length(&mut cursor) {
            Ok(n) => n,
            Err(e) => {
                return Err(e);
            },
        };
        let mod_data = match cursor.read_bytes(data_len) {
            Ok(d) => d,
            Err(e) => {
                return Err(e);
            },
        };
        let ghost mv = (id, mod_data@);
        modifiers.push((id, mod_data));
        assert(modifiers_view(modifiers@) == before.push(mv));
        proof {
            match spec_read_modifiers(s, cursor.pos(), (count - i - 1) as nat) {
                Ok((rest, r)) => {
                    assert(before + (seq![mv] + rest) == before.push(mv) + rest);
                },
                Err(e) => {},
            }
        }
        i = i + 1;
    }
    assert(modifiers_view(modifiers@) + Seq::<(ModifierId, Seq<u8>)>::empty() == modifiers_view(
        modifiers@,
    ));
    Ok((modifier_type, modifiers))
}

fn encode_modifier_response_body(modifier_type: u8, modifiers: &[(ModifierId, Vec<u8>)]) -> (body: Vec<u8>)
    ensures
        body@ == modifier_response_body_bytes(modifier_type, modifiers_view(modifiers@)),
{
    let mut body: Vec<u8> = Vec::new();
    body.push(modifier_type);
    vlq::write_vlq(&mut body, modifiers.len() as u64);
    let ghost head = body@;
    let ghost all = modifiers_view(modifiers@);
    let mut i: usize = 0;
    assert(all.take(0) == Seq::<(ModifierId, Seq<u8>)>::empty());
    while i < modifiers.len()
        invariant
            i <= modifiers@.len(),
            all == modifiers_view(modifiers@),
            body@ == head + concat_modifiers(all.take(i as int)),
        decreases modifiers.len() - i,
    {
        let (id, data) = &modifiers[i];
        append_bytes(&mut body, id.as_slice());
        vlq::write_vlq(&mut body, data.len() as u64);
        append_bytes(&mut body, data.as_slice());
        assert(all.take(i + 1).drop_last() == all.take(i as int));
        i = i + 1;
    }
    assert(all.take(modifiers@.len() as int) == all);
    body
}

/// Copies a list of ids.
pub fn copy_ids(ids: &Vec<ModifierId>) -> (r: Vec<ModifierId>)
    ensures
        r@ == ids@,
{
    let mut r: Vec<ModifierId> = Vec::new();
    let mut i: usize = 0;
    while i < ids.len()
        invariant
            i <= ids@.len(),
            r@ == ids@.take(i as int),
        decreases ids.len() - i,
    {
        r.push(ids[i]);
        assert(ids@.take(i + 1) == ids@.take(i as int).push(ids@[i as int]));
        i = i + 1;
    }
    assert(ids@.take(ids@.len() as int) == ids@);
    r
}

/// Copies a list of modifiers.
fn copy_modifiers(mods: &Vec<(ModifierId, Vec<u8>)>) -> (r: Vec<(ModifierId, Vec<u8>)>)
    ensures
        modifiers_view(r@) == modifiers_view(mods@),
{
    let mut r: Vec<(ModifierId, Vec<u8>)> = Vec::new();
    let ghost all = modifiers_view(mods@);
    let mut i: usize = 0;
    while i < mods.len()
        invariant
            i <= mods@.len(),
            all == modifiers_view(mods@),
            modifiers_view(r@) == all.take(i as int),
        decreases mods.len() - i,
    {
        let (id, data) = &mods[i];
        let ghost before = modifiers_view(r@);
        r.push((*id, copy_bytes(data.as_slice())));
        assert(modifiers_view(r@) == before.push(all[i as int]));
        assert(all.take(i + 1) == all.take(i as int).push(all[i as int]));
        i = i + 1;
    }
    assert(all.take(mods@.len() as int) == all);
    r
}

impl ProtocolMessage {
    /// Parses a frame into a typed message. Unknown codes give `Unknown`.
    pub fn from_frame(frame: &Frame) -> (r: Result<Self, DecodeError>)
        ensures
            match spec_from_frame(frame.code, frame.body@) {
                Ok(m) => r matches Ok(msg) && msg@ == m,
                Err(e) => r matches Err(e2) && e2 == e,
            },
    {
        if frame.code == MessageCode::GET_PEERS {
            Ok(ProtocolMessage::GetPeers)
        } else if frame.code == MessageCode::PEERS {
            Ok(ProtocolMessage::Peers { body: copy_bytes(frame.body.as_slice()) })
        } else if frame.code == MessageCode::INV {
            let (modifier_type, ids) = parse_inv_body(frame.body.as_slice())?;
            Ok(ProtocolMessage::Inv { modifier_type, ids })
        } else if frame.code == MessageCode::MODIFIER_REQUEST {
            let (modifier_type, ids) = parse_inv_body(frame.body.as_slice())?;
            Ok(ProtocolMessage::ModifierRequest { modifier_type, ids })
        } else if frame.code == MessageCode::MODIFIER_RESPONSE {
            let (modifier_type, modifiers) = parse_modifier_response_body(frame.body.as_slice())?;
            Ok(ProtocolMessage::ModifierResponse { modifier_type, modifiers })
        } else if frame.code == MessageCode::SYNC_INFO {
            Ok(ProtocolMessage::SyncInfo { body: copy_bytes(frame.body.as_slice()) })
        } else {
            Ok(ProtocolMessage::Unknown { code: frame.code, body: copy_bytes(frame.body.as_slice()) })
        }
    }

    /// A copy of this message.
    pub fn duplicate(&self) -> (m: Self)
        ensures
            m@ == self@,
    {
        match self {
            ProtocolMessage::GetPeers => ProtocolMessage::GetPeers,
            ProtocolMessage::Peers { body } => ProtocolMessage::Peers { body: copy_bytes(body.as_slice()) },
            ProtocolMessage::Inv { modifier_type, ids } => ProtocolMessage::Inv {
                modifier_type: *modifier_type,
                ids: copy_ids(ids),
            },
            ProtocolMessage::ModifierRequest { modifier_type, ids } => ProtocolMessage::ModifierRequest {
                modifier_type: *modifier_type,
                ids: copy_ids(ids),
            },
            ProtocolMessage::ModifierResponse { modifier_type, modifiers } =>
                ProtocolMessage::ModifierResponse {
                modifier_type: *modifier_type,
                modifiers: copy_modifiers(modifiers),
            },
            ProtocolMessage::SyncInfo { body } => ProtocolMessage::SyncInfo {
                body: copy_bytes(body.as_slice()),
            },
            ProtocolMessage::Unknown { code, body } => ProtocolMessage::Unknown {
                code: *code,
                body: copy_bytes(body.as_slice()),
            },
        }
    }

    /// Serializes a typed message back into a frame.
    pub fn to_frame(&self) -> (f: Frame)
        ensures
            f@ == spec_to_frame(self@),
    {
        match self {
            ProtocolMessage::GetPeers => Frame { code: MessageCode::GET_PEERS, body: Vec::new() },
            ProtocolMessage::Peers { body } => Frame {
                code: MessageCode::PEERS,
                body: copy_bytes(body.as_slice()),
            },
            ProtocolMessage::Inv { modifier_type, ids } => Frame {
                code: MessageCode::INV,
                body: encode_inv_body(*modifier_type, ids.as_slice()),
            },
            ProtocolMessage::ModifierRequest { modifier_type, ids } => Frame {
                code: MessageCode::MODIFIER_REQUEST,
                body: encode_inv_body(*modifier_type, ids.as_slice()),
            },
            ProtocolMessage::ModifierResponse { modifier_type, modifiers } => Frame {
                code: MessageCode::MODIFIER_RESPONSE,
                body: encode_modifier_response_body(*modifier_type, modifiers.as_slice()),
            },
            ProtocolMessage::SyncInfo { body } => Frame {
                code: MessageCode::SYNC_INFO,
                body: copy_bytes(body.as_slice()),
            },
            ProtocolMessage::Unknown { code, body } => Frame {
                code: *code,
                body: copy_bytes(body.as_slice()),
            },
        }
    }
}

// ---------------------------------------------------------------------------
// Serializing then parsing gives the message back
// ---------------------------------------------------------------------------

/// The codes that have a message type of their own.
pub open spec fn is_known_code(code: u8) -> bool {
    ||| code == MessageCode::GET_PEERS
    ||| code == MessageCode::PEERS
    ||| code == MessageCode::INV
    ||| code == MessageCode::MODIFIER_REQUEST
    ||| code == MessageCode::MODIFIER_RESPONSE
    ||| code == MessageCode::SYNC_INFO
}

/// Messages that survive serialization: counts and payload lengths within the
/// 256 KiB length bound, and no `Unknown` with a known code.
pub open spec fn message_well_formed(m: MessageView) -> bool {
    match m {
        MessageView::Inv { ids, .. } => ids.len() <= MAX_VLQ_LENGTH,
        MessageView::ModifierRequest { ids, .. } => ids.len() <= MAX_VLQ_LENGTH,
        MessageView::ModifierResponse { modifiers, .. } => modifiers.len() <= MAX_VLQ_LENGTH && forall|
            i: int,
        |
            0 <= i < modifiers.len() ==> (#[trigger] modifiers[i]).1.len() <= MAX_VLQ_LENGTH,
        MessageView::Unknown { code, .. } => !is_known_code(code),
        _ => true,
    }
}

proof fn lemma_concat_ids_cons(x: ModifierId, r: Seq<ModifierId>)
    ensures
        concat_ids(seq![x] + r) == x@ + concat_ids(r),
    decreases r.len(),
{
    if r.len() > 0 {
        lemma_concat_ids_cons(x, r.drop_last());
        assert((seq![x] + r).drop_last() == seq![x] + r.drop_last());
        assert((seq![x] + r).last() == r.last());
        assert(x@ + concat_ids(r.drop_last()) + r.last()@ == x@ + (concat_ids(r.drop_last()) + r.last()@));
    } else {
        assert(seq![x] + r == seq![x]);
        assert(seq![x].drop_last() == Seq::<ModifierId>::empty());
        assert(r == Seq::<ModifierId>::empty());
        assert(x@ + Seq::<u8>::empty() == x@);
        assert(Seq::<u8>::empty() + x@ == x@);
    }
}

proof fn lemma_concat_modifiers_cons(x: (ModifierId, Seq<u8>), r: Seq<(ModifierId, Seq<u8>)>)
    ensures
        concat_modifiers(seq![x] + r) == modifier_bytes(x) + concat_modifiers(r),
    decreases r.len(),
{
    if r.len() > 0 {
        lemma_concat_modifiers_cons(x, r.drop_last());
        assert((seq![x] + r).drop_last() == seq![x] + r.drop_last());
        assert((seq![x] + r).last() == r.last());
        assert(modifier_bytes(x) + concat_modifiers(r.drop_last()) + modifier_bytes(r.last())
            == modifier_bytes(x) + (concat_modifiers(r.drop_last()) + modifier_bytes(r.last())));
    } else {
        assert(seq![x] + r == seq![x]);
        assert(seq![x].drop_last() == Seq::<(ModifierId, Seq<u8>)>::empty());
        assert(r == Seq::<(ModifierId, Seq<u8>)>::empty());
        assert(modifier_bytes(x) + Seq::<u8>::empty() == modifier_bytes(x));
        assert(Seq::<u8>::empty() + modifier_bytes(x) == modifier_bytes(x));
    }
}

proof fn lemma_read_ids_at(s: Seq<u8>, p: nat, ids: Seq<ModifierId>)
    requires
        holds_at(s, p, concat_ids(ids)),
    ensures
        spec_read_ids(s, p, ids.len()) == Ok::<(Seq<ModifierId>, nat), DecodeError>(
            (ids, p + concat_ids(ids).len()),
        ),
    decreases ids.len(),
{
    if ids.len() > 0 {
        let x = ids[0];
        let r = ids.drop_first();
        assert(ids == seq![x] + r);
        lemma_concat_ids_cons(x, r);
        let t = concat_ids(ids);
        assert(t.subrange(0, 32) == x@);
        lemma_holds_at_sub(s, p, t, 0, 32);
        lemma_id_from_bytes(x);
        assert(t.subrange(32, t.len() as int) == concat_ids(r));
        lemma_holds_at_sub(s, p, t, 32, t.len());
        lemma_read_ids_at(s, p + 32, r);
    } else {
        assert(ids == Seq::<ModifierId>::empty());
    }
}

proof fn lemma_read_modifier_at(s: Seq<u8>, p: nat, x: (ModifierId, Seq<u8>))
    requires
        x.1.len() <= MAX_VLQ_LENGTH,
        holds_at(s, p, modifier_bytes(x)),
    ensures
        ({
            let e = vlq_encode(x.1.len() as u64);
            &&& spec_read_bytes(s, p, 32) == Ok::<(Seq<u8>, nat), DecodeError>((x.0@, p + 32))
            &&& id_from_bytes(x.0@) == x.0
            &&& spec_read_vlq_length(s, p + 32) == Ok::<(u64, nat), DecodeError>(
                (x.1.len() as u64, p + 32 + e.len()),
            )
            &&& spec_read_bytes(s, p + 32 + e.len(), x.1.len()) == Ok::<(Seq<u8>, nat), DecodeError>(
                (x.1, p + modifier_bytes(x).len()),
            )
        }),
{
    let t = modifier_bytes(x);
    let e = vlq_encode(x.1.len() as u64);
    assert(t.subrange(0, 32) == x.0@);
    lemma_holds_at_sub(s, p, t, 0, 32);
    lemma_id_from_bytes(x.0);
    assert(t.subrange(32, 32 + e.len() as int) == e);
    lemma_holds_at_sub(s, p, t, 32, 32 + e.len());
    lemma_read_vlq_at(s, p + 32, x.1.len() as u64);
    assert(t.subrange(32 + e.len() as int, t.len() as int) == x.1);
    lemma_holds_at_sub(s, p, t, 32 + e.len(), t.len());
}

#[verifier::rlimit(80)]
proof fn lemma_read_modifiers_at(s: Seq<u8>, p: nat, mods: Seq<(ModifierId, Seq<u8>)>)
    requires
        forall|i: int| 0 <= i < mods.len() ==> (#[trigger] mods[i]).1.len() <= MAX_VLQ_LENGTH,
        holds_at(s, p, concat_modifiers(mods)),
    ensures
        spec_read_modifiers(s, p, mods.len()) == Ok::<(Seq<(ModifierId, Seq<u8>)>, nat), DecodeError>(
            (mods, p + concat_modifiers(mods).len()),
        ),
    decreases mods.len(),
{
    if mods.len() > 0 {
        let x = mods[0];
        let r = mods.drop_first();
        assert(mods == seq![x] + r);
        lemma_concat_modifiers_cons(x, r);
        let t = concat_modifiers(mods);
        let m = modifier_bytes(x);
        assert(t.subrange(0, m.len() as int) == m);
        lemma_holds_at_sub(s, p, t, 0, m.len());
        lemma_read_modifier_at(s, p, x);
        assert(t.subrange(m.len() as int, t.len() as int) == concat_modifiers(r));
        lemma_holds_at_sub(s, p, t, m.len(), t.len());
        assert forall|i: int| 0 <= i < r.len() implies (#[trigger] r[i]).1.len() <= MAX_VLQ_LENGTH by {
            assert(r[i] == mods[i + 1]);
        }
        lemma_read_modifiers_at(s, p + m.len(), r);
    } else {
        assert(mods == Seq::<(ModifierId, Seq<u8>)>::empty());
    }
}

/// Parsing the frame that a well-formed message serializes to gives the message back.
pub proof fn lemma_message_roundtrip(m: MessageView)
    requires
        message_well_formed(m),
    ensures
        spec_from_frame(spec_to_frame(m).0, spec_to_frame(m).1) == Ok::<MessageView, DecodeError>(m),
{
    match m {
        MessageView::Inv { modifier_type, ids } => {
            lemma_inv_body_roundtrip(modifier_type, ids);
        },
        MessageView::ModifierRequest { modifier_type, ids } => {
            lemma_inv_body_roundtrip(modifier_type, ids);
        },
        MessageView::ModifierResponse { modifier_type, modifiers } => {
            let s = modifier_response_body_bytes(modifier_type, modifiers);
            let e = vlq_encode(modifiers.len() as u64);
            assert(s.subrange(1, 1 + e.len() as int) == e);
            lemma_read_vlq_at(s, 1, modifiers.len() as u64);
            assert(s.subrange(1 + e.len() as int, s.len() as int) == concat_modifiers(modifiers));
            lemma_read_modifiers_at(s, 1 + e.len(), modifiers);
        },
        _ => {},
    }
}

/// A message written to the wire as a frame (under any magic) is read back
/// unchanged: decoding the bytes gives its frame, and parsing the frame gives
/// the message, for every well-formed message whose body fits a frame.
pub proof fn lemma_message_over_wire(magic: Seq<u8>, m: MessageView)
    requires
        magic.len() == 4,
        message_well_formed(m),
        spec_to_frame(m).1.len() <= MAX_BODY_SIZE,
    ensures
        spec_decode(magic, frame_bytes(magic, spec_to_frame(m).0, spec_to_frame(m).1)) == Ok::<
            (u8, Seq<u8>),
            crate::transport::frame::FrameError,
        >(spec_to_frame(m)),
        spec_from_frame(spec_to_frame(m).0, spec_to_frame(m).1) == Ok::<MessageView, DecodeError>(m),
{
    lemma_frame_roundtrip(magic, spec_to_frame(m).0, spec_to_frame(m).1);
    lemma_message_roundtrip(m);
}

proof fn lemma_inv_body_roundtrip(modifier_type: u8, ids: Seq<ModifierId>)
    requires
        ids.len() <= MAX_VLQ_LENGTH,
    ensures
        spec_parse_inv_body(inv_body_bytes(modifier_type, ids)) == Ok::<(u8, Seq<ModifierId>), DecodeError>(
            (modifier_type, ids),
        ),
{
    let s = inv_body_bytes(modifier_type, ids);
    let e = vlq_encode(ids.len() as u64);
    assert(s.subrange(1, 1 + e.len() as int) == e);
    lemma_read_vlq_at(s, 1, ids.len() as u64);
    assert(s.subrange(1 + e.len() as int, s.len() as int) == concat_ids(ids));
    lemma_read_ids_at(s, 1 + e.len(), ids);
}


/// Ids laid end to end take 32 bytes each, id `k` at offset `32 * k`.
proof fn lemma_concat_ids_layout(ids: Seq<ModifierId>)
    ensures
        concat_ids(ids).len() == 32 * ids.len(),
        forall|k: int| 0 <= k < ids.len() ==> concat_ids(ids).subrange(32 * k, 32 * k + 32) == (#[trigger] ids[k])@,
    decreases ids.len(),
{
    if ids.len() > 0 {
        let d = ids.drop_last();
        lemma_concat_ids_layout(d);
        let a = concat_ids(d);
        let c = concat_ids(ids);
        assert(c == a + ids.last()@);
        assert forall|k: int| 0 <= k < ids.len() implies c.subrange(32 * k, 32 * k + 32) == (#[trigger] ids[k])@ by {
            if k < d.len() {
                assert(ids[k] == d[k]);
                assert(c.subrange(32 * k, 32 * k + 32) =~= a.subrange(32 * k, 32 * k + 32));
            } else {
                assert(c.subrange(32 * k, 32 * k + 32) =~= ids.last()@);
            }
        }
    }
}

/// Reading `ids.len()` ids where id `k` stands at `p + 32 * k` gives the ids.
proof fn lemma_read_ids_indexed(s: Seq<u8>, p: nat, ids: Seq<ModifierId>)
    requires
        p + 32 * ids.len() <= s.len(),
        forall|k: int| 0 <= k < ids.len() ==> s.subrange(p + 32 * k, p + 32 * k + 32) == (#[trigger] ids[k])@,
    ensures
        spec_read_ids(s, p, ids.len()) == Ok::<(Seq<ModifierId>, nat), DecodeError>((ids, p + 32 * ids.len())),
    decreases ids.len(),
{
    if ids.len() > 0 {
        let r = ids.drop_first();
        assert(s.subrange(p + 32 * 0int, p + 32 * 0int + 32) == ids[0]@);
        lemma_id_from_bytes(ids[0]);
        assert forall|k: int| 0 <= k < r.len() implies s.subrange(p + 32 + 32 * k, p + 32 + 32 * k + 32)
            == (#[trigger] r[k])@ by {
            assert(r[k] == ids[k + 1]);
            assert(s.subrange(p + 32 * (k + 1), p + 32 * (k + 1) + 32) == ids[k + 1]@);
        }
        lemma_read_ids_indexed(s, p + 32, r);
        assert(seq![ids[0]] + r == ids);
        assert(spec_read_bytes(s, p, 32) == Ok::<(Seq<u8>, nat), DecodeError>((ids[0]@, p + 32)));
        assert(id_from_bytes(ids[0]@) == ids[0]);
        assert(((ids.len() - 1) as nat) == r.len());
        assert(p + 32 + 32 * r.len() == p + 32 * ids.len());
    } else {
        assert(ids == Seq::<ModifierId>::empty());
    }
}

/// The wire layout of an Inv or ModifierRequest body, whatever the number of
/// ids: the modifier type, then the id count as VLQ, then id `k` at its own
/// 32-byte slot, and nothing else. Parsing any bytes laid out so (with
/// anything after them) gives the type and the ids back.
pub proof fn lemma_inv_wire_layout(modifier_type: u8, ids: Seq<ModifierId>, s: Seq<u8>)
    ensures
        ({
            let e = vlq_encode(ids.len() as u64);
            let inv = spec_to_frame(MessageView::Inv { modifier_type, ids });
            let req = spec_to_frame(MessageView::ModifierRequest { modifier_type, ids });
            &&& inv.0 == MessageCode::INV
            &&& req.0 == MessageCode::MODIFIER_REQUEST
            &&& inv.1 == req.1
            &&& inv.1.len() == 1 + e.len() + 32 * ids.len()
            &&& inv.1[0] == modifier_type
            &&& inv.1.subrange(1, 1 + e.len() as int) == e
            &&& forall|k: int|
                0 <= k < ids.len() ==> inv.1.subrange(1 + e.len() + 32 * k, 1 + e.len() + 32 * k + 32)
                    == (#[trigger] ids[k])@
        }),
        ({
            let e = vlq_encode(ids.len() as u64);
            (ids.len() <= MAX_VLQ_LENGTH && s.len() >= 1 + e.len() + 32 * ids.len() && s[0] == modifier_type
                && s.subrange(1, 1 + e.len() as int) == e && forall|k: int|
                0 <= k < ids.len() ==> s.subrange(1 + e.len() + 32 * k, 1 + e.len() + 32 * k + 32)
                    == (#[trigger] ids[k])@) ==> {
                &&& spec_from_frame(MessageCode::INV, s) == Ok::<MessageView, DecodeError>(
                    MessageView::Inv { modifier_type, ids },
                )
                &&& spec_from_frame(MessageCode::MODIFIER_REQUEST, s) == Ok::<MessageView, DecodeError>(
                    MessageView::ModifierRequest { modifier_type, ids },
                )
            }
        }),
{
    let e = vlq_encode(ids.len() as u64);
    let body = inv_body_bytes(modifier_type, ids);
    lemma_concat_ids_layout(ids);
    let c = concat_ids(ids);
    assert(body == seq![modifier_type] + e + c);
    assert(body.subrange(1, 1 + e.len() as int) == e);
    assert forall|k: int| 0 <= k < ids.len() implies body.subrange(1 + e.len() + 32 * k, 1 + e.len() + 32 * k + 32)
        == (#[trigger] ids[k])@ by {
        assert(body.subrange(1 + e.len() + 32 * k, 1 + e.len() + 32 * k + 32) =~= c.subrange(32 * k, 32 * k + 32));
    }
    if ids.len() <= MAX_VLQ_LENGTH && s.len() >= 1 + e.len() + 32 * ids.len() && s[0] == modifier_type
        && s.subrange(1, 1 + e.len() as int) == e && forall|k: int|
        0 <= k < ids.len() ==> s.subrange(1 + e.len() + 32 * k, 1 + e.len() + 32 * k + 32) == (#[trigger] ids[k])@ {
        lemma_read_vlq_at(s, 1, ids.len() as u64);
        lemma_read_ids_indexed(s, 1 + e.len(), ids);
    }
}


/// The wire bytes of each modifier (its id, its payload length as VLQ, its
/// payload), in order.
pub open spec fn modifier_pieces(mods: Seq<(ModifierId, Seq<u8>)>) -> Seq<Seq<u8>> {
    mods.map_values(|m: (ModifierId, Seq<u8>)| m.0@ + vlq_encode(m.1.len() as u64) + m.1)
}

proof fn lemma_concat_modifiers_pieces(mods: Seq<(ModifierId, Seq<u8>)>)
    ensures
        concat_modifiers(mods) == modifier_pieces(mods).flatten_alt(),
    decreases mods.len(),
{
    if mods.len() > 0 {
        lemma_concat_modifiers_pieces(mods.drop_last());
        assert(modifier_pieces(mods).drop_last() == modifier_pieces(mods.drop_last()));
    } else {
        assert(modifier_pieces(mods) == Seq::<Seq<u8>>::empty());
    }
}

/// The wire layout of a ModifierResponse body, whatever the number of
/// modifiers: the modifier type, the modifier count as VLQ, then each modifier
/// as its id, its payload length as VLQ and its payload, end to end. Parsing
/// any bytes that start so gives the type and the modifiers back, when the
/// count and every payload length are within 256 KiB.
pub proof fn lemma_modifier_response_wire(modifier_type: u8, mods: Seq<(ModifierId, Seq<u8>)>, rest: Seq<u8>)
    ensures
        ({
            let body = seq![modifier_type] + vlq_encode(mods.len() as u64) + modifier_pieces(mods).flatten();
            &&& spec_to_frame(MessageView::ModifierResponse { modifier_type, modifiers: mods }) == (
                MessageCode::MODIFIER_RESPONSE,
                body,
            )
            &&& (mods.len() <= MAX_VLQ_LENGTH && forall|i: int|
                0 <= i < mods.len() ==> (#[trigger] mods[i]).1.len() <= MAX_VLQ_LENGTH) ==> spec_from_frame(
                MessageCode::MODIFIER_RESPONSE,
                body + rest,
            ) == Ok::<MessageView, DecodeError>(MessageView::ModifierResponse { modifier_type, modifiers: mods })
        }),
{
    lemma_concat_modifiers_pieces(mods);
    modifier_pieces(mods).lemma_flatten_and_flatten_alt_are_equivalent();
    let e = vlq_encode(mods.len() as u64);
    let c = concat_modifiers(mods);
    let body = seq![modifier_type] + e + c;
    assert(body == modifier_response_body_bytes(modifier_type, mods));
    if mods.len() <= MAX_VLQ_LENGTH && forall|i: int| 0 <= i < mods.len() ==> (#[trigger] mods[i]).1.len() <= MAX_VLQ_LENGTH {
        let s = body + rest;
        assert(s.subrange(1, 1 + e.len() as int) == e);
        lemma_read_vlq_at(s, 1, mods.len() as u64);
        assert(s.subrange(1 + e.len() as int, (1 + e.len() + c.len()) as int) == c);
        lemma_read_modifiers_at(s, 1 + e.len(), mods);
    }
}

} // verus!
