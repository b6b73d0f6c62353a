use vstd::prelude::*;

verus! {

/// The deep, mathematical form of a wire message: every string is a
/// sequence of characters. Contracts throughout the crate speak of this
/// form rather than of the executable one.
pub enum MsgModel {
    Permission { uid: Seq<char>, permissions: Seq<Seq<char>> },
    Message { channel: Seq<char>, message: Seq<char> },
    Broadcast { channel: Seq<char>, message: Seq<char> },
    Uid { uid: Seq<char> },
    Subscribe { channel: Seq<char> },
    Ready,
}

/// One protocol message as it crosses either wire. Client ids travel in
/// their textual form, so `uid` fields are plain strings here.
///
/// Directions: `Uid`, `Ready` and `Broadcast` go server-to-client;
/// `Permission` and `Message` come from a backend; `Subscribe` comes
/// from a streaming client.
#[derive(Debug, PartialEq, Eq, Clone)]
pub enum WireMsg {
    Permission { uid: String, permissions: Vec<String> },
    Message { channel: String, message: String },
    Broadcast { channel: String, message: String },
    Uid { uid: String },
    Subscribe { channel: String },
    Ready,
}

impl View for WireMsg {
    type V = MsgModel;

    open spec fn view(&self) -> MsgModel {
        match self {
            WireMsg::Permission { uid, permissions } => MsgModel::Permission {
                uid: uid@,
                permissions: permissions@.map_values(|p: String| p@),
            },
            WireMsg::Message { channel, message } => MsgModel::Message {
                channel: channel@,
                message: message@,
            },
            WireMsg::Broadcast { channel, message } => MsgModel::Broadcast {
                channel: channel@,
                message: message@,
            },
            WireMsg::Uid { uid } => MsgModel::Uid { uid: uid@ },
            WireMsg::Subscribe { channel } => MsgModel::Subscribe { channel: channel@ },
            WireMsg::Ready => MsgModel::Ready,
        }
    }
}

/// Why a frame was rejected by the decoder.
#[derive(Debug, PartialEq, Eq, Structural, Clone, Copy)]
pub enum DecodeError {
    /// The input is not the encoding of any protocol message.
    Malformed,
}

} // verus!
