//! Core data types of the membership protocol: messages, peer records,
//! state payloads and the events handed to the application.

use vstd::prelude::*;

verus! {

/// Liveness status of a peer.
#[derive(Clone, Copy, Debug, PartialEq, Eq, Structural)]
pub enum NodeStatus {
    Online,
    Offline,
    Unknown,
}

/// Kind of a framed message.
#[derive(Clone, Copy, Debug, PartialEq, Eq, Structural)]
pub enum MessageKind {
    Okay,
    State,
    Distribute,
    Error,
}

/// One framed message on the wire.
#[derive(Clone, Debug, PartialEq, Eq)]
pub struct Message {
    pub id: u128,
    pub sender: String,
    pub kind: MessageKind,
    pub payload: Vec<u8>,
}

/// Mathematical model of a `Message`.
pub struct MessageModel {
    pub id: u128,
    pub sender: Seq<char>,
    pub kind: MessageKind,
    pub payload: Seq<u8>,
}

impl View for Message {
    type V = MessageModel;

    open spec fn view(&self) -> MessageModel {
        MessageModel { id: self.id, sender: self.sender@, kind: self.kind, payload: self.payload@ }
    }
}

/// Payload of a `State` message.
#[derive(Clone, Debug, PartialEq, Eq)]
pub enum StateType {
    Unknown(),
    Ping(String),
    ControlNodeStatus(String),
    NodeList(Vec<String>),
}

/// Mathematical model of a `StateType`.
pub enum StateModel {
    Unknown(),
    Ping(Seq<char>),
    ControlNodeStatus(Seq<char>),
    NodeList(Seq<Seq<char>>),
}

impl View for StateType {
    type V = StateModel;

    open spec fn view(&self) -> StateModel {
        match self {
            StateType::Unknown() => StateModel::Unknown(),
            StateType::Ping(h) => StateModel::Ping(h@),
            StateType::ControlNodeStatus(a) => StateModel::ControlNodeStatus(a@),
            StateType::NodeList(l) => StateModel::NodeList(l.deep_view()),
        }
    }
}

/// One record per known peer.
#[derive(Clone, Debug, PartialEq, Eq)]
pub struct NodeDetails {
    pub addr: String,
    pub node_hash: String,
    pub last_access_time: u128,
    pub synced_time_as_secs: u128,
    pub status: NodeStatus,
}

/// Mathematical model of a `NodeDetails`.
pub struct NodeModel {
    pub addr: Seq<char>,
    pub node_hash: Seq<char>,
    pub last_access_time: u128,
    pub synced_time_as_secs: u128,
    pub status: NodeStatus,
}

impl View for NodeDetails {
    type V = NodeModel;

    open spec fn view(&self) -> NodeModel {
        NodeModel {
            addr: self.addr@,
            node_hash: self.node_hash@,
            last_access_time: self.last_access_time,
            synced_time_as_secs: self.synced_time_as_secs,
            status: self.status,
        }
    }
}

/// What one call of the event loop hands to the application.
#[derive(Clone, Debug, PartialEq, Eq)]
pub enum EventType {
    OnNodesSynced(String),
    OnNodeStatusChanged(String, NodeStatus),
    OnMessage(Message),
    OnWait(),
}

/// The textual label of a status, as it enters the membership fingerprint.
pub open spec fn spec_status_label(s: NodeStatus) -> Seq<char> {
    match s {
        NodeStatus::Online => seq!['O', 'n', 'l', 'i', 'n', 'e'],
        NodeStatus::Offline => seq!['O', 'f', 'f', 'l', 'i', 'n', 'e'],
        NodeStatus::Unknown => seq!['U', 'n', 'k', 'n', 'o', 'w', 'n'],
    }
}

/// Renders a status as the literal used inside the membership fingerprint.
pub fn status_label(s: NodeStatus) -> (r: &'static str)
    ensures
        r@ == spec_status_label(s),
{
    match s {
        NodeStatus::Online => {
            let l = "Online";
            proof { reveal_strlit("Online"); }
            l
        },
        NodeStatus::Offline => {
            let l = "Offline";
            proof { reveal_strlit("Offline"); }
            l
        },
        NodeStatus::Unknown => {
            let l = "Unknown";
            proof { reveal_strlit("Unknown"); }
            l
        },
    }
}

} // verus!
