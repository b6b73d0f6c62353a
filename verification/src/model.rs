use vstd::prelude::*;

use crate::messages::MsgModel;

verus! {

/// Mathematical state of one registered client.
pub struct ClientModel {
    /// Channels this client may subscribe to. Grows monotonically.
    pub permissions: Set<Seq<char>>,
    /// True once the first permission grant has been applied.
    pub ready: bool,
    /// Messages queued for delivery to this client, oldest first.
    pub outbound: Seq<MsgModel>,
}

/// Mathematical state of the whole registry: the client table and the
/// channel-to-subscriber-set table. Every executable registry operation
/// is specified as a transition on this model.
pub struct RegistryModel {
    pub clients: Map<Seq<char>, ClientModel>,
    pub subs: Map<Seq<char>, Set<Seq<char>>>,
}

impl RegistryModel {
    pub open spec fn empty() -> RegistryModel {
        RegistryModel { clients: Map::empty(), subs: Map::empty() }
    }

    pub open spec fn has_client(self, id: Seq<char>) -> bool {
        self.clients.dom().contains(id)
    }

    /// The client's effective permission set; empty for an unknown id.
    pub open spec fn permissions_of(self, id: Seq<char>) -> Set<Seq<char>> {
        if self.has_client(id) {
            self.clients[id].permissions
        } else {
            Set::empty()
        }
    }

    pub open spec fn ready_of(self, id: Seq<char>) -> bool {
        self.has_client(id) && self.clients[id].ready
    }

    /// The client's pending outbound queue; empty for an unknown id.
    pub open spec fn outbound_of(self, id: Seq<char>) -> Seq<MsgModel> {
        if self.has_client(id) {
            self.clients[id].outbound
        } else {
            Seq::empty()
        }
    }

    /// The subscriber set of a channel; empty for a channel never
    /// subscribed to.
    pub open spec fn subscribers(self, ch: Seq<char>) -> Set<Seq<char>> {
        if self.subs.dom().contains(ch) {
            self.subs[ch]
        } else {
            Set::empty()
        }
    }

    /// Registering a fresh client: an empty record plus the one `Uid`
    /// message queued to the newcomer.
    pub open spec fn register(self, id: Seq<char>) -> RegistryModel {
        RegistryModel {
            clients: self.clients.insert(
                id,
                ClientModel {
                    permissions: Set::empty(),
                    ready: false,
                    outbound: seq![MsgModel::Uid { uid: id }],
                },
            ),
            subs: self.subs,
        }
    }

    /// Granting permissions: a no-op for an unknown id; otherwise the
    /// permission set grows by the granted channels, and the first grant
    /// queues one `Ready` message and marks the client ready.
    pub open spec fn grant(self, id: Seq<char>, perms: Seq<Seq<char>>) -> RegistryModel {
        if self.has_client(id) {
            let c = self.clients[id];
            RegistryModel {
                clients: self.clients.insert(
                    id,
                    ClientModel {
                        permissions: c.permissions.union(perms.to_set()),
                        ready: true,
                        outbound: if c.ready {
                            c.outbound
                        } else {
                            c.outbound.push(MsgModel::Ready)
                        },
                    },
                ),
                subs: self.subs,
            }
        } else {
            self
        }
    }

    /// Subscribing: takes effect exactly when the client exists and holds
    /// permission for the channel; otherwise the state is unchanged.
    pub open spec fn subscribe(self, id: Seq<char>, ch: Seq<char>) -> RegistryModel {
        if self.has_client(id) && self.clients[id].permissions.contains(ch) {
            RegistryModel {
                clients: self.clients,
                subs: self.subs.insert(ch, self.subscribers(ch).insert(id)),
            }
        } else {
            self
        }
    }

    /// Removing one id from every channel's subscriber set.
    pub open spec fn unsubscribe_all(self, id: Seq<char>) -> RegistryModel {
        RegistryModel {
            clients: self.clients,
            subs: Map::new(
                |ch: Seq<char>| self.subs.dom().contains(ch),
                |ch: Seq<char>| self.subs[ch].remove(id),
            ),
        }
    }

    /// Dropping the client record.
    pub open spec fn deregister(self, id: Seq<char>) -> RegistryModel {
        RegistryModel { clients: self.clients.remove(id), subs: self.subs }
    }

    /// Broadcasting: every current subscriber of the channel has exactly
    /// one `Broadcast` message appended to its queue; every other client
    /// is untouched.
    pub open spec fn broadcast(self, ch: Seq<char>, msg: Seq<char>) -> RegistryModel {
        RegistryModel {
            clients: Map::new(
                |id: Seq<char>| self.clients.dom().contains(id),
                |id: Seq<char>|
                    if self.subscribers(ch).contains(id) {
                        ClientModel {
                            permissions: self.clients[id].permissions,
                            ready: self.clients[id].ready,
                            outbound: self.clients[id].outbound.push(
                                MsgModel::Broadcast { channel: ch, message: msg },
                            ),
                        }
                    } else {
                        self.clients[id]
                    },
            ),
            subs: self.subs,
        }
    }

    /// Draining a client's queue for delivery.
    pub open spec fn take_outbound(self, id: Seq<char>) -> RegistryModel {
        if self.has_client(id) {
            let c = self.clients[id];
            RegistryModel {
                clients: self.clients.insert(
                    id,
                    ClientModel {
                        permissions: c.permissions,
                        ready: c.ready,
                        outbound: Seq::empty(),
                    },
                ),
                subs: self.subs,
            }
        } else {
            self
        }
    }

    /// One directive from a control connection: `Permission` grants,
    /// `Message` broadcasts, anything else is ignored.
    pub open spec fn control_step(self, m: MsgModel) -> RegistryModel {
        match m {
            MsgModel::Permission { uid, permissions } => self.grant(uid, permissions),
            MsgModel::Message { channel, message } => self.broadcast(channel, message),
            _ => self,
        }
    }

    /// One frame from a streaming client: only `Subscribe` acts.
    pub open spec fn client_step(self, id: Seq<char>, m: MsgModel) -> RegistryModel {
        match m {
            MsgModel::Subscribe { channel } => self.subscribe(id, channel),
            _ => self,
        }
    }

    /// Registry invariant: a client id appears under a channel only if
    /// that client exists and holds permission for the channel.
    pub open spec fn inv(self) -> bool {
        forall|ch: Seq<char>, id: Seq<char>|
            #![auto]
            self.subs.dom().contains(ch) && self.subs[ch].contains(id) ==> self.clients.dom().contains(
                id,
            ) && self.clients[id].permissions.contains(ch)
    }
}

} // verus!
