use vstd::prelude::*;

use crate::messages::MsgModel;
use crate::model::RegistryModel;

verus! {

/// Folds a sequence of grant calls, oldest first, over a registry model.
/// Each element is a client id and the permission list granted to it.
pub open spec fn apply_grants(
    m: RegistryModel,
    gs: Seq<(Seq<char>, Seq<Seq<char>>)>,
) -> RegistryModel
    decreases gs.len(),
{
    if gs.len() == 0 {
        m
    } else {
        apply_grants(m.grant(gs[0].0, gs[0].1), gs.skip(1))
    }
}

/// Everything a sequence of grant calls ever grants to one client.
pub open spec fn granted_to(gs: Seq<(Seq<char>, Seq<Seq<char>>)>, id: Seq<char>) -> Set<Seq<char>>
    decreases gs.len(),
{
    if gs.len() == 0 {
        Set::empty()
    } else {
        let rest = granted_to(gs.skip(1), id);
        if gs[0].0 == id {
            gs[0].1.to_set().union(rest)
        } else {
            rest
        }
    }
}

/// Law: for any sequence of grant calls, however calls to different
/// clients interleave, a client's effective permission set is its
/// starting set united with every permission ever granted to it.
pub proof fn lemma_grants_accumulate(
    m: RegistryModel,
    gs: Seq<(Seq<char>, Seq<Seq<char>>)>,
    id: Seq<char>,
)
    requires
        m.has_client(id),
    ensures
        apply_grants(m, gs).has_client(id),
        apply_grants(m, gs).permissions_of(id) == m.permissions_of(id).union(granted_to(gs, id)),
    decreases gs.len(),
{
    if gs.len() == 0 {
        assert(m.permissions_of(id).union(granted_to(gs, id)) =~= m.permissions_of(id));
    } else {
        let m1 = m.grant(gs[0].0, gs[0].1);
        lemma_grants_accumulate(m1, gs.skip(1), id);
        if gs[0].0 == id {
            assert(m1.permissions_of(id) =~= m.permissions_of(id).union(gs[0].1.to_set()));
            assert(m.permissions_of(id).union(gs[0].1.to_set()).union(granted_to(gs.skip(1), id))
                =~= m.permissions_of(id).union(granted_to(gs, id)));
        } else {
            assert(m1.permissions_of(id) == m.permissions_of(id));
            assert(m.permissions_of(id).union(granted_to(gs.skip(1), id)) =~= m.permissions_of(
                id,
            ).union(granted_to(gs, id)));
        }
    }
}

/// Law: registering a client and then granting it its first, non-empty
/// permission list queues exactly two messages, `Uid` then `Ready`.
pub proof fn lemma_register_then_first_grant(
    m: RegistryModel,
    id: Seq<char>,
    perms: Seq<Seq<char>>,
)
    requires
        !m.has_client(id),
        perms.len() > 0,
    ensures
        m.register(id).grant(id, perms).outbound_of(id) == seq![
            MsgModel::Uid { uid: id },
            MsgModel::Ready,
        ],
{
    assert(m.register(id).grant(id, perms).outbound_of(id) =~= seq![
        MsgModel::Uid { uid: id },
        MsgModel::Ready,
    ]);
}

/// Law: a grant to a client that is already ready queues no further
/// message; in particular no second `Ready` is ever sent.
pub proof fn lemma_grant_after_ready_adds_no_message(
    m: RegistryModel,
    id: Seq<char>,
    perms: Seq<Seq<char>>,
)
    requires
        m.ready_of(id),
    ensures
        m.grant(id, perms).outbound_of(id) == m.outbound_of(id),
{
}

/// Law: after `unsubscribe_all`, the client appears in no channel's
/// subscriber set, whatever its prior subscription history.
pub proof fn lemma_unsubscribe_all_complete(m: RegistryModel, id: Seq<char>)
    ensures
        forall|ch: Seq<char>| !(#[trigger] m.unsubscribe_all(id).subscribers(ch)).contains(id),
{
}

/// Registering a fresh id cannot break the registry invariant.
pub proof fn lemma_register_preserves_inv(m: RegistryModel, id: Seq<char>)
    requires
        m.inv(),
        !m.has_client(id),
    ensures
        m.register(id).inv(),
{
}

/// Granting permissions only widens permission sets, so the invariant
/// survives.
pub proof fn lemma_grant_preserves_inv(m: RegistryModel, id: Seq<char>, perms: Seq<Seq<char>>)
    requires
        m.inv(),
    ensures
        m.grant(id, perms).inv(),
{
}

/// A subscription is recorded only with permission in hand, so the
/// invariant survives.
pub proof fn lemma_subscribe_preserves_inv(m: RegistryModel, id: Seq<char>, ch: Seq<char>)
    requires
        m.inv(),
    ensures
        m.subscribe(id, ch).inv(),
{
}

/// Shrinking subscriber sets cannot break the invariant.
pub proof fn lemma_unsubscribe_preserves_inv(m: RegistryModel, id: Seq<char>)
    requires
        m.inv(),
    ensures
        m.unsubscribe_all(id).inv(),
{
}

/// Deregistering is safe once the client is subscribed nowhere.
pub proof fn lemma_deregister_preserves_inv(m: RegistryModel, id: Seq<char>)
    requires
        m.inv(),
        forall|ch: Seq<char>| !(#[trigger] m.subscribers(ch)).contains(id),
    ensures
        m.deregister(id).inv(),
{
    let m2 = m.deregister(id);
    assert forall|ch: Seq<char>, id2: Seq<char>|
        #![auto]
        m2.subs.dom().contains(ch) && m2.subs[ch].contains(id2) implies m2.clients.dom().contains(
        id2,
    ) && m2.clients[id2].permissions.contains(ch) by {
        assert(m.subscribers(ch).contains(id2));
        assert(id2 != id);
    }
}

/// Broadcasting changes only outbound queues, so the invariant survives.
pub proof fn lemma_broadcast_preserves_inv(m: RegistryModel, ch: Seq<char>, msg: Seq<char>)
    requires
        m.inv(),
    ensures
        m.broadcast(ch, msg).inv(),
{
}

/// Draining an outbound queue changes no permission or subscription.
pub proof fn lemma_take_preserves_inv(m: RegistryModel, id: Seq<char>)
    requires
        m.inv(),
    ensures
        m.take_outbound(id).inv(),
{
}

} // verus!
