use vstd::prelude::*;

use crate::messages::MsgModel;
use crate::messages::WireMsg;
use crate::model::ClientModel;
use crate::model::RegistryModel;
use crate::laws::lemma_broadcast_preserves_inv;
use crate::laws::lemma_deregister_preserves_inv;
use crate::laws::lemma_grant_preserves_inv;
use crate::laws::lemma_register_preserves_inv;
use crate::laws::lemma_subscribe_preserves_inv;
use crate::laws::lemma_take_preserves_inv;
use crate::laws::lemma_unsubscribe_all_complete;
use crate::laws::lemma_unsubscribe_preserves_inv;

verus! {

/// One row of the client table.
struct ClientEntry {
    id: String,
    permissions: Vec<String>,
    ready: bool,
    outbound: Vec<WireMsg>,
}

/// One row of the subscription table.
struct SubEntry {
    channel: String,
    subscribers: Vec<String>,
}

/// The shared subscription/permission registry: the client table and the
/// channel-to-subscriber-set table. All mutation and query operations of
/// both listeners go through the methods of this type; each method's
/// contract is a transition on [`RegistryModel`].
pub struct Registry {
    clients: Vec<ClientEntry>,
    subs: Vec<SubEntry>,
}

spec fn client_entry_model(e: ClientEntry) -> ClientModel {
    ClientModel {
        permissions: e.permissions@.map_values(|p: String| p@).to_set(),
        ready: e.ready,
        outbound: e.outbound@.map_values(|m: WireMsg| m@),
    }
}

spec fn has_id(s: Seq<ClientEntry>, id: Seq<char>) -> bool {
    exists|i: int| 0 <= i < s.len() && s[i].id@ == id
}

spec fn idx_of(s: Seq<ClientEntry>, id: Seq<char>) -> int {
    choose|i: int| 0 <= i < s.len() && s[i].id@ == id
}

spec fn clients_view(s: Seq<ClientEntry>) -> Map<Seq<char>, ClientModel> {
    Map::new(
        |id: Seq<char>| has_id(s, id),
        |id: Seq<char>| client_entry_model(s[idx_of(s, id)]),
    )
}

spec fn unique_ids(s: Seq<ClientEntry>) -> bool {
    forall|i: int, j: int| 0 <= i < j < s.len() ==> s[i].id@ != s[j].id@
}

spec fn mapped_set(v: Seq<String>) -> Set<Seq<char>> {
    v.map_values(|x: String| x@).to_set()
}

spec fn has_ch(s: Seq<SubEntry>, ch: Seq<char>) -> bool {
    exists|i: int| 0 <= i < s.len() && s[i].channel@ == ch
}

spec fn ch_idx(s: Seq<SubEntry>, ch: Seq<char>) -> int {
    choose|i: int| 0 <= i < s.len() && s[i].channel@ == ch
}

spec fn subs_view(s: Seq<SubEntry>) -> Map<Seq<char>, Set<Seq<char>>> {
    Map::new(
        |ch: Seq<char>| has_ch(s, ch),
        |ch: Seq<char>| mapped_set(s[ch_idx(s, ch)].subscribers@),
    )
}

spec fn unique_chs(s: Seq<SubEntry>) -> bool {
    forall|i: int, j: int| 0 <= i < j < s.len() ==> s[i].channel@ != s[j].channel@
}

spec fn nodup_strs(v: Seq<String>) -> bool {
    forall|i: int, j: int| 0 <= i < j < v.len() ==> v[i]@ != v[j]@
}

spec fn all_nodup(s: Seq<SubEntry>) -> bool {
    forall|k: int| 0 <= k < s.len() ==> nodup_strs(#[trigger] s[k].subscribers@)
}

impl View for Registry {
    type V = RegistryModel;

    closed spec fn view(&self) -> RegistryModel {
        RegistryModel { clients: clients_view(self.clients@), subs: subs_view(self.subs@) }
    }
}

/// If some row holds the id, the chosen index is that row.
proof fn lemma_idx_unique(s: Seq<ClientEntry>, j: int)
    requires
        unique_ids(s),
        0 <= j < s.len(),
    ensures
        has_id(s, s[j].id@),
        idx_of(s, s[j].id@) == j,
{
    assert(has_id(s, s[j].id@));
    let i = idx_of(s, s[j].id@);
    assert(0 <= i < s.len() && s[i].id@ == s[j].id@);
    if i < j {
        assert(false);
    } else if j < i {
        assert(false);
    }
}

proof fn lemma_ch_idx_unique(s: Seq<SubEntry>, j: int)
    requires
        unique_chs(s),
        0 <= j < s.len(),
    ensures
        has_ch(s, s[j].channel@),
        ch_idx(s, s[j].channel@) == j,
{
    let i = ch_idx(s, s[j].channel@);
    assert(0 <= i < s.len() && s[i].channel@ == s[j].channel@);
    if i < j {
        assert(false);
    } else if j < i {
        assert(false);
    }
}

/// Replacing one row by another with the same id updates the map view at
/// exactly that key.
proof fn lemma_clients_view_update(s: Seq<ClientEntry>, j: int, e: ClientEntry)
    requires
        unique_ids(s),
        0 <= j < s.len(),
        e.id@ == s[j].id@,
    ensures
        unique_ids(s.update(j, e)),
        clients_view(s.update(j, e)) == clients_view(s).insert(e.id@, client_entry_model(e)),
{
    let s2 = s.update(j, e);
    assert forall|i: int| 0 <= i < s2.len() implies s2[i].id@ == s[i].id@ by {}
    assert(unique_ids(s2));
    let m1 = clients_view(s2);
    let m2 = clients_view(s).insert(e.id@, client_entry_model(e));
    assert forall|id: Seq<char>| has_id(s2, id) implies has_id(s, id) by {
        let i = choose|i: int| 0 <= i < s2.len() && s2[i].id@ == id;
        assert(s[i].id@ == id);
    }
    assert forall|id: Seq<char>| has_id(s, id) implies has_id(s2, id) by {
        let i = choose|i: int| 0 <= i < s.len() && s[i].id@ == id;
        assert(s2[i].id@ == id);
    }
    assert forall|id: Seq<char>| m1.dom().contains(id) implies m1[id] == m2[id] by {
        let i = idx_of(s2, id);
        assert(0 <= i < s2.len() && s2[i].id@ == id);
        assert(s[i].id@ == id);
        lemma_idx_unique(s, i);
        assert(idx_of(s, id) == i);
        if i == j {
            assert(id == e.id@);
            assert(s2[i] == e);
        } else {
            assert(id != e.id@);
            assert(s2[i] == s[i]);
        }
    }
    assert(m1 =~= m2);
}

/// Appending a row with a fresh id inserts exactly that key.
proof fn lemma_clients_view_push(s: Seq<ClientEntry>, e: ClientEntry)
    requires
        unique_ids(s),
        !has_id(s, e.id@),
    ensures
        unique_ids(s.push(e)),
        clients_view(s.push(e)) == clients_view(s).insert(e.id@, client_entry_model(e)),
{
    let s2 = s.push(e);
    assert forall|i: int, j: int| 0 <= i < j < s2.len() implies s2[i].id@ != s2[j].id@ by {
        if j < s.len() {
            assert(s2[i] == s[i] && s2[j] == s[j]);
        } else {
            assert(s2[j] == e);
            assert(s2[i] == s[i]);
        }
    }
    let m1 = clients_view(s2);
    let m2 = clients_view(s).insert(e.id@, client_entry_model(e));
    assert forall|id: Seq<char>| has_id(s2, id) implies (has_id(s, id) || id == e.id@) by {
        let i = choose|i: int| 0 <= i < s2.len() && s2[i].id@ == id;
        if i < s.len() {
            assert(s[i].id@ == id);
        }
    }
    assert forall|id: Seq<char>| has_id(s, id) implies has_id(s2, id) by {
        let i = choose|i: int| 0 <= i < s.len() && s[i].id@ == id;
        assert(s2[i].id@ == id);
    }
    assert(s2[s.len() as int] == e);
    assert(has_id(s2, e.id@));
    assert forall|id: Seq<char>| m1.dom().contains(id) implies m1[id] == m2[id] by {
        let i = idx_of(s2, id);
        assert(0 <= i < s2.len() && s2[i].id@ == id);
        if i < s.len() {
            assert(s[i].id@ == id);
            lemma_idx_unique(s, i);
            assert(s2[i] == s[i]);
            assert(id != e.id@);
        } else {
            assert(s2[i] == e);
            assert(id == e.id@);
        }
    }
    assert(m1 =~= m2);
}

/// Removing a row deletes exactly its key from the map view.
proof fn lemma_clients_view_remove(s: Seq<ClientEntry>, j: int)
    requires
        unique_ids(s),
        0 <= j < s.len(),
    ensures
        unique_ids(s.remove(j)),
        clients_view(s.remove(j)) == clients_view(s).remove(s[j].id@),
{
    let s2 = s.remove(j);
    assert forall|i: int| 0 <= i < s2.len() implies s2[i] == (if i < j {
        s[i]
    } else {
        s[i + 1]
    }) by {}
    assert forall|i: int, k: int| 0 <= i < k < s2.len() implies s2[i].id@ != s2[k].id@ by {}
    let m1 = clients_view(s2);
    let m2 = clients_view(s).remove(s[j].id@);
    assert forall|id: Seq<char>| has_id(s2, id) implies (has_id(s, id) && id != s[j].id@) by {
        let i = choose|i: int| 0 <= i < s2.len() && s2[i].id@ == id;
        if i < j {
            assert(s[i].id@ == id);
            assert(i != j);
        } else {
            assert(s[i + 1].id@ == id);
            assert(i + 1 != j);
        }
    }
    assert forall|id: Seq<char>| has_id(s, id) && id != s[j].id@ implies has_id(s2, id) by {
        let i = choose|i: int| 0 <= i < s.len() && s[i].id@ == id;
        assert(i != j);
        if i < j {
            assert(s2[i].id@ == id);
        } else {
            assert(s2[i - 1].id@ == id);
        }
    }
    assert forall|id: Seq<char>| m1.dom().contains(id) implies m1[id] == m2[id] by {
        let i = idx_of(s2, id);
        assert(0 <= i < s2.len() && s2[i].id@ == id);
        if i < j {
            lemma_idx_unique(s, i);
        } else {
            lemma_idx_unique(s, i + 1);
        }
    }
    assert(m1 =~= m2);
}

/// Replacing one row by another with the same channel updates the map
/// view at exactly that key.
proof fn lemma_subs_view_update(s: Seq<SubEntry>, j: int, e: SubEntry)
    requires
        unique_chs(s),
        0 <= j < s.len(),
        e.channel@ == s[j].channel@,
    ensures
        unique_chs(s.update(j, e)),
        subs_view(s.update(j, e)) == subs_view(s).insert(e.channel@, mapped_set(e.subscribers@)),
{
    let s2 = s.update(j, e);
    assert forall|i: int| 0 <= i < s2.len() implies s2[i].channel@ == s[i].channel@ by {}
    assert(unique_chs(s2));
    let m1 = subs_view(s2);
    let m2 = subs_view(s).insert(e.channel@, mapped_set(e.subscribers@));
    assert forall|ch: Seq<char>| has_ch(s2, ch) implies has_ch(s, ch) by {
        let i = choose|i: int| 0 <= i < s2.len() && s2[i].channel@ == ch;
        assert(s[i].channel@ == ch);
    }
    assert forall|ch: Seq<char>| has_ch(s, ch) implies has_ch(s2, ch) by {
        let i = choose|i: int| 0 <= i < s.len() && s[i].channel@ == ch;
        assert(s2[i].channel@ == ch);
    }
    assert forall|ch: Seq<char>| m1.dom().contains(ch) implies m1[ch] == m2[ch] by {
        let i = ch_idx(s2, ch);
        assert(0 <= i < s2.len() && s2[i].channel@ == ch);
        assert(s[i].channel@ == ch);
        lemma_ch_idx_unique(s, i);
        if i == j {
            assert(s2[i] == e);
        } else {
            assert(ch != e.channel@);
            assert(s2[i] == s[i]);
        }
    }
    assert(m1 =~= m2);
}

/// Appending a row with a fresh channel inserts exactly that key.
proof fn lemma_subs_view_push(s: Seq<SubEntry>, e: SubEntry)
    requires
        unique_chs(s),
        !has_ch(s, e.channel@),
    ensures
        unique_chs(s.push(e)),
        subs_view(s.push(e)) == subs_view(s).insert(e.channel@, mapped_set(e.subscribers@)),
{
    let s2 = s.push(e);
    assert forall|i: int, j: int| 0 <= i < j < s2.len() implies s2[i].channel@ != s2[j].channel@ by {
        if j < s.len() {
            assert(s2[i] == s[i] && s2[j] == s[j]);
        } else {
            assert(s2[j] == e);
            assert(s2[i] == s[i]);
        }
    }
    let m1 = subs_view(s2);
    let m2 = subs_view(s).insert(e.channel@, mapped_set(e.subscribers@));
    assert forall|ch: Seq<char>| has_ch(s2, ch) implies (has_ch(s, ch) || ch == e.channel@) by {
        let i = choose|i: int| 0 <= i < s2.len() && s2[i].channel@ == ch;
        if i < s.len() {
            assert(s[i].channel@ == ch);
        }
    }
    assert forall|ch: Seq<char>| has_ch(s, ch) implies has_ch(s2, ch) by {
        let i = choose|i: int| 0 <= i < s.len() && s[i].channel@ == ch;
        assert(s2[i].channel@ == ch);
    }
    assert(s2[s.len() as int] == e);
    assert(has_ch(s2, e.channel@));
    assert forall|ch: Seq<char>| m1.dom().contains(ch) implies m1[ch] == m2[ch] by {
        let i = ch_idx(s2, ch);
        assert(0 <= i < s2.len() && s2[i].channel@ == ch);
        if i < s.len() {
            assert(s[i].channel@ == ch);
            lemma_ch_idx_unique(s, i);
            assert(s2[i] == s[i]);
            assert(ch != e.channel@);
        } else {
            assert(s2[i] == e);
        }
    }
    assert(m1 =~= m2);
}

/// Membership in the set view of a string vector is existence of an index.
proof fn lemma_mapped_contains(v: Seq<String>, x: Seq<char>)
    ensures
        mapped_set(v).contains(x) <==> exists|i: int| 0 <= i < v.len() && v[i]@ == x,
{
    let mv = v.map_values(|p: String| p@);
    if mapped_set(v).contains(x) {
        assert(mv.contains(x));
        let i = choose|i: int| 0 <= i < mv.len() && mv[i] == x;
        assert(v[i]@ == x);
    }
    if exists|i: int| 0 <= i < v.len() && v[i]@ == x {
        let i = choose|i: int| 0 <= i < v.len() && v[i]@ == x;
        assert(mv[i] == x);
        assert(mv.contains(x));
    }
}

/// Pushing a string inserts its character sequence into the set view.
proof fn lemma_mapped_push(v: Seq<String>, x: String)
    ensures
        mapped_set(v.push(x)) == mapped_set(v).insert(x@),
{
    let v2 = v.push(x);
    assert forall|y: Seq<char>| mapped_set(v2).contains(y) implies mapped_set(v).insert(
        x@,
    ).contains(y) by {
        lemma_mapped_contains(v2, y);
        let i = choose|i: int| 0 <= i < v2.len() && v2[i]@ == y;
        if i < v.len() {
            assert(v[i]@ == y);
            lemma_mapped_contains(v, y);
        } else {
            assert(v2[i] == x);
        }
    }
    assert forall|y: Seq<char>| mapped_set(v).insert(x@).contains(y) implies mapped_set(
        v2,
    ).contains(y) by {
        if y == x@ {
            assert(v2[v.len() as int]@ == y);
            lemma_mapped_contains(v2, y);
        } else {
            lemma_mapped_contains(v, y);
            let i = choose|i: int| 0 <= i < v.len() && v[i]@ == y;
            assert(v2[i]@ == y);
            lemma_mapped_contains(v2, y);
        }
    }
    assert(mapped_set(v2) =~= mapped_set(v).insert(x@));
}

/// Removing the only occurrence of a string removes exactly its character
/// sequence from the set view.
proof fn lemma_mapped_remove(v: Seq<String>, j: int)
    requires
        nodup_strs(v),
        0 <= j < v.len(),
    ensures
        nodup_strs(v.remove(j)),
        mapped_set(v.remove(j)) == mapped_set(v).remove(v[j]@),
{
    let v2 = v.remove(j);
    assert forall|i: int| 0 <= i < v2.len() implies v2[i] == (if i < j {
        v[i]
    } else {
        v[i + 1]
    }) by {}
    assert forall|i: int, k: int| 0 <= i < k < v2.len() implies v2[i]@ != v2[k]@ by {}
    assert forall|y: Seq<char>| mapped_set(v2).contains(y) implies (mapped_set(v).contains(y) && y
        != v[j]@) by {
        lemma_mapped_contains(v2, y);
        let i = choose|i: int| 0 <= i < v2.len() && v2[i]@ == y;
        if i < j {
            assert(v[i]@ == y);
            assert(i != j);
        } else {
            assert(v[i + 1]@ == y);
            assert(i + 1 != j);
        }
        lemma_mapped_contains(v, y);
    }
    assert forall|y: Seq<char>| mapped_set(v).contains(y) && y != v[j]@ implies mapped_set(
        v2,
    ).contains(y) by {
        lemma_mapped_contains(v, y);
        let i = choose|i: int| 0 <= i < v.len() && v[i]@ == y;
        assert(i != j);
        if i < j {
            assert(v2[i]@ == y);
        } else {
            assert(v2[i - 1]@ == y);
        }
        lemma_mapped_contains(v2, y);
    }
    assert(mapped_set(v2) =~= mapped_set(v).remove(v[j]@));
}

/// The set view of a concatenation is the union of the set views.
proof fn lemma_mapped_add(a: Seq<String>, b: Seq<String>)
    ensures
        mapped_set(a + b) == mapped_set(a).union(mapped_set(b)),
{
    let c = a + b;
    assert forall|y: Seq<char>| mapped_set(c).contains(y) implies mapped_set(a).union(
        mapped_set(b),
    ).contains(y) by {
        lemma_mapped_contains(c, y);
        let i = choose|i: int| 0 <= i < c.len() && c[i]@ == y;
        if i < a.len() {
            assert(a[i]@ == y);
            lemma_mapped_contains(a, y);
        } else {
            assert(b[i - a.len()]@ == y);
            lemma_mapped_contains(b, y);
        }
    }
    assert forall|y: Seq<char>| mapped_set(a).union(mapped_set(b)).contains(y) implies mapped_set(
        c,
    ).contains(y) by {
        if mapped_set(a).contains(y) {
            lemma_mapped_contains(a, y);
            let i = choose|i: int| 0 <= i < a.len() && a[i]@ == y;
            assert(c[i]@ == y);
        } else {
            lemma_mapped_contains(b, y);
            let i = choose|i: int| 0 <= i < b.len() && b[i]@ == y;
            assert(c[a.len() + i]@ == y);
        }
        lemma_mapped_contains(c, y);
    }
    assert(mapped_set(c) =~= mapped_set(a).union(mapped_set(b)));
}

/// Character-sequence equality of two string slices, checked by value.
fn str_eq(a: &str, b: &str) -> (r: bool)
    ensures
        r == (a@ == b@),
{
    let sa: String = a.to_owned();
    let sb: String = b.to_owned();
    sa == sb
}

/// Linear search of the client table.
fn find_client(v: &Vec<ClientEntry>, id: &str) -> (r: Option<usize>)
    ensures
        match r {
            Some(i) => i < v@.len() && v@[i as int].id@ == id@,
            None => !has_id(v@, id@),
        },
{
    let n = v.len();
    let mut i: usize = 0;
    while i < n
        invariant
            n == v@.len(),
            i <= n,
            forall|j: int| 0 <= j < i ==> v@[j].id@ != id@,
        decreases n - i,
    {
        if str_eq(v[i].id.as_str(), id) {
            return Some(i);
        }
        i += 1;
    }
    None
}

/// Linear search of the subscription table.
fn find_sub(v: &Vec<SubEntry>, ch: &str) -> (r: Option<usize>)
    ensures
        match r {
            Some(i) => i < v@.len() && v@[i as int].channel@ == ch@,
            None => !has_ch(v@, ch@),
        },
{
    let n = v.len();
    let mut i: usize = 0;
    while i < n
        invariant
            n == v@.len(),
            i <= n,
            forall|j: int| 0 <= j < i ==> v@[j].channel@ != ch@,
        decreases n - i,
    {
        if str_eq(v[i].channel.as_str(), ch) {
            return Some(i);
        }
        i += 1;
    }
    None
}

/// Does the vector hold a string with these characters?
fn contains_str(v: &Vec<String>, x: &str) -> (r: bool)
    ensures
        r == mapped_set(v@).contains(x@),
{
    let n = v.len();
    let mut i: usize = 0;
    while i < n
        invariant
            n == v@.len(),
            i <= n,
            forall|j: int| 0 <= j < i ==> v@[j]@ != x@,
        decreases n - i,
    {
        if str_eq(v[i].as_str(), x) {
            proof {
                lemma_mapped_contains(v@, x@);
            }
            return true;
        }
        i += 1;
    }
    proof {
        lemma_mapped_contains(v@, x@);
    }
    false
}

/// Removes the string with these characters, if present.
fn remove_str(v: &mut Vec<String>, x: &str)
    requires
        nodup_strs(old(v)@),
    ensures
        nodup_strs(final(v)@),
        mapped_set(final(v)@) == mapped_set(old(v)@).remove(x@),
{
    let n = v.len();
    let mut i: usize = 0;
    while i < n
        invariant
            n == v@.len(),
            i <= n,
            nodup_strs(v@),
            v@ == old(v)@,
            forall|j: int| 0 <= j < i ==> v@[j]@ != x@,
        decreases n - i,
    {
        if str_eq(v[i].as_str(), x) {
            proof {
                lemma_mapped_remove(v@, i as int);
            }
            v.remove(i);
            return ;
        }
        i += 1;
    }
    proof {
        lemma_mapped_contains(v@, x@);
        assert(mapped_set(v@) =~= mapped_set(v@).remove(x@));
    }
}

/// An upper bound on the lengths of all stored client ids.
fn max_id_len(v: &Vec<ClientEntry>) -> (r: usize)
    ensures
        forall|i: int| 0 <= i < v@.len() ==> (#[trigger] v@[i]).id@.len() <= r,
{
    let mut r: usize = 0;
    let n = v.len();
    let mut i: usize = 0;
    while i < n
        invariant
            i <= n,
            n == v@.len(),
            forall|j: int| 0 <= j < i ==> (#[trigger] v@[j]).id@.len() <= r,
        decreases n - i,
    {
        let l = v[i].id.as_str().unicode_len();
        if l > r {
            r = l;
        }
        i += 1;
    }
    r
}

/// Appends one message to the outbound queue of the client with this id,
/// if such a client exists; otherwise leaves the table untouched.
fn push_outbound(clients: &mut Vec<ClientEntry>, id: &str, m: WireMsg)
    requires
        unique_ids(old(clients)@),
    ensures
        unique_ids(final(clients)@),
        clients_view(final(clients)@) == (if has_id(old(clients)@, id@) {
            let c = clients_view(old(clients)@)[id@];
            clients_view(old(clients)@).insert(
                id@,
                (ClientModel {
                    permissions: c.permissions,
                    ready: c.ready,
                    outbound: c.outbound.push(m@),
                }),
            )
        } else {
            clients_view(old(clients)@)
        }),
{
    let ghost m0 = m@;
    match find_client(clients, id) {
        Some(j) => {
            proof {
                lemma_idx_unique(clients@, j as int);
            }
            clients[j].outbound.push(m);
            proof {
                let e2 = clients@[j as int];
                assert(clients@ =~= old(clients)@.update(j as int, e2));
                lemma_clients_view_update(old(clients)@, j as int, e2);
                let c = clients_view(old(clients)@)[id@];
                assert(e2.outbound@.map_values(|x: WireMsg| x@) =~= c.outbound.push(m0));
                assert(client_entry_model(e2) == (ClientModel {
                    permissions: c.permissions,
                    ready: c.ready,
                    outbound: c.outbound.push(m0),
                }));
            }
        },
        None => {
        },
    }
}

/// Relies on uuid's `Uuid::new_v4` and its hyphenated text form: draws a
/// random identifier. Nothing is promised of the value; the caller checks
/// freshness itself.
#[verifier::external_body]
fn gen_uuid() -> String {
    uuid::Uuid::new_v4().to_string()
}

impl Registry {
    /// Well-formedness of the representation: ids and channel names are
    /// unique, subscriber lists are duplicate-free, and every subscriber
    /// exists and holds permission for its channel.
    pub closed spec fn wf(self) -> bool {
        &&& unique_ids(self.clients@)
        &&& unique_chs(self.subs@)
        &&& all_nodup(self.subs@)
        &&& self@.inv()
    }

    /// A registry with no clients and no subscriptions.
    pub fn new() -> (r: Registry)
        ensures
            r.wf(),
            r@ == RegistryModel::empty(),
    {
        let r = Registry { clients: Vec::new(), subs: Vec::new() };
        proof {
            assert(clients_view(r.clients@) =~= Map::<Seq<char>, ClientModel>::empty());
            assert(subs_view(r.subs@) =~= Map::<Seq<char>, Set<Seq<char>>>::empty());
        }
        r
    }

    /// Is a client with this id currently registered?
    pub fn has_client(&self, id: &str) -> (r: bool)
        ensures
            r == self@.has_client(id@),
    {
        find_client(&self.clients, id).is_some()
    }

    /// Inserts a fresh client record with no permissions and queues the
    /// one `Uid` message that announces the new identity. The id comes
    /// from the caller; ids are never reused, so it must be fresh.
    pub fn register_client_with_id(&mut self, id: &str)
        requires
            old(self).wf(),
            !old(self)@.has_client(id@),
        ensures
            final(self).wf(),
            final(self)@ == old(self)@.register(id@),
    {
        let mut outbound: Vec<WireMsg> = Vec::new();
        outbound.push(WireMsg::Uid { uid: id.to_owned() });
        let e = ClientEntry { id: id.to_owned(), permissions: Vec::new(), outbound, ready: false };
        proof {
            lemma_clients_view_push(self.clients@, e);
            assert(e.permissions@.map_values(|p: String| p@).to_set() =~= Set::<Seq<char>>::empty());
            assert(e.outbound@.map_values(|x: WireMsg| x@) =~= seq![MsgModel::Uid { uid: id@ }]);
            lemma_register_preserves_inv(old(self)@, id@);
        }
        self.clients.push(e);
    }

    /// Allocates a fresh identifier, registers the client under it and
    /// returns the id. Never fails: on the (negligible) chance that the
    /// drawn identifier is taken, it is lengthened until it is fresh.
    pub fn register_client(&mut self) -> (id: String)
        requires
            old(self).wf(),
        ensures
            final(self).wf(),
            !old(self)@.has_client(id@),
            final(self)@ == old(self)@.register(id@),
    {
        let mut id = gen_uuid();
        let bound = max_id_len(&self.clients);
        while self.has_client(id.as_str())
            invariant
                self.wf(),
                *self == *old(self),
                forall|i: int|
                    0 <= i < self.clients@.len() ==> (#[trigger] self.clients@[i]).id@.len()
                        <= bound,
            decreases bound + 1 - id@.len(),
        {
            proof {
                let i = idx_of(self.clients@, id@);
                assert(0 <= i < self.clients@.len() && self.clients@[i].id@ == id@);
                assert(id@.len() <= bound);
            }
            id.append("0");
            proof {
                reveal_strlit("0");
            }
        }
        self.register_client_with_id(id.as_str());
        id
    }

    /// Appends the given permissions to the client's permission set; a
    /// silent no-op when the client is gone (the backend may race with a
    /// disconnect). The first grant queues one `Ready` message and marks
    /// the client ready.
    pub fn grant_permissions(&mut self, id: &str, perms: &Vec<String>)
        requires
            old(self).wf(),
        ensures
            final(self).wf(),
            final(self)@ == old(self)@.grant(id@, perms@.map_values(|p: String| p@)),
    {
        let j = match find_client(&self.clients, id) {
            Some(j) => j,
            None => {
                return ;
            },
        };
        let ghost old_perms = self.clients@[j as int].permissions@;
        let n = perms.len();
        let mut k: usize = 0;
        while k < n
            invariant
                n == perms@.len(),
                k <= n,
                j < self.clients@.len(),
                self.clients@.len() == old(self).clients@.len(),
                old_perms == old(self).clients@[j as int].permissions@,
                forall|i: int|
                    0 <= i < self.clients@.len() && i != j ==> self.clients@[i] == old(
                        self,
                    ).clients@[i],
                self.clients@[j as int].id == old(self).clients@[j as int].id,
                self.clients@[j as int].ready == old(self).clients@[j as int].ready,
                self.clients@[j as int].outbound == old(self).clients@[j as int].outbound,
                self.clients@[j as int].permissions@ == old_perms + perms@.subrange(0, k as int),
                self.subs == old(self).subs,
            decreases n - k,
        {
            self.clients[j].permissions.push(perms[k].clone());
            proof {
                assert(self.clients@[j as int].permissions@ =~= old_perms + perms@.subrange(
                    0,
                    k as int + 1,
                ));
            }
            k += 1;
        }
        if !self.clients[j].ready {
            self.clients[j].outbound.push(WireMsg::Ready);
            self.clients[j].ready = true;
        }
        proof {
            assert(perms@.subrange(0, n as int) =~= perms@);
            let ghost ps = perms@.map_values(|p: String| p@);
            let e3 = self.clients@[j as int];
            assert(self.clients@ =~= old(self).clients@.update(j as int, e3));
            lemma_idx_unique(old(self).clients@, j as int);
            lemma_clients_view_update(old(self).clients@, j as int, e3);
            let c = clients_view(old(self).clients@)[id@];
            lemma_mapped_add(old_perms, perms@);
            assert(mapped_set(perms@) == ps.to_set());
            assert(e3.permissions@.map_values(|p: String| p@).to_set() == c.permissions.union(
                ps.to_set(),
            ));
            if c.ready {
                assert(client_entry_model(e3) == (ClientModel {
                    permissions: c.permissions.union(ps.to_set()),
                    ready: true,
                    outbound: c.outbound,
                }));
            } else {
                assert(e3.outbound@.map_values(|x: WireMsg| x@) =~= c.outbound.push(
                    MsgModel::Ready,
                ));
            }
            assert(old(self)@.has_client(id@));
            assert(self@ == old(self)@.grant(id@, ps));
            lemma_grant_preserves_inv(old(self)@, id@, ps);
        }
    }

    /// Adds the client to the channel's subscriber set exactly when the
    /// client exists and holds permission for the channel; otherwise the
    /// registry is unchanged. Re-subscribing is a no-op.
    pub fn subscribe(&mut self, id: &str, channel: &str)
        requires
            old(self).wf(),
        ensures
            final(self).wf(),
            final(self)@ == old(self)@.subscribe(id@, channel@),
            old(self)@.has_client(id@) && old(self)@.permissions_of(id@).contains(channel@)
                ==> final(self)@.subscribers(channel@) == old(self)@.subscribers(channel@).insert(id@),
            !(old(self)@.has_client(id@) && old(self)@.permissions_of(id@).contains(channel@))
                ==> final(self)@ == old(self)@,
    {
        let j = match find_client(&self.clients, id) {
            Some(j) => j,
            None => {
                return ;
            },
        };
        proof {
            lemma_idx_unique(self.clients@, j as int);
        }
        let allowed = contains_str(&self.clients[j].permissions, channel);
        if !allowed {
            return ;
        }
        proof {
            lemma_subscribe_preserves_inv(old(self)@, id@, channel@);
        }
        match find_sub(&self.subs, channel) {
            Some(k) => {
                proof {
                    lemma_ch_idx_unique(self.subs@, k as int);
                }
                if !contains_str(&self.subs[k].subscribers, id) {
                    let ghost old_subsk = self.subs@[k as int].subscribers@;
                    self.subs[k].subscribers.push(id.to_owned());
                    proof {
                        let e2 = self.subs@[k as int];
                        assert(self.subs@ =~= old(self).subs@.update(k as int, e2));
                        lemma_mapped_push(old_subsk, e2.subscribers@.last());
                        lemma_mapped_contains(old_subsk, id@);
                        lemma_subs_view_update(old(self).subs@, k as int, e2);
                        assert(self@ == old(self)@.subscribe(id@, channel@));
                    }
                } else {
                    proof {
                        assert(old(self)@.subscribers(channel@).insert(id@) =~= old(
                            self,
                        )@.subscribers(channel@));
                        assert(old(self)@.subs.insert(channel@, old(self)@.subscribers(channel@))
                            =~= old(self)@.subs);
                        assert(self@ == old(self)@.subscribe(id@, channel@));
                    }
                }
            },
            None => {
                let mut subscribers: Vec<String> = Vec::new();
                subscribers.push(id.to_owned());
                let e = SubEntry { channel: channel.to_owned(), subscribers };
                proof {
                    lemma_subs_view_push(self.subs@, e);
                    assert(e.subscribers@[0]@ == id@);
                    assert forall|y: Seq<char>| mapped_set(e.subscribers@).contains(y) implies y
                        == id@ by {
                        lemma_mapped_contains(e.subscribers@, y);
                    }
                    lemma_mapped_contains(e.subscribers@, id@);
                    assert(mapped_set(e.subscribers@) =~= Set::<Seq<char>>::empty().insert(id@));
                }
                self.subs.push(e);
                proof {
                    assert(self@ == old(self)@.subscribe(id@, channel@));
                }
            },
        }
    }

    /// Removes the client from every channel's subscriber set. Afterwards
    /// the id appears in no subscriber set at all.
    pub fn unsubscribe_all(&mut self, id: &str)
        requires
            old(self).wf(),
        ensures
            final(self).wf(),
            final(self)@ == old(self)@.unsubscribe_all(id@),
            forall|ch: Seq<char>| !(#[trigger] final(self)@.subscribers(ch)).contains(id@),
    {
        let n = self.subs.len();
        let mut k: usize = 0;
        while k < n
            invariant
                n == self.subs@.len(),
                self.subs@.len() == old(self).subs@.len(),
                k <= n,
                self.clients == old(self).clients,
                forall|i: int|
                    0 <= i < n ==> (#[trigger] self.subs@[i]).channel@ == old(
                        self,
                    ).subs@[i].channel@,
                forall|i: int| k <= i < n ==> self.subs@[i] == old(self).subs@[i],
                forall|i: int|
                    0 <= i < k ==> mapped_set(#[trigger] self.subs@[i].subscribers@) == mapped_set(
                        old(self).subs@[i].subscribers@,
                    ).remove(id@),
                all_nodup(self.subs@),
                all_nodup(old(self).subs@),
            decreases n - k,
        {
            remove_str(&mut self.subs[k].subscribers, id);
            k += 1;
        }
        proof {
            let s_old = old(self).subs@;
            let s_new = self.subs@;
            assert(unique_chs(s_new));
            assert forall|ch: Seq<char>| has_ch(s_new, ch) implies has_ch(s_old, ch) by {
                let i = choose|i: int| 0 <= i < s_new.len() && s_new[i].channel@ == ch;
                assert(s_old[i].channel@ == ch);
            }
            assert forall|ch: Seq<char>| has_ch(s_old, ch) implies has_ch(s_new, ch) by {
                let i = choose|i: int| 0 <= i < s_old.len() && s_old[i].channel@ == ch;
                assert(s_new[i].channel@ == ch);
            }
            assert forall|ch: Seq<char>| subs_view(s_new).dom().contains(ch) implies subs_view(
                s_new,
            )[ch] == subs_view(s_old)[ch].remove(id@) by {
                let i = ch_idx(s_new, ch);
                assert(0 <= i < s_new.len() && s_new[i].channel@ == ch);
                assert(s_old[i].channel@ == ch);
                lemma_ch_idx_unique(s_old, i);
            }
            assert(subs_view(s_new) =~= old(self)@.unsubscribe_all(id@).subs);
            lemma_unsubscribe_preserves_inv(old(self)@, id@);
            lemma_unsubscribe_all_complete(old(self)@, id@);
        }
    }

    /// Drops the client record. Must follow `unsubscribe_all`, so that no
    /// channel still lists the id; removing an unknown id is a no-op.
    pub fn deregister_client(&mut self, id: &str)
        requires
            old(self).wf(),
            forall|ch: Seq<char>| !(#[trigger] old(self)@.subscribers(ch)).contains(id@),
        ensures
            final(self).wf(),
            final(self)@ == old(self)@.deregister(id@),
    {
        proof {
            lemma_deregister_preserves_inv(old(self)@, id@);
        }
        match find_client(&self.clients, id) {
            Some(j) => {
                proof {
                    lemma_clients_view_remove(self.clients@, j as int);
                }
                self.clients.remove(j);
            },
            None => {
                proof {
                    assert(clients_view(self.clients@).remove(id@) =~= clients_view(
                        self.clients@,
                    ));
                }
            },
        }
    }

    /// Disconnect cleanup: clears every subscription first, then drops
    /// the client record, in that order.
    pub fn client_disconnect(&mut self, id: &str)
        requires
            old(self).wf(),
        ensures
            final(self).wf(),
            final(self)@ == old(self)@.unsubscribe_all(id@).deregister(id@),
    {
        self.unsubscribe_all(id);
        self.deregister_client(id);
    }

    /// Queues one `Broadcast` message to every current subscriber of the
    /// channel, and to no other client. A channel without subscribers is
    /// a no-op.
    pub fn broadcast(&mut self, channel: &str, message: &str)
        requires
            old(self).wf(),
        ensures
            final(self).wf(),
            final(self)@ == old(self)@.broadcast(channel@, message@),
            forall|id: Seq<char>|
                old(self)@.subscribers(channel@).contains(id) ==> #[trigger] final(self)@.outbound_of(id)
                    == old(self)@.outbound_of(id).push(
                    MsgModel::Broadcast { channel: channel@, message: message@ },
                ),
            forall|id: Seq<char>|
                !old(self)@.subscribers(channel@).contains(id) ==> #[trigger] final(self)@.outbound_of(id)
                    == old(self)@.outbound_of(id),
    {
        let ghost b = MsgModel::Broadcast { channel: channel@, message: message@ };
        let ghost m0 = old(self)@;
        let k = match find_sub(&self.subs, channel) {
            Some(k) => k,
            None => {
                proof {
                    assert(m0.broadcast(channel@, message@).clients =~= m0.clients);
                    lemma_broadcast_preserves_inv(m0, channel@, message@);
                    assert forall|id: Seq<char>| !m0.subscribers(channel@).contains(id)
                        && #[trigger] self@.outbound_of(id) == m0.outbound_of(id) by {}
                }
                return ;
            },
        };
        proof {
            lemma_ch_idx_unique(self.subs@, k as int);
        }
        let ghost subsk = self.subs@[k as int].subscribers@;
        let cnt = self.subs[k].subscribers.len();
        let mut i: usize = 0;
        while i < cnt
            invariant
                old(self).wf(),
                m0 == old(self)@,
                k < self.subs@.len(),
                self.subs == old(self).subs,
                subsk == self.subs@[k as int].subscribers@,
                self.subs@[k as int].channel@ == channel@,
                m0.subscribers(channel@) == mapped_set(subsk),
                nodup_strs(subsk),
                cnt == subsk.len(),
                i <= cnt,
                b == (MsgModel::Broadcast { channel: channel@, message: message@ }),
                unique_ids(self.clients@),
                clients_view(self.clients@).dom() =~= m0.clients.dom(),
                forall|id: Seq<char>|
                    #![auto]
                    m0.clients.dom().contains(id) ==> clients_view(self.clients@)[id] == (if
                    mapped_set(subsk.subrange(0, i as int)).contains(id) {
                        (ClientModel {
                            permissions: m0.clients[id].permissions,
                            ready: m0.clients[id].ready,
                            outbound: m0.clients[id].outbound.push(b),
                        })
                    } else {
                        m0.clients[id]
                    }),
            decreases cnt - i,
        {
            let sid = self.subs[k].subscribers[i].clone();
            proof {
                assert(sid@ == subsk[i as int]@);
                lemma_mapped_contains(subsk, sid@);
                assert(m0.subscribers(channel@).contains(sid@));
                assert(m0.inv());
                assert(m0.clients.dom().contains(sid@));
                lemma_mapped_contains(subsk.subrange(0, i as int), sid@);
                assert(!mapped_set(subsk.subrange(0, i as int)).contains(sid@));
            }
            let msg = WireMsg::Broadcast { channel: channel.to_owned(), message: message.to_owned() };
            let ghost pre = self.clients@;
            push_outbound(&mut self.clients, sid.as_str(), msg);
            proof {
                assert(has_id(pre, sid@));
                assert(subsk.subrange(0, i as int + 1) =~= subsk.subrange(0, i as int).push(
                    subsk[i as int],
                ));
                lemma_mapped_push(subsk.subrange(0, i as int), subsk[i as int]);
                assert forall|id: Seq<char>|
                    #![auto]
                    m0.clients.dom().contains(id) implies clients_view(self.clients@)[id] == (if
                mapped_set(subsk.subrange(0, i as int + 1)).contains(id) {
                    (ClientModel {
                        permissions: m0.clients[id].permissions,
                        ready: m0.clients[id].ready,
                        outbound: m0.clients[id].outbound.push(b),
                    })
                } else {
                    m0.clients[id]
                }) by {
                    if id == sid@ {
                        assert(clients_view(pre)[id] == m0.clients[id]);
                    }
                }
            }
            i += 1;
        }
        proof {
            assert(subsk.subrange(0, cnt as int) =~= subsk);
            let target = m0.broadcast(channel@, message@);
            assert forall|id: Seq<char>| clients_view(self.clients@).dom().contains(id) implies
                clients_view(self.clients@)[id] == target.clients[id] by {}
            assert(clients_view(self.clients@) =~= target.clients);
            assert(self@ == target);
            lemma_broadcast_preserves_inv(m0, channel@, message@);
            assert forall|id: Seq<char>| m0.subscribers(channel@).contains(id) implies
                #[trigger] self@.outbound_of(id) == m0.outbound_of(id).push(b) by {
                assert(m0.clients.dom().contains(id));
            }
        }
    }

    /// Hands back everything queued for the client, oldest first, and
    /// leaves its queue empty. Unknown ids yield nothing.
    pub fn take_outbound(&mut self, id: &str) -> (r: Vec<WireMsg>)
        requires
            old(self).wf(),
        ensures
            final(self).wf(),
            final(self)@ == old(self)@.take_outbound(id@),
            r@.map_values(|m: WireMsg| m@) == old(self)@.outbound_of(id@),
    {
        proof {
            lemma_take_preserves_inv(old(self)@, id@);
        }
        match find_client(&self.clients, id) {
            Some(j) => {
                proof {
                    lemma_idx_unique(self.clients@, j as int);
                }
                let mut out: Vec<WireMsg> = Vec::new();
                core::mem::swap(&mut out, &mut self.clients[j].outbound);
                proof {
                    let e2 = self.clients@[j as int];
                    assert(self.clients@ =~= old(self).clients@.update(j as int, e2));
                    lemma_clients_view_update(old(self).clients@, j as int, e2);
                    let c = clients_view(old(self).clients@)[id@];
                    assert(e2.outbound@.map_values(|x: WireMsg| x@) =~= Seq::<MsgModel>::empty());
                    assert(client_entry_model(e2) == (ClientModel {
                        permissions: c.permissions,
                        ready: c.ready,
                        outbound: Seq::empty(),
                    }));
                }
                out
            },
            None => {
                proof {
                    assert(Seq::<WireMsg>::empty().map_values(|m: WireMsg| m@)
                        =~= Seq::<MsgModel>::empty());
                }
                Vec::new()
            },
        }
    }

    /// Applies one directive read from a control connection: `Permission`
    /// grants, `Message` broadcasts, every other variant is ignored.
    pub fn apply_control(&mut self, m: &WireMsg)
        requires
            old(self).wf(),
        ensures
            final(self).wf(),
            final(self)@ == old(self)@.control_step(m@),
    {
        match m {
            WireMsg::Permission { uid, permissions } => {
                self.grant_permissions(uid.as_str(), permissions);
            },
            WireMsg::Message { channel, message } => {
                self.broadcast(channel.as_str(), message.as_str());
            },
            _ => {
            },
        }
    }

    /// Applies one frame read from a streaming client: only `Subscribe`
    /// acts; every other variant is ignored.
    pub fn apply_client(&mut self, id: &str, m: &WireMsg)
        requires
            old(self).wf(),
        ensures
            final(self).wf(),
            final(self)@ == old(self)@.client_step(id@, m@),
    {
        match m {
            WireMsg::Subscribe { channel } => {
                self.subscribe(id, channel.as_str());
            },
            _ => {
            },
        }
    }
}

} // verus!
