//! What the SFTP provider keeps between listings: open connections, reused
//! because opening one costs a handshake, a key exchange and a sign-in;
//! the hosts the user agreed to trust in this session; and passwords, held
//! in memory for reconnects until the user disconnects, and never written.
//!
//! The connections themselves, and the network, are the caller's: this
//! holds them, and decides which one answers for which server.

use vstd::prelude::*;

use crate::fs::connect::{Endpoint, UnknownHostPolicy};
use crate::location::{Location, Place};
use crate::text::{chars_eq, chars_of};

verus! {

/// A server endpoint as values: host, port and user.
pub type EndpointKey = (Seq<char>, u16, Seq<char>);

/// An endpoint's host, port and user.
pub open spec fn key_of(e: Endpoint) -> EndpointKey {
    (e.host@, e.port, e.user@)
}

/// Whether two endpoints name the same account on the same server.
fn same_endpoint(a: &Endpoint, b: &Endpoint) -> (r: bool)
    ensures
        r == (key_of(*a) == key_of(*b)),
{
    if a.port != b.port {
        return false;
    }
    let ah = chars_of(a.host.as_str());
    let bh = chars_of(b.host.as_str());
    if !chars_eq(ah.as_slice(), bh.as_slice()) {
        return false;
    }
    let au = chars_of(a.user.as_str());
    let bu = chars_of(b.user.as_str());
    chars_eq(au.as_slice(), bu.as_slice())
}

/// Values kept per endpoint, at most one for each.
pub struct Keyed<V> {
    items: Vec<(Endpoint, V)>,
    model: Ghost<Map<EndpointKey, V>>,
}

impl<V> View for Keyed<V> {
    type V = Map<EndpointKey, V>;

    closed spec fn view(&self) -> Map<EndpointKey, V> {
        self.model@
    }
}

impl<V> Keyed<V> {
    /// Each item is in the map, the map holds nothing else, and no
    /// endpoint has two items.
    pub closed spec fn wf(&self) -> bool {
        let s = self.items@;
        let m = self.model@;
        &&& forall|i: int|
            0 <= i < s.len() ==> m.contains_key(#[trigger] key_of(s[i].0)) && m[key_of(s[i].0)]
                == s[i].1
        &&& forall|k: EndpointKey| #[trigger]
            m.contains_key(k) ==> exists|i: int| 0 <= i < s.len() && key_of(s[i].0) == k
        &&& forall|i: int, j: int|
            0 <= i < j < s.len() ==> key_of(#[trigger] s[i].0) != key_of(#[trigger] s[j].0)
    }

    /// Nothing kept.
    pub fn new() -> (r: Self)
        ensures
            r.wf(),
            r@ == Map::<EndpointKey, V>::empty(),
    {
        Keyed { items: Vec::new(), model: Ghost(Map::empty()) }
    }

    /// Where the item for `endpoint` is.
    fn find(&self, endpoint: &Endpoint) -> (r: Option<usize>)
        ensures
            r matches Some(i) ==> i < self.items@.len() && key_of(self.items@[i as int].0) == key_of(
                *endpoint,
            ),
            r is None ==> forall|i: int|
                0 <= i < self.items@.len() ==> key_of(#[trigger] self.items@[i].0) != key_of(
                    *endpoint,
                ),
    {
        let mut i: usize = 0;
        while i < self.items.len()
            invariant
                i <= self.items@.len(),
                forall|j: int| 0 <= j < i ==> key_of(#[trigger] self.items@[j].0) != key_of(*endpoint),
            decreases self.items.len() - i,
        {
            if same_endpoint(&self.items[i].0, endpoint) {
                return Some(i);
            }
            i += 1;
        }
        None
    }

    /// What is kept for `endpoint`.
    pub fn get(&self, endpoint: &Endpoint) -> (r: Option<&V>)
        requires
            self.wf(),
        ensures
            r is Some <==> self@.contains_key(key_of(*endpoint)),
            r matches Some(v) ==> *v == self@[key_of(*endpoint)],
    {
        match self.find(endpoint) {
            Some(i) => Some(&self.items[i].1),
            None => {
                proof {
                    if self@.contains_key(key_of(*endpoint)) {
                        let i = choose|i: int|
                            0 <= i < self.items@.len() && key_of(self.items@[i].0) == key_of(
                                *endpoint,
                            );
                        assert(key_of(self.items@[i].0) != key_of(*endpoint));
                    }
                }
                None
            },
        }
    }

    /// Keep `value` for `endpoint`, in place of what was kept for it.
    pub fn insert(&mut self, endpoint: Endpoint, value: V)
        requires
            old(self).wf(),
        ensures
            final(self).wf(),
            final(self)@ == old(self)@.insert(key_of(endpoint), value),
    {
        let ghost k = key_of(endpoint);
        let ghost before = self.items@;
        match self.find(&endpoint) {
            Some(i) => {
                self.items.set(i, (endpoint, value));
                proof {
                    self.model@ = self.model@.insert(k, value);
                    let s = self.items@;
                    assert forall|j: int| 0 <= j < s.len() implies self.model@.contains_key(
                        #[trigger] key_of(s[j].0),
                    ) && self.model@[key_of(s[j].0)] == s[j].1 by {
                        if j != i {
                            assert(s[j] == before[j]);
                            assert(key_of(before[j].0) != key_of(before[i as int].0)) by {
                                if j < i {
                                    assert(key_of(before[j].0) != key_of(before[i as int].0));
                                } else {
                                    assert(key_of(before[i as int].0) != key_of(before[j].0));
                                }
                            }
                        }
                    }
                    assert forall|a: EndpointKey| #[trigger]
                        self.model@.contains_key(a) implies exists|j: int|
                        0 <= j < s.len() && key_of(s[j].0) == a by {
                        if a == k {
                            assert(key_of(s[i as int].0) == a);
                        } else {
                            let j = choose|j: int| 0 <= j < before.len() && key_of(before[j].0) == a;
                            assert(s[j] == before[j]);
                        }
                    }
                    assert forall|x: int, y: int|
                        0 <= x < y < s.len() implies key_of(#[trigger] s[x].0) != key_of(
                            #[trigger] s[y].0,
                        ) by {
                        if x != i {
                            assert(s[x] == before[x]);
                        }
                        if y != i {
                            assert(s[y] == before[y]);
                        }
                    }
                }
            },
            None => {
                self.items.push((endpoint, value));
                proof {
                    self.model@ = self.model@.insert(k, value);
                    let s = self.items@;
                    assert forall|j: int| 0 <= j < s.len() implies self.model@.contains_key(
                        #[trigger] key_of(s[j].0),
                    ) && self.model@[key_of(s[j].0)] == s[j].1 by {
                        if j < before.len() {
                            assert(s[j] == before[j]);
                        }
                    }
                    assert forall|a: EndpointKey| #[trigger]
                        self.model@.contains_key(a) implies exists|j: int|
                        0 <= j < s.len() && key_of(s[j].0) == a by {
                        if a == k {
                            assert(key_of(s[before.len() as int].0) == a);
                        } else {
                            let j = choose|j: int| 0 <= j < before.len() && key_of(before[j].0) == a;
                            assert(s[j] == before[j]);
                        }
                    }
                    assert forall|x: int, y: int|
                        0 <= x < y < s.len() implies key_of(#[trigger] s[x].0) != key_of(
                            #[trigger] s[y].0,
                        ) by {
                        assert(s[x] == before[x]);
                        if y < before.len() {
                            assert(s[y] == before[y]);
                        }
                    }
                }
            },
        }
    }

    /// Forget what is kept for `endpoint`.
    pub fn remove(&mut self, endpoint: &Endpoint)
        requires
            old(self).wf(),
        ensures
            final(self).wf(),
            final(self)@ == old(self)@.remove(key_of(*endpoint)),
    {
        let ghost k = key_of(*endpoint);
        let ghost before = self.items@;
        match self.find(endpoint) {
            Some(i) => {
                self.items.remove(i);
                proof {
                    self.model@ = self.model@.remove(k);
                    let s = self.items@;
                    assert(forall|j: int| 0 <= j < s.len() ==> s[j] == (if j < i { before[j] } else { before[j + 1] }));
                    assert forall|j: int| 0 <= j < s.len() implies self.model@.contains_key(
                        #[trigger] key_of(s[j].0),
                    ) && self.model@[key_of(s[j].0)] == s[j].1 by {
                        let o = if j < i { j } else { j + 1 };
                        assert(s[j] == before[o]);
                        if o < i {
                            assert(key_of(before[o].0) != key_of(before[i as int].0));
                        } else {
                            assert(key_of(before[i as int].0) != key_of(before[o].0));
                        }
                    }
                    assert forall|a: EndpointKey| #[trigger]
                        self.model@.contains_key(a) implies exists|j: int|
                        0 <= j < s.len() && key_of(s[j].0) == a by {
                        let o = choose|o: int| 0 <= o < before.len() && key_of(before[o].0) == a;
                        assert(o != i);
                        if o < i {
                            assert(s[o] == before[o]);
                        } else {
                            assert(s[o - 1] == before[o]);
                        }
                    }
                    assert forall|x: int, y: int|
                        0 <= x < y < s.len() implies key_of(#[trigger] s[x].0) != key_of(
                            #[trigger] s[y].0,
                        ) by {
                        let ox = if x < i { x } else { x + 1 };
                        let oy = if y < i { y } else { y + 1 };
                        assert(s[x] == before[ox]);
                        assert(s[y] == before[oy]);
                        assert(ox < oy);
                    }
                }
            },
            None => {
                proof {
                    if self.model@.contains_key(k) {
                        let o = choose|o: int| 0 <= o < before.len() && key_of(before[o].0) == k;
                        assert(key_of(before[o].0) != k);
                    }
                    assert(self.model@.remove(k) =~= self.model@);
                }
            },
        }
    }

    /// Forget everything.
    pub fn clear(&mut self)
        requires
            old(self).wf(),
        ensures
            final(self).wf(),
            final(self)@ == Map::<EndpointKey, V>::empty(),
    {
        self.items = Vec::new();
        self.model = Ghost(Map::empty());
    }
}

/// The SFTP provider's memory of servers: connections kept open for reuse,
/// hosts accepted in this session, and passwords for reconnecting.
pub struct SftpProvider<C> {
    connections: Keyed<C>,
    accepted: Keyed<()>,
    passwords: Keyed<String>,
}

impl<C> SftpProvider<C> {
    /// The parts are sound.
    pub closed spec fn wf(&self) -> bool {
        &&& self.connections.wf()
        &&& self.accepted.wf()
        &&& self.passwords.wf()
    }

    /// The open connections, by endpoint.
    pub closed spec fn open_connections(&self) -> Map<EndpointKey, C> {
        self.connections@
    }

    /// The hosts the user agreed to trust in this session.
    pub closed spec fn accepted_hosts(&self) -> Set<EndpointKey> {
        self.accepted@.dom()
    }

    /// The passwords held, by endpoint.
    pub closed spec fn held_passwords(&self) -> Map<EndpointKey, Seq<char>> {
        self.passwords@.map_values(|p: String| p@)
    }

    /// A provider with no connections, no accepted hosts and no passwords.
    pub fn new() -> (r: Self)
        ensures
            r.wf(),
            r.open_connections() == Map::<EndpointKey, C>::empty(),
            r.accepted_hosts() == Set::<EndpointKey>::empty(),
            r.held_passwords() == Map::<EndpointKey, Seq<char>>::empty(),
    {
        let r = SftpProvider { connections: Keyed::new(), accepted: Keyed::new(), passwords: Keyed::new() };
        proof {
            assert(r.accepted@.dom() =~= Set::<EndpointKey>::empty());
            assert(r.passwords@.map_values(|p: String| p@) =~= Map::<EndpointKey, Seq<char>>::empty());
        }
        r
    }

    /// Whether this provider lists `location`: a path on a server, and
    /// nothing else.
    pub fn handles(&self, location: &Location) -> (r: bool)
        ensures
            r == (location@ is Remote),
    {
        location.remote_path().is_some()
    }

    /// Hold a password for connecting to `endpoint`, in memory only, until
    /// the user disconnects from it.
    pub fn set_password(&mut self, endpoint: Endpoint, password: String)
        requires
            old(self).wf(),
        ensures
            final(self).wf(),
            final(self).held_passwords() == old(self).held_passwords().insert(key_of(endpoint), password@),
            final(self).open_connections() == old(self).open_connections(),
            final(self).accepted_hosts() == old(self).accepted_hosts(),
    {
        let ghost k = key_of(endpoint);
        let ghost pw = password@;
        self.passwords.insert(endpoint, password);
        proof {
            assert(self.passwords@.map_values(|p: String| p@) =~= old(self).passwords@.map_values(
                |p: String| p@,
            ).insert(k, pw));
        }
    }

    /// Record that the user accepted this host's key, so the next attempt
    /// records it in `known_hosts` rather than refusing again.
    pub fn accept_host(&mut self, endpoint: Endpoint)
        requires
            old(self).wf(),
        ensures
            final(self).wf(),
            final(self).accepted_hosts() == old(self).accepted_hosts().insert(key_of(endpoint)),
            final(self).open_connections() == old(self).open_connections(),
            final(self).held_passwords() == old(self).held_passwords(),
    {
        let ghost k = key_of(endpoint);
        self.accepted.insert(endpoint, ());
        proof {
            assert(self.accepted@.dom() =~= old(self).accepted@.dom().insert(k));
        }
    }

    /// Whether a connection to `endpoint` is kept: whether reaching it will
    /// be instant. Not a health check.
    pub fn is_connected(&self, endpoint: &Endpoint) -> (r: bool)
        requires
            self.wf(),
        ensures
            r == self.open_connections().contains_key(key_of(*endpoint)),
    {
        self.connections.get(endpoint).is_some()
    }

    /// The connection kept for `endpoint`, to reuse.
    pub fn connection(&self, endpoint: &Endpoint) -> (r: Option<&C>)
        requires
            self.wf(),
        ensures
            r is Some <==> self.open_connections().contains_key(key_of(*endpoint)),
            r matches Some(c) ==> *c == self.open_connections()[key_of(*endpoint)],
    {
        self.connections.get(endpoint)
    }

    /// How a connection to `endpoint` treats a host key it has not seen:
    /// accepted and recorded only where the user has agreed to this host.
    pub fn policy(&self, endpoint: &Endpoint) -> (r: UnknownHostPolicy)
        requires
            self.wf(),
        ensures
            r == (if self.accepted_hosts().contains(key_of(*endpoint)) {
                UnknownHostPolicy::AcceptAndRemember
            } else {
                UnknownHostPolicy::Refuse
            }),
    {
        if self.accepted.get(endpoint).is_some() {
            UnknownHostPolicy::AcceptAndRemember
        } else {
            UnknownHostPolicy::Refuse
        }
    }

    /// The password held for `endpoint`. Reading it does not use it up: a
    /// connection that fails, or drops, can sign in again with it.
    pub fn password(&self, endpoint: &Endpoint) -> (r: Option<&str>)
        requires
            self.wf(),
        ensures
            r is Some <==> self.held_passwords().contains_key(key_of(*endpoint)),
            r matches Some(p) ==> p@ == self.held_passwords()[key_of(*endpoint)],
    {
        match self.passwords.get(endpoint) {
            Some(p) => Some(p.as_str()),
            None => None,
        }
    }

    /// Keep a newly opened connection to `endpoint` for reuse.
    pub fn opened(&mut self, endpoint: Endpoint, connection: C)
        requires
            old(self).wf(),
        ensures
            final(self).wf(),
            final(self).open_connections() == old(self).open_connections().insert(key_of(endpoint), connection),
            final(self).accepted_hosts() == old(self).accepted_hosts(),
            final(self).held_passwords() == old(self).held_passwords(),
    {
        self.connections.insert(endpoint, connection);
    }

    /// Close one connection and forget how it signed in: logging out means
    /// the password is gone too. Hosts accepted stay accepted.
    pub fn disconnect(&mut self, endpoint: &Endpoint)
        requires
            old(self).wf(),
        ensures
            final(self).wf(),
            final(self).open_connections() == old(self).open_connections().remove(key_of(*endpoint)),
            final(self).held_passwords() == old(self).held_passwords().remove(key_of(*endpoint)),
            final(self).accepted_hosts() == old(self).accepted_hosts(),
    {
        let ghost k = key_of(*endpoint);
        self.passwords.remove(endpoint);
        self.connections.remove(endpoint);
        proof {
            assert(self.passwords@.map_values(|p: String| p@) =~= old(self).passwords@.map_values(
                |p: String| p@,
            ).remove(k));
        }
    }

    /// Close every connection and forget every password: what the user's
    /// "disconnect all" and quitting do.
    pub fn disconnect_all(&mut self)
        requires
            old(self).wf(),
        ensures
            final(self).wf(),
            final(self).open_connections() == Map::<EndpointKey, C>::empty(),
            final(self).held_passwords() == Map::<EndpointKey, Seq<char>>::empty(),
            final(self).accepted_hosts() == old(self).accepted_hosts(),
    {
        self.passwords.clear();
        self.connections.clear();
        proof {
            assert(self.passwords@.map_values(|p: String| p@) =~= Map::<EndpointKey, Seq<char>>::empty());
        }
    }
}

} // verus!
