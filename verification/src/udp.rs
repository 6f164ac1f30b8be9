//! The table of clients a UDP forwarder keeps: for each client address, the
//! local address of the socket that talks to the target for it, and when the
//! client was last heard from. Clients silent for longer than a timeout are
//! dropped.
use vstd::prelude::*;

verus! {

/// A socket address as plain values: the family, the address bits (an IPv4
/// address in the low 32 bits), the port, and for IPv6 the flow information
/// and scope id, all of which take part in telling addresses apart.
#[derive(Debug, Clone, Copy, PartialEq, Eq, Structural)]
pub struct PeerAddr {
    pub v6: bool,
    pub ip: u128,
    pub port: u16,
    pub flowinfo: u32,
    pub scope_id: u32,
}

/// One client: its address, the local address of its socket to the target,
/// when it was last heard from (nanoseconds on a monotonic clock), and the
/// socket itself.
pub struct ClientEntry<T> {
    pub peer: PeerAddr,
    pub local: PeerAddr,
    pub last_seen: u64,
    pub conn: T,
}

/// Whole seconds from `then` to `now`, 0 when `now` is earlier.
pub open spec fn elapsed_secs(now: u64, then: u64) -> nat {
    if now >= then {
        ((now - then) / 1_000_000_000) as nat
    } else {
        0
    }
}

/// Whether a client last heard from at `last` is to be dropped at `now`.
pub open spec fn is_expired(now: u64, last: u64, timeout: Option<u64>) -> bool {
    match timeout {
        Some(t) => elapsed_secs(now, last) > t,
        None => false,
    }
}

pub open spec fn table_map<T>(e: Seq<ClientEntry<T>>) -> Map<PeerAddr, (PeerAddr, u64, T)>
    decreases e.len(),
{
    if e.len() == 0 {
        Map::empty()
    } else {
        table_map(e.drop_last()).insert(e.last().peer, (e.last().local, e.last().last_seen, e.last().conn))
    }
}

pub open spec fn distinct_peers<T>(e: Seq<ClientEntry<T>>) -> bool {
    forall|i: int, j: int| 0 <= i < j < e.len() ==> #[trigger] e[i].peer != #[trigger] e[j].peer
}

/// The clients of a UDP forwarder, each address once. Its view maps each
/// client address to the local address, the last activity and the socket.
pub struct ClientTable<T> {
    entries: Vec<ClientEntry<T>>,
}

impl<T> View for ClientTable<T> {
    type V = Map<PeerAddr, (PeerAddr, u64, T)>;

    closed spec fn view(&self) -> Map<PeerAddr, (PeerAddr, u64, T)> {
        table_map(self.entries@)
    }
}

proof fn lemma_table_lookup<T>(e: Seq<ClientEntry<T>>, k: PeerAddr)
    requires
        distinct_peers(e),
    ensures
        (exists|i: int| 0 <= i < e.len() && e[i].peer == k) <==> table_map(e).contains_key(k),
        forall|i: int|
            0 <= i < e.len() && #[trigger] e[i].peer == k ==> table_map(e)[k] == (
                e[i].local,
                e[i].last_seen,
                e[i].conn,
            ),
    decreases e.len(),
{
    if e.len() > 0 {
        let t = e.drop_last();
        lemma_table_lookup(t, k);
        assert forall|i: int| 0 <= i < e.len() && #[trigger] e[i].peer == k implies table_map(
            e,
        )[k] == (e[i].local, e[i].last_seen, e[i].conn) by {
            if i < e.len() - 1 {
                assert(t[i] == e[i]);
                assert(e[i].peer != e[e.len() - 1].peer);
            }
        }
        if table_map(e).contains_key(k) && k != e.last().peer {
            let i = choose|i: int| 0 <= i < t.len() && t[i].peer == k;
            assert(e[i] == t[i]);
        }
        if exists|i: int| 0 <= i < e.len() && e[i].peer == k {
            let i = choose|i: int| 0 <= i < e.len() && e[i].peer == k;
            if i < e.len() - 1 {
                assert(t[i] == e[i]);
            }
        }
    }
}

proof fn lemma_table_update<T>(e: Seq<ClientEntry<T>>, i: int, x: ClientEntry<T>)
    requires
        distinct_peers(e),
        0 <= i < e.len(),
        x.peer == e[i].peer,
    ensures
        table_map(e.update(i, x)) == table_map(e).insert(x.peer, (x.local, x.last_seen, x.conn)),
        distinct_peers(e.update(i, x)),
    decreases e.len(),
{
    let e2 = e.update(i, x);
    let t = e.drop_last();
    assert forall|a: int, b: int| 0 <= a < b < e2.len() implies #[trigger] e2[a].peer
        != #[trigger] e2[b].peer by {
        assert(e2[a].peer == e[a].peer);
        assert(e2[b].peer == e[b].peer);
    }
    if i == e.len() - 1 {
        assert(e2.drop_last() == t);
        assert(table_map(e2) =~= table_map(e).insert(x.peer, (x.local, x.last_seen, x.conn)));
    } else {
        assert(t[i] == e[i]);
        lemma_table_update(t, i, x);
        assert(e2.drop_last() == t.update(i, x));
        assert(e[i].peer != e[e.len() - 1].peer);
        assert(table_map(e2) =~= table_map(e).insert(x.peer, (x.local, x.last_seen, x.conn)));
    }
}

proof fn lemma_table_remove<T>(e: Seq<ClientEntry<T>>, i: int)
    requires
        distinct_peers(e),
        0 <= i < e.len(),
    ensures
        table_map(e.remove(i)) == table_map(e).remove(e[i].peer),
        distinct_peers(e.remove(i)),
    decreases e.len(),
{
    let e2 = e.remove(i);
    let t = e.drop_last();
    assert forall|a: int, b: int| 0 <= a < b < e2.len() implies #[trigger] e2[a].peer
        != #[trigger] e2[b].peer by {
        let a0 = if a < i { a } else { a + 1 };
        let b0 = if b < i { b } else { b + 1 };
        assert(e2[a] == e[a0]);
        assert(e2[b] == e[b0]);
    }
    lemma_table_lookup(t, e[i].peer);
    if i == e.len() - 1 {
        assert(e2 == t);
        assert forall|j: int| 0 <= j < t.len() implies t[j].peer != e[i].peer by {
            assert(t[j] == e[j]);
        }
        assert(!table_map(t).contains_key(e[i].peer));
        assert(table_map(e2) =~= table_map(e).remove(e[i].peer));
    } else {
        assert(t[i] == e[i]);
        lemma_table_remove(t, i);
        assert(e2.drop_last() == t.remove(i));
        assert(e2.last() == e.last());
        assert(e[i].peer != e[e.len() - 1].peer);
        assert(table_map(e2) =~= table_map(e).remove(e[i].peer));
    }
}

impl<T> ClientTable<T> {
    /// Each address is in the table once.
    #[verifier::type_invariant]
    spec fn distinct(self) -> bool {
        distinct_peers(self.entries@)
    }

    /// An empty table.
    pub fn new() -> (res: Self)
        ensures
            res@ == Map::<PeerAddr, (PeerAddr, u64, T)>::empty(),
    {
        ClientTable { entries: Vec::new() }
    }

    /// The number of clients.
    pub fn len(&self) -> (res: usize)
        ensures
            res == self@.len(),
    {
        proof {
            use_type_invariant(self);
        }
        proof {
            self.lemma_len();
        }
        self.entries.len()
    }

    proof fn lemma_len(&self)
        requires
            distinct_peers(self.entries@),
        ensures
            self.entries@.len() == self@.len(),
            self@.dom().finite(),
    {
        lemma_table_len(self.entries@);
    }

    fn position(&self, peer: PeerAddr) -> (res: Option<usize>)
        ensures
            match res {
                Some(i) => i < self.entries@.len() && self.entries@[i as int].peer == peer,
                None => !self@.contains_key(peer),
            },
    {
        proof {
            use_type_invariant(self);
        }
        let mut i: usize = 0;
        while i < self.entries.len()
            invariant
                i <= self.entries.len(),
                forall|j: int| 0 <= j < i ==> #[trigger] self.entries@[j].peer != peer,
            decreases self.entries.len() - i,
        {
            if self.entries[i].peer == peer {
                return Some(i);
            }
            i = i + 1;
        }
        proof {
            lemma_table_lookup(self.entries@, peer);
        }
        None
    }

    /// The entry of `peer`, when it is in the table.
    pub fn get(&self, peer: PeerAddr) -> (res: Option<&ClientEntry<T>>)
        ensures
            res is Some <==> self@.contains_key(peer),
            res matches Some(e) ==> e.peer == peer && self@[peer] == (e.local, e.last_seen, e.conn),
    {
        proof {
            use_type_invariant(self);
        }
        proof {
            lemma_table_lookup(self.entries@, peer);
        }
        match self.position(peer) {
            Some(i) => Some(&self.entries[i]),
            None => None,
        }
    }

    /// Moves the entries out, leaving the table empty.
    fn take_entries(&mut self) -> (res: Vec<ClientEntry<T>>)
        ensures
            res@ == old(self).entries@,
            distinct_peers(res@),
            final(self).entries@ == Seq::<ClientEntry<T>>::empty(),
    {
        proof {
            use_type_invariant(&*self);
        }
        let mut entries: Vec<ClientEntry<T>> = Vec::new();
        std::mem::swap(&mut entries, &mut self.entries);
        entries
    }

    /// Adds a client that is not in the table yet.
    pub fn insert(&mut self, peer: PeerAddr, local: PeerAddr, conn: T, now: u64)
        requires
            !old(self)@.contains_key(peer),
        ensures
            final(self)@ == old(self)@.insert(peer, (local, now, conn)),
    {
        let mut entries = self.take_entries();
        proof {
            lemma_table_lookup(entries@, peer);
        }
        let ghost before = entries@;
        entries.push(ClientEntry { peer, local, last_seen: now, conn });
        proof {
            assert(entries@.drop_last() == before);
            assert forall|a: int, b: int| 0 <= a < b < entries@.len() implies #[trigger]
                entries@[a].peer != #[trigger] entries@[b].peer by {
                assert(entries@[a] == before[a]);
                if b < before.len() {
                    assert(entries@[b] == before[b]);
                }
            }
        }
        self.entries = entries;
    }

    /// Records that `peer` was heard from at `now`; says whether it is in
    /// the table.
    pub fn touch(&mut self, peer: PeerAddr, now: u64) -> (res: bool)
        ensures
            res == old(self)@.contains_key(peer),
            res ==> final(self)@ == old(self)@.insert(
                peer,
                (old(self)@[peer].0, now, old(self)@[peer].2),
            ),
            !res ==> final(self)@ == old(self)@,
    {
        match self.position(peer) {
            Some(i) => {
                let mut entries = self.take_entries();
                let ghost before = entries@;
                let mut e = entries.remove(i);
                e.last_seen = now;
                let ghost x = e;
                entries.insert(i, e);
                proof {
                    lemma_table_lookup(before, peer);
                    assert(entries@ == before.update(i as int, x));
                    lemma_table_update(before, i as int, x);
                }
                self.entries = entries;
                true
            },
            None => false,
        }
    }

    /// Takes `peer` out of the table, giving back its entry.
    pub fn remove(&mut self, peer: PeerAddr) -> (res: Option<ClientEntry<T>>)
        ensures
            final(self)@ == old(self)@.remove(peer),
            res is Some <==> old(self)@.contains_key(peer),
            res matches Some(e) ==> e.peer == peer && old(self)@[peer] == (
                e.local,
                e.last_seen,
                e.conn,
            ),
    {
        match self.position(peer) {
            Some(i) => {
                let mut entries = self.take_entries();
                let ghost before = entries@;
                let e = entries.remove(i);
                proof {
                    lemma_table_lookup(before, peer);
                    lemma_table_remove(before, i as int);
                }
                self.entries = entries;
                Some(e)
            },
            None => {
                assert(old(self)@.remove(peer) =~= old(self)@);
                None
            },
        }
    }

    /// The addresses of all clients, each once.
    pub fn peers(&self) -> (res: Vec<PeerAddr>)
        ensures
            res@.no_duplicates(),
            forall|p: PeerAddr| #[trigger] res@.contains(p) <==> self@.contains_key(p),
    {
        self.select(0, None)
    }

    /// The clients to drop at `now`: with a timeout, those whose last
    /// activity is more whole seconds ago than the timeout; without one,
    /// none.
    pub fn expired(&self, now: u64, timeout: Option<u64>) -> (res: Vec<PeerAddr>)
        ensures
            res@.no_duplicates(),
            forall|p: PeerAddr| #[trigger]
                res@.contains(p) <==> (self@.contains_key(p) && is_expired(now, self@[p].1, timeout)),
    {
        match timeout {
            Some(t) => self.select(now, Some(t)),
            None => {
                let res: Vec<PeerAddr> = Vec::new();
                assert forall|p: PeerAddr| #[trigger] res@.contains(p) <==> (self@.contains_key(p)
                    && is_expired(now, self@[p].1, timeout)) by {}
                res
            },
        }
    }

    /// The clients that `keep` selects: all when it is `None`, else those
    /// silent for more than `keep` whole seconds at `now`.
    fn select(&self, now: u64, keep: Option<u64>) -> (res: Vec<PeerAddr>)
        ensures
            res@.no_duplicates(),
            forall|p: PeerAddr| #[trigger]
                res@.contains(p) <==> (self@.contains_key(p) && (keep is None || is_expired(
                    now,
                    self@[p].1,
                    keep,
                ))),
    {
        proof {
            use_type_invariant(self);
        }
        let mut res: Vec<PeerAddr> = Vec::new();
        let mut i: usize = 0;
        while i < self.entries.len()
            invariant
                i <= self.entries.len(),
                distinct_peers(self.entries@),
                res@.no_duplicates(),
                forall|p: PeerAddr| #[trigger]
                    res@.contains(p) <==> exists|j: int|
                        0 <= j < i && self.entries@[j].peer == p && (keep is None || is_expired(
                            now,
                            self.entries@[j].last_seen,
                            keep,
                        )),
            decreases self.entries.len() - i,
        {
            let e = &self.entries[i];
            let chosen = match keep {
                None => true,
                Some(t) => now >= e.last_seen && (now - e.last_seen) / 1_000_000_000 > t,
            };
            let ghost before = res@;
            if chosen {
                res.push(e.peer);
                proof {
                    assert(!before.contains(e.peer)) by {
                        if before.contains(e.peer) {
                            let j = choose|j: int|
                                0 <= j < i && self.entries@[j].peer == e.peer && (keep is None
                                    || is_expired(now, self.entries@[j].last_seen, keep));
                            assert(self.entries@[j].peer != self.entries@[i as int].peer);
                        }
                    }
                    assert forall|a: int, b: int| 0 <= a < b < res@.len() implies res@[a]
                        != res@[b] by {
                        if b == res@.len() - 1 {
                            assert(before.contains(res@[a]));
                        } else {
                            assert(res@[a] == before[a]);
                            assert(res@[b] == before[b]);
                        }
                    }
                }
            }
            proof {
                assert forall|p: PeerAddr| #[trigger] res@.contains(p) <==> exists|j: int|
                    0 <= j < i + 1 && self.entries@[j].peer == p && (keep is None || is_expired(
                        now,
                        self.entries@[j].last_seen,
                        keep,
                    )) by {
                    if chosen {
                        if res@.contains(p) && p != e.peer {
                            let k = choose|k: int| 0 <= k < res@.len() && res@[k] == p;
                            assert(before[k] == p);
                            assert(before.contains(p));
                        }
                        if before.contains(p) {
                            let k = choose|k: int| 0 <= k < before.len() && before[k] == p;
                            assert(res@[k] == p);
                        }
                        assert(res@[res@.len() - 1] == e.peer);
                    } else {
                        assert(res@ == before);
                    }
                }
            }
            i = i + 1;
        }
        proof {
            assert forall|p: PeerAddr| #[trigger] res@.contains(p) <==> (self@.contains_key(p) && (
            keep is None || is_expired(now, self@[p].1, keep))) by {
                lemma_table_lookup(self.entries@, p);
            }
        }
        res
    }
}

proof fn lemma_table_len<T>(e: Seq<ClientEntry<T>>)
    requires
        distinct_peers(e),
    ensures
        table_map(e).dom().finite(),
        table_map(e).len() == e.len(),
    decreases e.len(),
{
    if e.len() > 0 {
        let t = e.drop_last();
        assert forall|a: int, b: int| 0 <= a < b < t.len() implies #[trigger] t[a].peer
            != #[trigger] t[b].peer by {
            assert(t[a] == e[a]);
            assert(t[b] == e[b]);
        }
        lemma_table_len(t);
        lemma_table_lookup(t, e.last().peer);
        assert forall|j: int| 0 <= j < t.len() implies t[j].peer != e.last().peer by {
            assert(t[j] == e[j]);
        }
    }
}

/// With a timeout of `t` seconds, a client is dropped exactly when more
/// than `t` whole seconds have passed since it was last heard from; once
/// dropped it stays so as the clock advances; silence of `t + 1` seconds or
/// more always drops it; and without a timeout, or with a clock reading
/// earlier than the last activity, nobody is dropped.
pub proof fn lemma_expiry(now: u64, now2: u64, last: u64, t: u64)
    ensures
        now >= last ==> (is_expired(now, last, Some(t)) <==> (now - last) / 1_000_000_000 > t),
        now < last ==> !is_expired(now, last, Some(t)),
        !is_expired(now, last, None),
        is_expired(now, last, Some(t)) && now2 >= now ==> is_expired(now2, last, Some(t)),
        now >= last && (now - last) as int >= (t as int + 1) * 1_000_000_000 ==> is_expired(
            now,
            last,
            Some(t),
        ),
        now >= last && (now - last) as int <= t as int * 1_000_000_000 ==> !is_expired(
            now,
            last,
            Some(t),
        ),
{
    if now >= last && now2 >= now {
        assert((now - last) as int <= (now2 - last) as int);
        assert((now - last) / 1_000_000_000 <= (now2 - last) / 1_000_000_000) by (nonlinear_arith)
            requires
                now - last <= now2 - last,
                now >= last,
                now2 >= now,
        ;
    }
    if now >= last && (now - last) as int >= (t as int + 1) * 1_000_000_000 {
        assert((now - last) / 1_000_000_000 >= t + 1) by (nonlinear_arith)
            requires
                (now - last) as int >= (t as int + 1) * 1_000_000_000,
                now >= last,
        ;
    }
    if now >= last && (now - last) as int <= t as int * 1_000_000_000 {
        assert((now - last) / 1_000_000_000 <= t) by (nonlinear_arith)
            requires
                (now - last) as int <= t as int * 1_000_000_000,
                now >= last,
        ;
    }
}

} // verus!
