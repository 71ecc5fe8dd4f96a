//! Tables that are keyed by network addresses: the sessions of peers, and the addresses that are
//! authorized.
use vstd::prelude::*;

verus! {

/// How long an address stays authorized, in nanoseconds: two hours.
pub const AUTH_IP_TTL: u128 = 7_200_000_000_000;

/// What a table is keyed by.
pub trait TableKey: Copy {
    /// Whether two keys are the same.
    fn same(&self, other: &Self) -> (r: bool)
        ensures
            r == (*self == *other),
    ;
}

/// An IP address.
#[derive(Clone, Copy, Debug, PartialEq, Eq, Structural)]
pub struct IpKey {
    /// Whether it is an IPv6 address.
    pub v6: bool,
    /// Its bits.
    pub bits: u128,
}

/// The address of a peer.
#[derive(Clone, Copy, Debug, PartialEq, Eq, Structural)]
pub struct PeerAddr {
    /// The IP address.
    pub ip: IpKey,
    /// The port.
    pub port: u16,
    /// The flow information of an IPv6 address.
    pub flow: u32,
    /// The scope of an IPv6 address.
    pub scope: u32,
}

impl TableKey for IpKey {
    fn same(&self, other: &Self) -> (r: bool) {
        *self == *other
    }
}

impl TableKey for PeerAddr {
    fn same(&self, other: &Self) -> (r: bool) {
        *self == *other
    }
}

/// A table from addresses to values.
pub struct AddrMap<K, S> {
    entries: Vec<(K, S)>,
}

/// What a sequence of entries maps its keys to.
pub open spec fn table_of<K, S>(entries: Seq<(K, S)>) -> Map<K, S>
    decreases entries.len(),
{
    if entries.len() == 0 {
        Map::empty()
    } else {
        table_of(entries.drop_last()).insert(entries.last().0, entries.last().1)
    }
}

/// Whether no key occurs twice.
pub open spec fn no_key_twice<K, S>(entries: Seq<(K, S)>) -> bool {
    forall|i: int, j: int|
        0 <= i < j < entries.len() ==> (#[trigger] entries[i]).0 != (#[trigger] entries[j]).0
}

impl<K, S> View for AddrMap<K, S> {
    type V = Map<K, S>;

    closed spec fn view(&self) -> Map<K, S> {
        table_of(self.entries@)
    }
}

/// Each entry is in the table, and nothing else is.
proof fn lemma_table_of<K, S>(entries: Seq<(K, S)>)
    requires
        no_key_twice(entries),
    ensures
        forall|i: int|
            0 <= i < entries.len() ==> table_of(entries).contains_pair(
                (#[trigger] entries[i]).0,
                entries[i].1,
            ),
        forall|k: K| #[trigger]
            table_of(entries).contains_key(k) ==> exists|i: int|
                0 <= i < entries.len() && (#[trigger] entries[i]).0 == k,
    decreases entries.len(),
{
    if entries.len() > 0 {
        let init = entries.drop_last();
        lemma_table_of(init);
        assert forall|i: int| 0 <= i < entries.len() implies table_of(entries).contains_pair(
            (#[trigger] entries[i]).0,
            entries[i].1,
        ) by {
            if i < init.len() {
                assert(init[i] == entries[i]);
                assert(entries[i].0 != entries[entries.len() - 1].0);
            }
        }
        assert forall|k: K| #[trigger] table_of(entries).contains_key(k) implies exists|i: int|
            0 <= i < entries.len() && (#[trigger] entries[i]).0 == k by {
            if k == entries.last().0 {
                assert(entries[entries.len() - 1].0 == k);
            } else {
                assert(table_of(init).contains_key(k));
                let i = choose|i: int| 0 <= i < init.len() && (#[trigger] init[i]).0 == k;
                assert(entries[i].0 == k);
            }
        }
    }
}

/// Removing an entry removes its key from the table.
proof fn lemma_entry_removed<K, S>(entries: Seq<(K, S)>, i: int)
    requires
        no_key_twice(entries),
        0 <= i < entries.len(),
    ensures
        no_key_twice(entries.remove(i)),
        table_of(entries.remove(i)) == table_of(entries).remove(entries[i].0),
{
    let after = entries.remove(i);
    let key = entries[i].0;
    assert forall|a: int, b: int| 0 <= a < b < after.len() implies (#[trigger] after[a]).0 != (
    #[trigger] after[b]).0 by {
        let a0 = if a < i { a } else { a + 1 };
        let b0 = if b < i { b } else { b + 1 };
        assert(entries[a0].0 != entries[b0].0);
    }
    lemma_table_of(entries);
    lemma_table_of(after);
    assert forall|k: K| table_of(after).contains_key(k) implies table_of(entries).remove(
        key,
    ).contains_pair(k, table_of(after)[k]) by {
        let j = choose|j: int| 0 <= j < after.len() && (#[trigger] after[j]).0 == k;
        let j0 = if j < i { j } else { j + 1 };
        assert(after[j] == entries[j0]);
        assert(entries[j0].0 != entries[i].0);
    }
    assert forall|k: K| table_of(entries).remove(key).contains_key(k) implies table_of(
        after,
    ).contains_key(k) by {
        assert(table_of(entries).contains_key(k));
        let j = choose|j: int| 0 <= j < entries.len() && (#[trigger] entries[j]).0 == k;
        let j0 = if j < i { j } else { j - 1 };
        assert(after[j0] == entries[j]);
    }
    assert(table_of(after) =~= table_of(entries).remove(key));
}

impl<K, S> AddrMap<K, S> {
    /// No key occurs twice.
    #[verifier::type_invariant]
    closed spec fn inv(self) -> bool {
        no_key_twice(self.entries@)
    }

    /// The empty table.
    pub fn new() -> (r: Self)
        ensures
            r@ == Map::<K, S>::empty(),
    {
        AddrMap { entries: Vec::new() }
    }
}

impl<K: TableKey, S> AddrMap<K, S> {
    /// Where the entry of `key` is.
    fn position(&self, key: K) -> (r: Option<usize>)
        ensures
            r matches Some(i) ==> i < self.entries@.len() && self.entries@[i as int].0 == key,
            r is None <==> !self@.contains_key(key),
            r is None ==> forall|j: int|
                0 <= j < self.entries@.len() ==> (#[trigger] self.entries@[j]).0 != key,
    {
        proof {
            use_type_invariant(self);
            lemma_table_of(self.entries@);
        }
        let mut i: usize = 0;
        while i < self.entries.len()
            invariant
                i <= self.entries@.len(),
                forall|j: int| 0 <= j < i ==> (#[trigger] self.entries@[j]).0 != key,
            decreases self.entries@.len() - i,
        {
            if self.entries[i].0.same(&key) {
                proof {
                    use_type_invariant(self);
                    lemma_table_of(self.entries@);
                }
                return Some(i);
            }
            i += 1;
        }
        None
    }

    /// The value of `key`.
    pub fn get(&self, key: K) -> (r: Option<&S>)
        ensures
            r is Some <==> self@.contains_key(key),
            r matches Some(v) ==> *v == self@[key],
    {
        proof {
            use_type_invariant(self);
            lemma_table_of(self.entries@);
        }
        match self.position(key) {
            Some(i) => Some(&self.entries[i].1),
            None => None,
        }
    }

    /// Whether the table has `key`.
    pub fn contains_key(&self, key: K) -> (r: bool)
        ensures
            r == self@.contains_key(key),
    {
        self.position(key).is_some()
    }

    /// Removes `key`, and gives back the value that it had.
    pub fn remove(&mut self, key: K) -> (r: Option<S>)
        ensures
            final(self)@ == old(self)@.remove(key),
            r is Some <==> old(self)@.contains_key(key),
            r matches Some(v) ==> v == old(self)@[key],
    {
        proof {
            use_type_invariant(&*self);
            lemma_table_of(self.entries@);
        }
        let ghost before = self.entries@;
        let found: Option<usize> = self.position(key);
        match found {
            Some(i) => {
                let mut entries: Vec<(K, S)> = Vec::new();
                std::mem::swap(&mut entries, &mut self.entries);
                proof {
                    lemma_entry_removed(before, i as int);
                }
                let removed: (K, S) = entries.remove(i);
                self.entries = entries;
                Some(removed.1)
            },
            None => {
                proof {
                    assert(self@ =~= old(self)@.remove(key));
                }
                None
            },
        }
    }

    /// Maps `key` to `value`, and gives back the value that it had.
    pub fn insert(&mut self, key: K, value: S) -> (r: Option<S>)
        ensures
            final(self)@ == old(self)@.insert(key, value),
            r is Some <==> old(self)@.contains_key(key),
            r matches Some(v) ==> v == old(self)@[key],
    {
        let ghost start = self@;
        let replaced: Option<S> = self.remove(key);
        let ghost rest = self.entries@;
        proof {
            use_type_invariant(&*self);
            lemma_table_of(rest);
        }
        let mut entries: Vec<(K, S)> = Vec::new();
        std::mem::swap(&mut entries, &mut self.entries);
        entries.push((key, value));
        proof {
            assert(entries@.drop_last() =~= rest);
            assert forall|a: int, b: int| 0 <= a < b < entries@.len() implies (
            #[trigger] entries@[a]).0 != (#[trigger] entries@[b]).0 by {
                assert(entries@[a] == rest[a]);
                if b < rest.len() {
                    assert(entries@[b] == rest[b]);
                } else {
                    assert(table_of(rest).contains_pair(rest[a].0, rest[a].1));
                }
            }
            assert(table_of(entries@) =~= start.insert(key, value));
        }
        self.entries = entries;
        replaced
    }
}

/// Whether an authorization from `stamp` still holds at `now`, both in nanoseconds.
pub open spec fn is_fresh(stamp: u128, now: u128) -> bool {
    now - stamp < AUTH_IP_TTL
}

/// The authorizations that still hold.
pub open spec fn fresh_only(table: Map<IpKey, u128>, now: u128) -> Map<IpKey, u128> {
    Map::new(|ip: IpKey| table.contains_key(ip) && is_fresh(table[ip], now), |ip: IpKey| table[ip])
}

/// Whether an address is authorized at `now`.
pub open spec fn authorized_at(table: Map<IpKey, u128>, ip: IpKey, now: u128) -> bool {
    table.contains_key(ip) && is_fresh(table[ip], now)
}

/// Whether an authorization from `stamp` still holds at `now`.
fn fresh(stamp: u128, now: u128) -> (r: bool)
    ensures
        r == is_fresh(stamp, now),
{
    now < stamp || now - stamp < AUTH_IP_TTL
}

/// The addresses that are authorized, each with the time of its authorization in nanoseconds.
pub struct AuthorizedIps {
    table: AddrMap<IpKey, u128>,
}

impl View for AuthorizedIps {
    type V = Map<IpKey, u128>;

    closed spec fn view(&self) -> Map<IpKey, u128> {
        self.table@
    }
}

impl AuthorizedIps {
    /// No address is authorized.
    pub fn new() -> (r: Self)
        ensures
            r@ == Map::<IpKey, u128>::empty(),
    {
        AuthorizedIps { table: AddrMap::new() }
    }

    /// Authorizes `ip` from `now` on.
    pub fn authorize(&mut self, ip: IpKey, now: u128)
        ensures
            final(self)@ == old(self)@.insert(ip, now),
    {
        let _ = self.table.insert(ip, now);
    }

    /// Whether `ip` is authorized at `now`.
    pub fn is_authorized(&self, ip: IpKey, now: u128) -> (r: bool)
        ensures
            r == authorized_at(self@, ip, now),
    {
        match self.table.get(ip) {
            Some(stamp) => fresh(*stamp, now),
            None => false,
        }
    }

    /// Forgets the authorizations that do not hold any more.
    pub fn retain_fresh(&mut self, now: u128)
        ensures
            final(self)@ == fresh_only(old(self)@, now),
    {
        let ghost before = self.table@;
        let mut kept: Vec<(IpKey, u128)> = Vec::new();
        let mut i: usize = 0;
        let ghost all = self.table.entries@;
        proof {
            use_type_invariant(&self.table);
            assert(all.take(0) =~= Seq::<(IpKey, u128)>::empty());
            assert(table_of(kept@) =~= fresh_only(table_of(all.take(0)), now));
        }
        while i < self.table.entries.len()
            invariant
                all == self.table.entries@,
                before == table_of(all),
                self.table == old(self).table,
                no_key_twice(all),
                i <= all.len(),
                no_key_twice(kept@),
                table_of(kept@) == fresh_only(table_of(all.take(i as int)), now),
            decreases all.len() - i,
        {
            let entry: (IpKey, u128) = self.table.entries[i];
            let ghost done = all.take(i as int);
            let ghost so_far = kept@;
            proof {
                lemma_prefix_unique(all, i as int);
                lemma_table_of(done);
                lemma_table_of(so_far);
                assert(all.take(i + 1).drop_last() =~= done);
                assert(all.take(i + 1).last() == entry);
                if table_of(done).contains_key(entry.0) {
                    let j = choose|j: int| 0 <= j < done.len() && (#[trigger] done[j]).0 == entry.0;
                    assert(all[j].0 != all[i as int].0);
                }
            }
            if fresh(entry.1, now) {
                kept.push(entry);
                proof {
                    assert(kept@.drop_last() =~= so_far);
                    assert forall|a: int, b: int| 0 <= a < b < kept@.len() implies (
                    #[trigger] kept@[a]).0 != (#[trigger] kept@[b]).0 by {
                        assert(kept@[a] == so_far[a]);
                        if b < so_far.len() {
                            assert(kept@[b] == so_far[b]);
                        } else {
                            assert(table_of(so_far).contains_pair(so_far[a].0, so_far[a].1));
                        }
                    }
                }
            }
            proof {
                assert(table_of(kept@) =~= fresh_only(table_of(all.take(i + 1)), now));
            }
            i += 1;
        }
        proof {
            assert(all.take(i as int) =~= all);
        }
        self.table = AddrMap { entries: kept };
    }
}

/// No key occurs twice in a part of entries in which none does.
proof fn lemma_prefix_unique<K, S>(entries: Seq<(K, S)>, n: int)
    requires
        no_key_twice(entries),
        0 <= n <= entries.len(),
    ensures
        no_key_twice(entries.take(n)),
{
    let part = entries.take(n);
    assert forall|i: int, j: int| 0 <= i < j < part.len() implies (#[trigger] part[i]).0 != (
    #[trigger] part[j]).0 by {
        assert(entries[i].0 != entries[j].0);
    }
}

/// Forgetting the authorizations that do not hold any more changes no answer, then or later.
pub proof fn lemma_forgetting_changes_nothing(
    table: Map<IpKey, u128>,
    ip: IpKey,
    then: u128,
    now: u128,
)
    requires
        then <= now,
    ensures
        authorized_at(fresh_only(table, then), ip, now) == authorized_at(table, ip, now),
{
}

/// An authorization holds for two hours and not longer, and does not touch other addresses.
pub proof fn lemma_authorization_expires(
    table: Map<IpKey, u128>,
    ip: IpKey,
    other: IpKey,
    stamp: u128,
    now: u128,
)
    requires
        stamp <= now,
    ensures
        authorized_at(table.insert(ip, stamp), ip, now) <==> now < stamp + AUTH_IP_TTL,
        other != ip ==> authorized_at(table.insert(ip, stamp), other, now) == authorized_at(
            table,
            other,
            now,
        ),
{
}

/// What is forgotten is what has been authorized for two hours or longer, and nothing else is: what
/// is kept keeps its time.
pub proof fn lemma_what_is_forgotten(table: Map<IpKey, u128>, ip: IpKey, now: u128)
    ensures
        fresh_only(table, now).contains_key(ip) <==> table.contains_key(ip) && now
            < table[ip] + 7_200_000_000_000,
        fresh_only(table, now).contains_key(ip) ==> fresh_only(table, now)[ip] == table[ip],
        authorized_at(table, ip, now) <==> table.contains_key(ip) && now < table[ip]
            + 7_200_000_000_000,
{
}

} // verus!
