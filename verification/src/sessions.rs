//! The transfers that are under way, each known by the device it comes from and
//! the identifier that the device gave it.

use vstd::prelude::*;

use crate::text::same_text;
use crate::wire::SESSION_IDLE_TIMEOUT;

verus! {

/// What a transfer is known by.
#[derive(Debug, Clone, PartialEq, Eq, Hash)]
pub struct SessionKey {
    pub peer_id: u64,
    pub message_id: String,
}

impl SessionKey {
    /// The key of a device's transfer.
    pub fn new(peer_id: u64, message_id: String) -> (key: SessionKey)
        ensures
            key.peer_id == peer_id,
            key.message_id@ == message_id@,
    {
        SessionKey { peer_id, message_id }
    }
}

/// A transfer under way.
pub struct Session<T> {
    pub key: SessionKey,
    /// When a message about it came last, in nanoseconds.
    pub last_activity: u64,
    /// The bytes that it announced.
    pub size: u64,
    pub item: T,
}

/// A transfer under way, as a value.
pub ghost struct SessionView<V> {
    pub peer: u64,
    pub id: Seq<char>,
    pub last: u64,
    pub size: u64,
    pub item: V,
}

impl<T: View> View for Session<T> {
    type V = SessionView<T::V>;

    open spec fn view(&self) -> SessionView<T::V> {
        SessionView {
            peer: self.key.peer_id,
            id: self.key.message_id@,
            last: self.last_activity,
            size: self.size,
            item: self.item@,
        }
    }
}

/// The place of a transfer in a list; the end where it is not there.
pub open spec fn place<V>(sessions: Seq<SessionView<V>>, peer: u64, id: Seq<char>) -> int
    decreases sessions.len(),
{
    if sessions.len() == 0 {
        0
    } else if sessions[0].peer == peer && sessions[0].id == id {
        0
    } else {
        1 + place(sessions.skip(1), peer, id)
    }
}

/// Whether a transfer is under way.
pub open spec fn is_active<V>(sessions: Seq<SessionView<V>>, peer: u64, id: Seq<char>) -> bool {
    place(sessions, peer, id) < sessions.len()
}

/// A list without one transfer.
pub open spec fn without<V>(
    sessions: Seq<SessionView<V>>,
    peer: u64,
    id: Seq<char>,
) -> Seq<SessionView<V>> {
    if is_active(sessions, peer, id) {
        sessions.remove(place(sessions, peer, id))
    } else {
        sessions
    }
}

/// The bytes that the transfers announced together.
pub open spec fn announced<V>(sessions: Seq<SessionView<V>>) -> nat
    decreases sessions.len(),
{
    if sessions.len() == 0 {
        0
    } else {
        announced(sessions.drop_last()) + sessions.last().size as nat
    }
}

/// Whether no two transfers have the same key.
pub open spec fn distinct<V>(sessions: Seq<SessionView<V>>) -> bool {
    forall|i: int, j: int|
        0 <= i < j < sessions.len() ==> !((#[trigger] sessions[i]).peer == (
        #[trigger] sessions[j]).peer && sessions[i].id == sessions[j].id)
}

/// Why transfers are given up.
#[derive(Debug, Clone, Copy, PartialEq, Eq, Structural)]
pub enum DropRule {
    /// They come from a device that is gone.
    Peer { peer_id: u64 },
    /// They have been idle for too long.
    Idle { now: u64 },
}

impl DropRule {
    /// Whether a transfer is given up.
    pub open spec fn drops<V>(self, session: SessionView<V>) -> bool {
        match self {
            DropRule::Peer { peer_id } => session.peer == peer_id,
            DropRule::Idle { now } => now >= session.last && now - session.last
                >= SESSION_IDLE_TIMEOUT,
        }
    }
}

/// The transfers that a rule keeps.
pub open spec fn kept<V>(sessions: Seq<SessionView<V>>, rule: DropRule) -> Seq<SessionView<V>>
    decreases sessions.len(),
{
    if sessions.len() == 0 {
        seq![]
    } else if rule.drops(sessions.last()) {
        kept(sessions.drop_last(), rule)
    } else {
        kept(sessions.drop_last(), rule).push(sessions.last())
    }
}

/// The transfers that a rule drops.
pub open spec fn dropped<V>(sessions: Seq<SessionView<V>>, rule: DropRule) -> Seq<SessionView<V>>
    decreases sessions.len(),
{
    if sessions.len() == 0 {
        seq![]
    } else if rule.drops(sessions.last()) {
        dropped(sessions.drop_last(), rule).push(sessions.last())
    } else {
        dropped(sessions.drop_last(), rule)
    }
}

pub proof fn lemma_place<V>(sessions: Seq<SessionView<V>>, peer: u64, id: Seq<char>)
    ensures
        0 <= place(sessions, peer, id) <= sessions.len(),
        is_active(sessions, peer, id) ==> {
            let found = sessions[place(sessions, peer, id)];
            found.peer == peer && found.id == id
        },
        forall|i: int|
            0 <= i < place(sessions, peer, id) ==> !((#[trigger] sessions[i]).peer == peer
                && sessions[i].id == id),
    decreases sessions.len(),
{
    if sessions.len() > 0 && !(sessions[0].peer == peer && sessions[0].id == id) {
        lemma_place(sessions.skip(1), peer, id);
        assert forall|i: int| 0 <= i < place(sessions, peer, id) implies !((
        #[trigger] sessions[i]).peer == peer && sessions[i].id == id) by {
            if i > 0 {
                assert(sessions[i] == sessions.skip(1)[i - 1]);
            }
        }
    }
}

/// The place of a transfer is where it is first found.
pub proof fn lemma_place_is<V>(sessions: Seq<SessionView<V>>, peer: u64, id: Seq<char>, at: int)
    requires
        0 <= at <= sessions.len(),
        at < sessions.len() ==> sessions[at].peer == peer && sessions[at].id == id,
        forall|i: int|
            0 <= i < at ==> !((#[trigger] sessions[i]).peer == peer && sessions[i].id == id),
    ensures
        place(sessions, peer, id) == at,
{
    lemma_place(sessions, peer, id);
    let p = place(sessions, peer, id);
    if p < at {
        assert(sessions[p].peer == peer);
    }
    if at < p {
        assert(sessions[at].peer == peer);
    }
}

/// Taking one transfer out takes its bytes out of the sum.
pub proof fn lemma_announced_remove<V>(sessions: Seq<SessionView<V>>, at: int)
    requires
        0 <= at < sessions.len(),
    ensures
        announced(sessions.remove(at)) + sessions[at].size == announced(sessions),
    decreases sessions.len(),
{
    let less = sessions.remove(at);
    if at == sessions.len() - 1 {
        assert(less == sessions.drop_last());
    } else {
        lemma_announced_remove(sessions.drop_last(), at);
        assert(less.drop_last() == sessions.drop_last().remove(at));
        assert(less.last() == sessions.last());
    }
}

/// A transfer that goes on leaves the sum as it is.
pub proof fn lemma_announced_update<V>(
    sessions: Seq<SessionView<V>>,
    at: int,
    session: SessionView<V>,
)
    requires
        0 <= at < sessions.len(),
        session.size == sessions[at].size,
    ensures
        announced(sessions.update(at, session)) == announced(sessions),
    decreases sessions.len(),
{
    let after = sessions.update(at, session);
    if at == sessions.len() - 1 {
        assert(after.drop_last() == sessions.drop_last());
    } else {
        lemma_announced_update(sessions.drop_last(), at, session);
        assert(after.drop_last() == sessions.drop_last().update(at, session));
    }
}

/// What a rule keeps is part of the list: no longer, no larger, and still distinct.
pub proof fn lemma_kept<V>(sessions: Seq<SessionView<V>>, rule: DropRule)
    ensures
        kept(sessions, rule).len() <= sessions.len(),
        announced(kept(sessions, rule)) <= announced(sessions),
        distinct(sessions) ==> distinct(kept(sessions, rule)),
        forall|i: int|
            0 <= i < kept(sessions, rule).len() ==> sessions.contains(
                #[trigger] kept(sessions, rule)[i],
            ) && !rule.drops(kept(sessions, rule)[i]),
    decreases sessions.len(),
{
    if sessions.len() > 0 {
        let before = sessions.drop_last();
        let last = sessions.last();
        lemma_kept(before, rule);
        let all = kept(sessions, rule);
        assert forall|i: int| 0 <= i < all.len() implies sessions.contains(#[trigger] all[i])
            && !rule.drops(all[i]) by {
            if i < kept(before, rule).len() {
                assert(all[i] == kept(before, rule)[i]);
                let k = choose|k: int| 0 <= k < before.len() && before[k] == all[i];
                assert(sessions[k] == all[i]);
            } else {
                assert(sessions[sessions.len() - 1] == all[i]);
            }
        }
        if !rule.drops(last) {
            assert(all.drop_last() == kept(before, rule));
        }
        if distinct(sessions) {
            assert(distinct(before));
            assert forall|i: int, j: int| 0 <= i < j < all.len() implies !((
            #[trigger] all[i]).peer == (#[trigger] all[j]).peer && all[i].id == all[j].id) by {
                assert(all[i] == kept(before, rule)[i]);
                if j < kept(before, rule).len() {
                    assert(all[j] == kept(before, rule)[j]);
                } else {
                    let k = choose|k: int| 0 <= k < before.len() && before[k] == all[i];
                    assert(sessions[k] == all[i]);
                    assert(sessions[sessions.len() - 1] == all[j]);
                }
            }
        }
    }
}

/// Nothing that a rule drops is kept: what is kept of one device is nothing.
pub proof fn law_nothing_stays_of_a_gone_device<V>(sessions: Seq<SessionView<V>>, peer_id: u64)
    ensures
        forall|i: int|
            0 <= i < kept(sessions, DropRule::Peer { peer_id }).len() ==> (#[trigger] kept(
                sessions,
                DropRule::Peer { peer_id },
            )[i]).peer != peer_id,
{
    lemma_kept(sessions, DropRule::Peer { peer_id });
}

/// The transfers under way.
pub struct SessionTable<T> {
    pub items: Vec<Session<T>>,
}

impl<T: View> View for SessionTable<T> {
    type V = Seq<SessionView<T::V>>;

    open spec fn view(&self) -> Seq<SessionView<T::V>> {
        self.items@.map_values(|s: Session<T>| s@)
    }
}

impl<T: View> SessionTable<T> {
    /// No transfer is under way.
    pub fn new() -> (table: SessionTable<T>)
        ensures
            table@ == Seq::<SessionView<T::V>>::empty(),
            table.items@.len() == 0,
    {
        let table = SessionTable { items: Vec::new() };
        proof {
            assert(table@ == Seq::<SessionView<T::V>>::empty());
        }
        table
    }

    /// Where a transfer stands in the list.
    pub fn find(&self, peer_id: u64, id: &str) -> (at: Option<usize>)
        ensures
            at is Some <==> is_active(self@, peer_id, id@),
            at matches Some(at) ==> at == place(self@, peer_id, id@) && at < self.items@.len(),
            at is None ==> place(self@, peer_id, id@) == self@.len(),
    {
        let mut i: usize = 0;
        while i < self.items.len()
            invariant
                i <= self.items@.len(),
                forall|k: int|
                    0 <= k < i ==> !((#[trigger] self@[k]).peer == peer_id && self@[k].id == id@),
            decreases self.items@.len() - i,
        {
            proof {
                assert(self@[i as int] == self.items@[i as int]@);
            }
            let key = &self.items[i].key;
            if key.peer_id == peer_id && same_text(key.message_id.as_str(), id) {
                proof {
                    lemma_place_is(self@, peer_id, id@, i as int);
                }
                return Some(i);
            }
            i += 1;
        }
        proof {
            lemma_place_is(self@, peer_id, id@, self@.len() as int);
        }
        None
    }

    /// Takes a transfer out of the list.
    pub fn remove(&mut self, peer_id: u64, id: &str) -> (r: Option<Session<T>>)
        ensures
            final(self)@ == without(old(self)@, peer_id, id@),
            r is Some <==> is_active(old(self)@, peer_id, id@),
            r matches Some(session) ==> session@ == old(self)@[place(old(self)@, peer_id, id@)]
                && old(self).items@[place(old(self)@, peer_id, id@)] == session
                && final(self).items@ == old(self).items@.remove(place(old(self)@, peer_id, id@)),
            r is None ==> final(self).items@ == old(self).items@,
    {
        let ghost before = self@;
        match self.find(peer_id, id) {
            Some(at) => {
                proof {
                    lemma_place(before, peer_id, id@);
                    assert(before[at as int] == self.items@[at as int]@);
                }
                let session = self.items.remove(at);
                proof {
                    assert(self@ == before.remove(at as int));
                }
                Some(session)
            },
            None => None,
        }
    }

    /// Puts a transfer at the end of the list.
    pub fn push(&mut self, session: Session<T>)
        ensures
            final(self)@ == old(self)@.push(session@),
            final(self).items@ == old(self).items@.push(session),
    {
        let ghost before = self@;
        self.items.push(session);
        proof {
            assert(self@ == before.push(session@));
        }
    }

    /// The bytes that the transfers announced together.
    pub fn total(&self) -> (total: u64)
        requires
            announced(self@) <= u64::MAX,
        ensures
            total == announced(self@),
    {
        let ghost all = self@;
        let mut total: u64 = 0;
        let mut i: usize = 0;
        while i < self.items.len()
            invariant
                all == self@,
                all.len() == self.items@.len(),
                i <= all.len(),
                announced(all) <= u64::MAX,
                total == announced(all.take(i as int)),
            decreases all.len() - i,
        {
            proof {
                assert(all[i as int] == self.items@[i as int]@);
                assert(all.take(i as int + 1).drop_last() == all.take(i as int));
                lemma_announced_take(all, i as int + 1);
            }
            total = total + self.items[i].size;
            i += 1;
        }
        proof {
            assert(all.take(all.len() as int) == all);
        }
        total
    }

    /// Drops the transfers that a rule drops, and gives them back.
    pub fn drop_matching(&mut self, rule: DropRule) -> (r: Vec<Session<T>>)
        ensures
            final(self)@ == kept(old(self)@, rule),
            r@.map_values(|s: Session<T>| s@) == dropped(old(self)@, rule),
            forall|i: int|
                0 <= i < final(self).items@.len() ==> old(self).items@.contains(
                    #[trigger] final(self).items@[i],
                ),
    {
        let ghost all = self@;
        let ghost items = self.items@;
        let ghost n = all.len() as int;
        let mut r: Vec<Session<T>> = Vec::new();
        let mut i: usize = 0;
        proof {
            assert(kept(all.take(0), rule) + all.skip(0) == all);
            assert(r@.map_values(|s: Session<T>| s@) == dropped(all.take(0), rule));
        }
        while i < self.items.len()
            invariant
                all == old(self)@,
                items == old(self).items@,
                n == all.len(),
                i <= self.items@.len() <= n,
                kept(all.take(n - (self.items@.len() - i)), rule).len() == i,
                self@ == kept(all.take(n - (self.items@.len() - i)), rule) + all.skip(
                    n - (self.items@.len() - i),
                ),
                r@.map_values(|s: Session<T>| s@) == dropped(
                    all.take(n - (self.items@.len() - i)),
                    rule,
                ),
                forall|k: int|
                    0 <= k < self.items@.len() ==> items.contains(#[trigger] self.items@[k]),
            decreases self.items@.len() - i,
        {
            let ghost j = n - (self.items@.len() - i);
            let ghost before = self@;
            let ghost before_items = self.items@;
            proof {
                assert(before[i as int] == self.items@[i as int]@);
                assert(before[i as int] == all[j]);
                assert(all.take(j + 1).drop_last() == all.take(j));
            }
            let session = &self.items[i];
            let drops = match rule {
                DropRule::Peer { peer_id } => session.key.peer_id == peer_id,
                DropRule::Idle { now } => now >= session.last_activity && now
                    - session.last_activity >= SESSION_IDLE_TIMEOUT,
            };
            if drops {
                let ghost r_before = r@.map_values(|s: Session<T>| s@);
                let session = self.items.remove(i);
                r.push(session);
                proof {
                    assert(r@.map_values(|s: Session<T>| s@) == r_before.push(session@));
                    assert(self@ == before.remove(i as int));
                    assert(self@ == kept(all.take(j), rule) + all.skip(j + 1));
                    assert forall|k: int| 0 <= k < self.items@.len() implies items.contains(
                        #[trigger] self.items@[k],
                    ) by {
                        if k < i {
                            assert(self.items@[k] == before_items[k]);
                        } else {
                            assert(self.items@[k] == before_items[k + 1]);
                        }
                    }
                }
            } else {
                i += 1;
                proof {
                    assert(kept(all.take(j), rule).push(all[j]) + all.skip(j + 1) == kept(
                        all.take(j),
                        rule,
                    ) + all.skip(j));
                }
            }
        }
        proof {
            assert(all.take(n) == all);
            assert(kept(all, rule) + all.skip(n) == kept(all, rule));
        }
        r
    }
}

proof fn lemma_announced_take<V>(sessions: Seq<SessionView<V>>, n: int)
    requires
        0 <= n <= sessions.len(),
    ensures
        announced(sessions.take(n)) <= announced(sessions),
    decreases sessions.len(),
{
    if n < sessions.len() {
        lemma_announced_take(sessions.drop_last(), n);
        assert(sessions.drop_last().take(n) == sessions.take(n));
    } else {
        assert(sessions.take(n) == sessions);
    }
}

/// Taking out one of distinct transfers leaves the others distinct, and that one
/// gone.
pub proof fn lemma_without<V>(sessions: Seq<SessionView<V>>, peer: u64, id: Seq<char>)
    requires
        distinct(sessions),
    ensures
        distinct(without(sessions, peer, id)),
        !is_active(without(sessions, peer, id), peer, id),
        without(sessions, peer, id).len() <= sessions.len(),
        is_active(sessions, peer, id) ==> without(sessions, peer, id).len() == sessions.len() - 1,
        announced(without(sessions, peer, id)) <= announced(sessions),
{
    lemma_place(sessions, peer, id);
    let at = place(sessions, peer, id);
    let rest = without(sessions, peer, id);
    if at < sessions.len() {
        lemma_announced_remove(sessions, at);
        assert forall|i: int| 0 <= i < rest.len() implies !((#[trigger] rest[i]).peer == peer
            && rest[i].id == id) by {
            if i < at {
                assert(rest[i] == sessions[i]);
            } else {
                assert(rest[i] == sessions[i + 1]);
                assert(!(sessions[at].peer == sessions[i + 1].peer && sessions[at].id == sessions[i
                    + 1].id));
            }
        }
        assert forall|i: int, j: int| 0 <= i < j < rest.len() implies !((
        #[trigger] rest[i]).peer == (#[trigger] rest[j]).peer && rest[i].id == rest[j].id) by {
            let a = if i < at {
                i
            } else {
                i + 1
            };
            let b = if j < at {
                j
            } else {
                j + 1
            };
            assert(rest[i] == sessions[a] && rest[j] == sessions[b]);
        }
    }
    lemma_place(rest, peer, id);
}

/// A transfer that goes on stays one of distinct transfers.
pub proof fn lemma_update<V>(sessions: Seq<SessionView<V>>, at: int, session: SessionView<V>)
    requires
        distinct(sessions),
        0 <= at < sessions.len(),
        session.peer == sessions[at].peer,
        session.id == sessions[at].id,
        session.size == sessions[at].size,
    ensures
        distinct(sessions.update(at, session)),
        announced(sessions.update(at, session)) == announced(sessions),
{
    lemma_announced_update(sessions, at, session);
    let after = sessions.update(at, session);
    assert forall|i: int, j: int| 0 <= i < j < after.len() implies !((#[trigger] after[i]).peer == (
    #[trigger] after[j]).peer && after[i].id == after[j].id) by {
        assert(!(sessions[i].peer == sessions[j].peer && sessions[i].id == sessions[j].id));
    }
}

/// A new transfer joins distinct transfers.
pub proof fn lemma_push<V>(sessions: Seq<SessionView<V>>, session: SessionView<V>)
    requires
        distinct(sessions),
        !is_active(sessions, session.peer, session.id),
    ensures
        distinct(sessions.push(session)),
        announced(sessions.push(session)) == announced(sessions) + session.size,
{
    lemma_place(sessions, session.peer, session.id);
    let after = sessions.push(session);
    assert(after.drop_last() == sessions);
    assert forall|i: int, j: int| 0 <= i < j < after.len() implies !((#[trigger] after[i]).peer == (
    #[trigger] after[j]).peer && after[i].id == after[j].id) by {
        assert(after[i] == sessions[i]);
        if j < sessions.len() {
            assert(after[j] == sessions[j]);
        }
    }
}

} // verus!
