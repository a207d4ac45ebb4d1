//! The durable store: session records with lazy expiry and a sweep.
//!
//! Times are milliseconds since the Unix epoch, durations are milliseconds.
//! The caller hands in the current instant, so that every operation is
//! decided by its arguments.
use crate::key::{decode_key, SessionId};
use crate::state::{decode_state, encode_state, state_of_json, SessionState};
use vstd::prelude::*;

verus! {

/// One stored session.
pub struct SessionRecord {
    pub id: SessionId,
    pub created: i64,
    pub expires: i64,
    /// The session data as JSON text.
    pub data: String,
}

/// Why an operation of a store failed.
#[derive(Clone, Copy, Debug, PartialEq, Eq, Structural)]
pub enum StoreError {
    /// The key is not one that the store issues.
    KeyDecode,
    /// The stored text could not be read as session data.
    Deserialization,
    /// The storage refused the operation: an identifier already in use.
    Storage,
    /// An update of a legacy session whose record does not exist.
    MigrationInconsistency,
}

/// The records of a durable store, at most one for each identifier.
pub struct SessionTable {
    rows: Vec<SessionRecord>,
}

impl View for SessionTable {
    type V = Seq<SessionRecord>;

    closed spec fn view(&self) -> Seq<SessionRecord> {
        self.rows@
    }
}

pub open spec fn ids_distinct(rows: Seq<SessionRecord>) -> bool {
    forall|i: int, j: int|
        0 <= i < rows.len() && 0 <= j < rows.len() && i != j ==> rows[i].id != rows[j].id
}

/// Some record of `rows` has the identifier `id`.
pub open spec fn holds(rows: Seq<SessionRecord>, id: SessionId) -> bool {
    exists|i: int| 0 <= i < rows.len() && rows[i].id == id
}

/// Where the record with identifier `id` stands.
pub open spec fn position(rows: Seq<SessionRecord>, id: SessionId) -> int {
    choose|i: int| 0 <= i < rows.len() && rows[i].id == id
}

/// A record is expired once its expiry instant is strictly in the past.
pub open spec fn is_expired(row: SessionRecord, now: int) -> bool {
    row.expires < now
}

/// The stored text of the record `id`, if it is there and not expired at `now`.
pub open spec fn live_data(rows: Seq<SessionRecord>, id: SessionId, now: int) -> Option<Seq<char>> {
    if holds(rows, id) && !is_expired(rows[position(rows, id)], now) {
        Some(rows[position(rows, id)].data@)
    } else {
        None
    }
}

/// The session data that a read of `id` at `now` finds.
pub open spec fn stored_state(rows: Seq<SessionRecord>, id: SessionId, now: int) -> Option<
    Map<String, String>,
> {
    match live_data(rows, id, now) {
        Some(text) => state_of_json(text),
        None => None,
    }
}

/// The records after a read of `id` at `now`: an expired record is dropped.
pub open spec fn after_load(rows: Seq<SessionRecord>, id: SessionId, now: int) -> Seq<
    SessionRecord,
> {
    if holds(rows, id) && is_expired(rows[position(rows, id)], now) {
        rows.remove(position(rows, id))
    } else {
        rows
    }
}

/// The records after a deletion of `id`.
pub open spec fn after_delete(rows: Seq<SessionRecord>, id: SessionId) -> Seq<SessionRecord> {
    if holds(rows, id) {
        rows.remove(position(rows, id))
    } else {
        rows
    }
}

/// The records after the expiry of `id` is set to `expires`.
pub open spec fn after_retime(rows: Seq<SessionRecord>, id: SessionId, expires: i64) -> Seq<
    SessionRecord,
> {
    if holds(rows, id) {
        let i = position(rows, id);
        rows.update(i, SessionRecord { expires: expires, ..rows[i] })
    } else {
        rows
    }
}

/// The records that a sweep at `now` keeps.
pub open spec fn after_sweep(rows: Seq<SessionRecord>, now: int) -> Seq<SessionRecord> {
    rows.filter(|r: SessionRecord| !is_expired(r, now))
}

/// `post` is `pre` with one more record, whose identifier `id` was not in use.
pub open spec fn inserted(pre: Seq<SessionRecord>, post: Seq<SessionRecord>, id: SessionId) -> bool {
    &&& !holds(pre, id)
    &&& post.len() == pre.len() + 1
    &&& post.drop_last() == pre
    &&& post.last().id == id
}

/// `post` is `pre` with a new record `id` for `state`, created at `now` and
/// expiring `ttl` later.
pub open spec fn saved(
    pre: Seq<SessionRecord>,
    post: Seq<SessionRecord>,
    id: SessionId,
    state: Map<String, String>,
    ttl: int,
    now: int,
) -> bool {
    &&& inserted(pre, post, id)
    &&& post.last().created == now
    &&& post.last().expires == now + ttl
    &&& state_of_json(post.last().data@) == Some(state)
}

/// `post` is `pre` with the record `id`, if there is one, holding `state` and
/// expiring at `expires`; its identifier and creation instant are kept.
pub open spec fn rewritten(
    pre: Seq<SessionRecord>,
    post: Seq<SessionRecord>,
    id: SessionId,
    state: Map<String, String>,
    expires: int,
) -> bool {
    if holds(pre, id) {
        let i = position(pre, id);
        &&& post == pre.update(i, post[i])
        &&& post[i].id == id
        &&& post[i].created == pre[i].created
        &&& post[i].expires == expires
        &&& state_of_json(post[i].data@) == Some(state)
    } else {
        post == pre
    }
}

/// Whether a record that expires at `expires` is expired at `now`.
pub fn expired_at(expires: i64, now: i64) -> (r: bool)
    ensures
        r == (expires < now),
{
    expires < now
}

/// An expiry instant `ttl` after `now` can be represented.
pub open spec fn ttl_fits(ttl: i64, now: i64) -> bool {
    0 <= ttl && now + ttl <= i64::MAX
}

/// The instant `ttl` after `now`, where the TTL is not negative and the
/// instant can be represented.
pub fn expiry_instant(ttl: i64, now: i64) -> (r: Option<i64>)
    ensures
        r == (if ttl_fits(ttl, now) {
            Some((now + ttl) as i64)
        } else {
            None::<i64>
        }),
{
    if ttl < 0 {
        None
    } else {
        now.checked_add(ttl)
    }
}

/// A record for `state` under `id`, created at `now` and expiring `ttl` later.
pub fn new_record(id: SessionId, state: &SessionState, ttl: i64, now: i64) -> (r: SessionRecord)
    requires
        ttl_fits(ttl, now),
    ensures
        r.id == id,
        r.created == now,
        r.expires == now + ttl,
        state_of_json(r.data@) == Some(state@),
{
    let data = match encode_state(state) {
        Ok(text) => text,
        Err(_) => String::new(),
    };
    SessionRecord { id, created: now, expires: now + ttl, data }
}

/// What a read of a session comes to.
pub enum LoadStep {
    /// No record: the session is absent.
    Absent,
    /// The record is expired: it is to be deleted, and the session is absent.
    DropExpired,
    /// The record is live and holds this data.
    Live(SessionState),
    /// The record is live but its text is not session data.
    Undecodable,
}

/// Decides a read at `now` of the record found for a key: `row` holds its
/// expiry instant and its stored text, if there is a record.
pub fn load_step(row: Option<(i64, String)>, now: i64) -> (r: LoadStep)
    ensures
        match row {
            None => r is Absent,
            Some((expires, text)) => if expires < now {
                r is DropExpired
            } else {
                match state_of_json(text@) {
                    Some(m) => match r {
                        LoadStep::Live(s) => s@ == m,
                        _ => false,
                    },
                    None => r is Undecodable,
                }
            },
        },
{
    match row {
        None => LoadStep::Absent,
        Some((expires, text)) => {
            if expired_at(expires, now) {
                LoadStep::DropExpired
            } else {
                match decode_state(text.as_str()) {
                    Ok(m) => LoadStep::Live(m),
                    Err(_) => LoadStep::Undecodable,
                }
            }
        },
    }
}

proof fn lemma_position(rows: Seq<SessionRecord>, i: int)
    requires
        ids_distinct(rows),
        0 <= i < rows.len(),
    ensures
        holds(rows, rows[i].id),
        position(rows, rows[i].id) == i,
{
    assert(holds(rows, rows[i].id));
}

proof fn lemma_remove_distinct(rows: Seq<SessionRecord>, i: int)
    requires
        ids_distinct(rows),
        0 <= i < rows.len(),
    ensures
        ids_distinct(rows.remove(i)),
        !holds(rows.remove(i), rows[i].id),
        forall|id: SessionId| id != rows[i].id ==> (holds(rows.remove(i), id) == holds(rows, id)),
{
    let r = rows.remove(i);
    assert forall|a: int, b: int|
        0 <= a < r.len() && 0 <= b < r.len() && a != b implies r[a].id != r[b].id by {
        let a0 = if a < i {
            a
        } else {
            a + 1
        };
        let b0 = if b < i {
            b
        } else {
            b + 1
        };
        assert(r[a] == rows[a0] && r[b] == rows[b0]);
    }
    if holds(r, rows[i].id) {
        let a = choose|a: int| 0 <= a < r.len() && r[a].id == rows[i].id;
        let a0 = if a < i {
            a
        } else {
            a + 1
        };
        assert(r[a] == rows[a0]);
    }
    assert forall|id: SessionId| id != rows[i].id implies (holds(r, id) == holds(rows, id)) by {
        if holds(rows, id) {
            let a = choose|a: int| 0 <= a < rows.len() && rows[a].id == id;
            let a1 = if a < i {
                a
            } else {
                a - 1
            };
            assert(r[a1] == rows[a]);
        }
        if holds(r, id) {
            let a = choose|a: int| 0 <= a < r.len() && r[a].id == id;
            let a0 = if a < i {
                a
            } else {
                a + 1
            };
            assert(r[a] == rows[a0]);
        }
    }
}

proof fn lemma_update_distinct(rows: Seq<SessionRecord>, i: int, row: SessionRecord)
    requires
        ids_distinct(rows),
        0 <= i < rows.len(),
        row.id == rows[i].id,
    ensures
        ids_distinct(rows.update(i, row)),
        forall|id: SessionId| holds(rows.update(i, row), id) == holds(rows, id),
{
    let r = rows.update(i, row);
    assert forall|a: int| 0 <= a < r.len() implies #[trigger] r[a].id == rows[a].id by {}
    assert forall|id: SessionId| holds(r, id) == holds(rows, id) by {
        if holds(rows, id) {
            let a = choose|a: int| 0 <= a < rows.len() && rows[a].id == id;
            assert(r[a].id == id);
        }
        if holds(r, id) {
            let a = choose|a: int| 0 <= a < r.len() && r[a].id == id;
            assert(rows[a].id == id);
        }
    }
}

proof fn lemma_push_distinct(rows: Seq<SessionRecord>, row: SessionRecord)
    requires
        ids_distinct(rows),
        !holds(rows, row.id),
    ensures
        ids_distinct(rows.push(row)),
{
    let r = rows.push(row);
    assert forall|a: int, b: int|
        0 <= a < r.len() && 0 <= b < r.len() && a != b implies r[a].id != r[b].id by {
        if a < rows.len() && b < rows.len() {
            assert(r[a] == rows[a] && r[b] == rows[b]);
        } else if a < rows.len() {
            assert(r[a] == rows[a]);
        } else if b < rows.len() {
            assert(r[b] == rows[b]);
        }
    }
}

proof fn lemma_sweep_step(s: Seq<SessionRecord>, j: int, now: int)
    requires
        0 <= j < s.len(),
    ensures
        after_sweep(s.subrange(0, j + 1), now) == (if is_expired(s[j], now) {
            after_sweep(s.subrange(0, j), now)
        } else {
            after_sweep(s.subrange(0, j), now).push(s[j])
        }),
{
    reveal(Seq::filter);
    assert(s.subrange(0, j + 1).drop_last() =~= s.subrange(0, j));
    assert(s.subrange(0, j + 1).last() == s[j]);
}

/// The record added last by `inserted` stays where it was through later
/// insertions.
proof fn lemma_insertions_keep(states: Seq<Seq<SessionRecord>>, keys: Seq<SessionId>, a: int, j: int)
    requires
        states.len() == keys.len() + 1,
        forall|k: int| 0 <= k < keys.len() ==> inserted(#[trigger] states[k], states[k + 1], keys[k]),
        0 <= a < j < states.len(),
    ensures
        states[a].len() < states[j].len(),
        states[j][states[a].len() as int].id == keys[a],
    decreases j - a,
{
    if j == a + 1 {
        assert(inserted(states[a], states[a + 1], keys[a]));
    } else {
        lemma_insertions_keep(states, keys, a, j - 1);
        assert(inserted(states[j - 1], states[j], keys[j - 1]));
        assert(states[j].drop_last()[states[a].len() as int] == states[j][states[a].len() as int]);
    }
}

/// Keys returned by successive saves are pairwise distinct: a save only
/// succeeds with an identifier that no record holds, and the records of
/// earlier saves are still there.
pub proof fn lemma_saves_distinct(states: Seq<Seq<SessionRecord>>, keys: Seq<SessionId>)
    requires
        states.len() == keys.len() + 1,
        forall|k: int| 0 <= k < keys.len() ==> inserted(#[trigger] states[k], states[k + 1], keys[k]),
    ensures
        forall|a: int, b: int| 0 <= a < b < keys.len() ==> keys[a] != keys[b],
{
    assert forall|a: int, b: int| 0 <= a < b < keys.len() implies keys[a] != keys[b] by {
        lemma_insertions_keep(states, keys, a, b);
        assert(inserted(states[b], states[b + 1], keys[b]));
        let i = states[a].len() as int;
        assert(0 <= i < states[b].len() && states[b][i].id == keys[a]);
    }
}

proof fn lemma_saved_last(pre: Seq<SessionRecord>, post: Seq<SessionRecord>, id: SessionId)
    requires
        ids_distinct(pre),
        inserted(pre, post, id),
    ensures
        ids_distinct(post),
        post == pre.push(post.last()),
        holds(post, id),
        position(post, id) == pre.len(),
{
    assert(post =~= pre.push(post.last()));
    lemma_push_distinct(pre, post.last());
    lemma_position(post, pre.len() as int);
}

/// A saved session reads back as the data it was saved with, until its
/// time to live has run out.
pub proof fn lemma_round_trip(
    pre: Seq<SessionRecord>,
    post: Seq<SessionRecord>,
    id: SessionId,
    state: Map<String, String>,
    ttl: int,
    now: int,
    later: int,
)
    requires
        ids_distinct(pre),
        saved(pre, post, id, state, ttl, now),
        later <= now + ttl,
    ensures
        stored_state(post, id, later) == Some(state),
        after_load(post, id, later) == post,
{
    lemma_saved_last(pre, post, id);
}

/// Once the time to live of a saved session has run out, a read finds
/// nothing and drops the record, and a sweep removes it if no read did.
pub proof fn lemma_expiry(
    pre: Seq<SessionRecord>,
    post: Seq<SessionRecord>,
    id: SessionId,
    state: Map<String, String>,
    ttl: int,
    now: int,
    later: int,
)
    requires
        ids_distinct(pre),
        saved(pre, post, id, state, ttl, now),
        later > now + ttl,
    ensures
        stored_state(post, id, later) is None,
        after_load(post, id, later) == pre,
        after_sweep(post, later) == after_sweep(pre, later),
        post.len() - after_sweep(post, later).len() == pre.len() - after_sweep(pre, later).len()
            + 1,
{
    lemma_saved_last(pre, post, id);
    assert(pre.push(post.last()).remove(pre.len() as int) =~= pre);
    reveal(Seq::filter);
    assert(post.drop_last() == pre);
}

proof fn lemma_sweep_idempotent(rows: Seq<SessionRecord>, now: int)
    ensures
        after_sweep(after_sweep(rows, now), now) == after_sweep(rows, now),
    decreases rows.len(),
{
    reveal(Seq::filter);
    if rows.len() > 0 {
        let rest = rows.drop_last();
        lemma_sweep_idempotent(rest, now);
        let f = after_sweep(rest, now);
        if !is_expired(rows.last(), now) {
            assert(f.push(rows.last()).drop_last() =~= f);
        }
    }
}

/// A sweep right after a sweep at the same instant removes nothing.
pub proof fn lemma_sweep_twice(rows: Seq<SessionRecord>, now: int)
    ensures
        after_sweep(rows, now).len() - after_sweep(after_sweep(rows, now), now).len() == 0,
{
    lemma_sweep_idempotent(rows, now);
}

impl SessionTable {
    /// The store holds at most one record for each identifier.
    pub open spec fn wf(&self) -> bool {
        ids_distinct(self@)
    }

    /// An empty store.
    pub fn new() -> (r: SessionTable)
        ensures
            r.wf(),
            r@ == Seq::<SessionRecord>::empty(),
    {
        SessionTable { rows: Vec::new() }
    }

    /// The number of records, expired ones included.
    pub fn len(&self) -> (r: usize)
        ensures
            r == self@.len(),
    {
        self.rows.len()
    }

    /// Where the record with identifier `id` stands, if there is one.
    fn find(&self, id: SessionId) -> (r: Option<usize>)
        requires
            self.wf(),
        ensures
            match r {
                Some(i) => holds(self@, id) && i == position(self@, id) && i < self@.len(),
                None => !holds(self@, id),
            },
    {
        let mut i: usize = 0;
        while i < self.rows.len()
            invariant
                self.wf(),
                i <= self.rows@.len(),
                forall|j: int| 0 <= j < i ==> self.rows@[j].id != id,
            decreases self.rows@.len() - i,
        {
            if self.rows[i].id == id {
                proof {
                    lemma_position(self@, i as int);
                }
                return Some(i);
            }
            i = i + 1;
        }
        None
    }
    /// Stores `state` under the new identifier `id`, created at `now` and
    /// expiring `ttl` later. An identifier already in use is refused.
    pub fn insert(&mut self, id: SessionId, state: &SessionState, ttl: i64, now: i64) -> (r: Result<
        SessionId,
        StoreError,
    >)
        requires
            old(self).wf(),
            ttl_fits(ttl, now),
        ensures
            final(self).wf(),
            match r {
                Ok(k) => k == id && saved(old(self)@, final(self)@, id, state@, ttl as int, now as int),
                Err(e) => e == StoreError::Storage && final(self)@ == old(self)@,
            },
            r is Err <==> holds(old(self)@, id),
    {
        if self.find(id).is_some() {
            return Err(StoreError::Storage);
        }
        let row = new_record(id, state, ttl, now);
        proof {
            lemma_push_distinct(self@, row);
        }
        self.rows.push(row);
        assert(self@.drop_last() =~= old(self)@);
        Ok(id)
    }

    /// Stores `state` under a newly generated identifier, created at `now` and
    /// expiring `ttl` later.
    pub fn save(&mut self, state: &SessionState, ttl: i64, now: i64) -> (r: Result<SessionId, StoreError>)
        requires
            old(self).wf(),
            ttl_fits(ttl, now),
        ensures
            final(self).wf(),
            match r {
                Ok(k) => saved(old(self)@, final(self)@, k, state@, ttl as int, now as int),
                Err(e) => e == StoreError::Storage && final(self)@ == old(self)@ && old(
                    self,
                )@.len() > 0,
            },
    {
        let id = SessionId::generate();
        self.insert(id, state, ttl, now)
    }

    /// Reads the session `key` at `now`. An expired record is dropped and
    /// reads as absent.
    pub fn load(&mut self, key: &str, now: i64) -> (r: Result<Option<SessionState>, StoreError>)
        requires
            old(self).wf(),
        ensures
            final(self).wf(),
            match decode_key(key@) {
                None => r == Err::<Option<SessionState>, StoreError>(StoreError::KeyDecode)
                    && final(self)@ == old(self)@,
                Some(id) => final(self)@ == after_load(old(self)@, id, now as int) && match live_data(
                    old(self)@,
                    id,
                    now as int,
                ) {
                    None => r == Ok::<Option<SessionState>, StoreError>(None),
                    Some(text) => match r {
                        Ok(Some(m)) => state_of_json(text) == Some(m@),
                        Ok(None) => false,
                        Err(e) => e == StoreError::Deserialization && state_of_json(text) is None,
                    },
                },
            },
    {
        let id = match SessionId::parse(key) {
            Ok(id) => id,
            Err(_) => {
                return Err(StoreError::KeyDecode);
            },
        };
        match self.find(id) {
            None => Ok(None),
            Some(i) => {
                let row = (self.rows[i].expires, self.rows[i].data.clone());
                match load_step(Some(row), now) {
                    LoadStep::Live(m) => Ok(Some(m)),
                    LoadStep::Undecodable => Err(StoreError::Deserialization),
                    _ => {
                        proof {
                            lemma_remove_distinct(self@, i as int);
                        }
                        self.rows.remove(i);
                        Ok(None)
                    },
                }
            },
        }
    }

    /// Replaces the data of the session `key` with `state` and sets its expiry
    /// to `ttl` after `now`. A key with no record changes nothing. The key is
    /// returned unchanged.
    pub fn update(&mut self, key: &str, state: &SessionState, ttl: i64, now: i64) -> (r: Result<
        SessionId,
        StoreError,
    >)
        requires
            old(self).wf(),
            ttl_fits(ttl, now),
        ensures
            final(self).wf(),
            match decode_key(key@) {
                None => r == Err::<SessionId, StoreError>(StoreError::KeyDecode) && final(self)@
                    == old(self)@,
                Some(id) => r == Ok::<SessionId, StoreError>(id) && rewritten(
                    old(self)@,
                    final(self)@,
                    id,
                    state@,
                    now + ttl,
                ),
            },
    {
        let id = match SessionId::parse(key) {
            Ok(id) => id,
            Err(_) => {
                return Err(StoreError::KeyDecode);
            },
        };
        match self.find(id) {
            None => {},
            Some(i) => {
                let ghost pre = self@;
                let fresh = new_record(id, state, ttl, now);
                let row = SessionRecord { created: self.rows[i].created, ..fresh };
                proof {
                    lemma_update_distinct(pre, i as int, row);
                }
                self.rows.set(i, row);
            },
        }
        Ok(id)
    }

    /// Sets the expiry of the session `key` to `ttl` after `now`, leaving its
    /// data as it is. A key with no record changes nothing.
    pub fn update_ttl(&mut self, key: &str, ttl: i64, now: i64) -> (r: Result<(), StoreError>)
        requires
            old(self).wf(),
            ttl_fits(ttl, now),
        ensures
            final(self).wf(),
            match decode_key(key@) {
                None => r == Err::<(), StoreError>(StoreError::KeyDecode) && final(self)@ == old(
                    self,
                )@,
                Some(id) => r == Ok::<(), StoreError>(()) && final(self)@ == after_retime(
                    old(self)@,
                    id,
                    (now + ttl) as i64,
                ),
            },
    {
        let id = match SessionId::parse(key) {
            Ok(id) => id,
            Err(_) => {
                return Err(StoreError::KeyDecode);
            },
        };
        match self.find(id) {
            None => {},
            Some(i) => {
                let ghost pre = self@;
                let expires = now + ttl;
                self.rows[i].expires = expires;
                proof {
                    let row = SessionRecord { expires: expires, ..pre[i as int] };
                    assert(self@ =~= pre.update(i as int, row));
                    lemma_update_distinct(pre, i as int, row);
                }
            },
        }
        Ok(())
    }

    /// Removes the session `key`; a key with no record is no error.
    pub fn delete(&mut self, key: &str) -> (r: Result<(), StoreError>)
        requires
            old(self).wf(),
        ensures
            final(self).wf(),
            match decode_key(key@) {
                None => r == Err::<(), StoreError>(StoreError::KeyDecode) && final(self)@ == old(
                    self,
                )@,
                Some(id) => r == Ok::<(), StoreError>(()) && final(self)@ == after_delete(
                    old(self)@,
                    id,
                ),
            },
    {
        let id = match SessionId::parse(key) {
            Ok(id) => id,
            Err(_) => {
                return Err(StoreError::KeyDecode);
            },
        };
        match self.find(id) {
            None => {},
            Some(i) => {
                proof {
                    lemma_remove_distinct(self@, i as int);
                }
                self.rows.remove(i);
            },
        }
        Ok(())
    }
    /// Removes every record that is expired at `now` and returns how many
    /// were removed.
    pub fn clean_database(&mut self, now: i64) -> (r: usize)
        requires
            old(self).wf(),
        ensures
            final(self).wf(),
            final(self)@ == after_sweep(old(self)@, now as int),
            r == old(self)@.len() - final(self)@.len(),
    {
        let ghost orig = self@;
        let ghost mut j: int = 0;
        assert(orig.len() == self.rows.len());
        let mut i: usize = 0;
        let mut removed: usize = 0;
        assert(orig.subrange(0, 0) =~= Seq::<SessionRecord>::empty());
        assert(orig.subrange(0, orig.len() as int) =~= orig);
        while i < self.rows.len()
            invariant
                0 <= j <= orig.len(),
                self.rows@ == after_sweep(orig.subrange(0, j), now as int) + orig.subrange(
                    j,
                    orig.len() as int,
                ),
                i == after_sweep(orig.subrange(0, j), now as int).len(),
                removed == j - i,
                ids_distinct(self.rows@),
                orig.subrange(0, orig.len() as int) == orig,
                orig.len() <= usize::MAX,
            decreases self.rows@.len() - i,
        {
            let ghost kept = after_sweep(orig.subrange(0, j), now as int);
            proof {
                lemma_sweep_step(orig, j, now as int);
                assert(self.rows@[i as int] == orig[j]);
            }
            if expired_at(self.rows[i].expires, now) {
                proof {
                    lemma_remove_distinct(self.rows@, i as int);
                }
                self.rows.remove(i);
                removed = removed + 1;
                assert(self.rows@ =~= kept + orig.subrange(j + 1, orig.len() as int));
            } else {
                i = i + 1;
                assert(self.rows@ =~= kept.push(orig[j]) + orig.subrange(j + 1, orig.len() as int));
            }
            proof {
                j = j + 1;
            }
        }
        proof {
            assert(j == orig.len());
            assert(self.rows@ =~= after_sweep(orig, now as int));
        }
        removed
    }
}

} // verus!
