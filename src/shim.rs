//! The migration shim: one store over the durable store and a legacy one.
//!
//! A key that parses as an identifier of the durable store is served by it.
//! Any other key belongs to the legacy store, whose answers the caller reads
//! and hands in. Sessions are never created in the legacy store: an update
//! of a legacy session that exists writes the new data as a fresh record of
//! the durable store and returns its key.
use crate::key::{decode_key, key_text, lemma_parse_round_trip, SessionId};
use crate::state::SessionState;
use crate::table::{
    after_delete, after_load, after_retime, ids_distinct, live_data, rewritten, saved,
    stored_state, ttl_fits, SessionRecord, SessionTable, StoreError,
};
use vstd::prelude::*;

verus! {

/// The store that a key belongs to.
#[derive(Clone, Copy, Debug, PartialEq, Eq, Structural)]
pub enum Route {
    /// The durable store, with the identifier that the key stands for.
    Primary(SessionId),
    /// The legacy store.
    Legacy,
}

/// The store that `key` belongs to.
pub fn route(key: &str) -> (r: Route)
    ensures
        r == (match decode_key(key@) {
            Some(id) => Route::Primary(id),
            None => Route::Legacy,
        }),
{
    match SessionId::parse(key) {
        Ok(id) => Route::Primary(id),
        Err(_) => Route::Legacy,
    }
}

/// What an update of a session through the shim comes to.
#[derive(Clone, Copy, Debug, PartialEq, Eq, Structural)]
pub enum UpdateStep {
    /// Update the durable record with this identifier in place.
    Primary(SessionId),
    /// Write the new data as a fresh durable record: the legacy session exists.
    Migrate,
    /// Fail: the legacy session does not exist, and none is fabricated.
    Reject,
}

/// Decides an update of `key`; `legacy_found` tells whether the legacy store
/// holds a record for it, and matters only for a key of the legacy store.
pub fn update_step(key: &str, legacy_found: bool) -> (r: UpdateStep)
    ensures
        r == (match decode_key(key@) {
            Some(id) => UpdateStep::Primary(id),
            None => if legacy_found {
                UpdateStep::Migrate
            } else {
                UpdateStep::Reject
            },
        }),
{
    match route(key) {
        Route::Primary(id) => UpdateStep::Primary(id),
        Route::Legacy => {
            if legacy_found {
                UpdateStep::Migrate
            } else {
                UpdateStep::Reject
            }
        },
    }
}

/// The durable records after a deletion of `key` through the shim.
pub open spec fn routed_delete(rows: Seq<SessionRecord>, key: Seq<char>) -> Seq<SessionRecord> {
    match decode_key(key) {
        Some(id) => after_delete(rows, id),
        None => rows,
    }
}

/// The durable records after the expiry of `key` is set to `expires` through
/// the shim.
pub open spec fn routed_retime(rows: Seq<SessionRecord>, key: Seq<char>, expires: i64) -> Seq<
    SessionRecord,
> {
    match decode_key(key) {
        Some(id) => after_retime(rows, id, expires),
        None => rows,
    }
}

/// An update that moves a legacy session hands out a key of the durable
/// store other than the legacy one, from which the new data reads back until
/// its time to live runs out; retiming or deleting the legacy key afterwards
/// leaves the durable records as they are.
pub proof fn lemma_migration_gate(
    pre: Seq<SessionRecord>,
    post: Seq<SessionRecord>,
    old_key: Seq<char>,
    new_id: SessionId,
    state: Map<String, String>,
    ttl: int,
    now: int,
    later: int,
    expires: i64,
)
    requires
        ids_distinct(pre),
        decode_key(old_key) is None,
        saved(pre, post, new_id, state, ttl, now),
        later <= now + ttl,
    ensures
        key_text(new_id) != old_key,
        decode_key(key_text(new_id)) == Some(new_id),
        stored_state(post, new_id, later) == Some(state),
        routed_retime(post, old_key, expires) == post,
        routed_delete(post, old_key) == post,
{
    lemma_parse_round_trip(new_id);
    crate::table::lemma_round_trip(pre, post, new_id, state, ttl, now, later);
}

/// A store that serves durable keys itself and moves legacy sessions into
/// the durable store on their first update.
pub struct MigrationShim {
    primary: SessionTable,
}

impl View for MigrationShim {
    type V = Seq<SessionRecord>;

    /// The records of the durable store.
    closed spec fn view(&self) -> Seq<SessionRecord> {
        self.primary@
    }
}

impl MigrationShim {
    pub open spec fn wf(&self) -> bool {
        ids_distinct(self@)
    }

    /// A shim over the durable store `primary`.
    pub fn new(primary: SessionTable) -> (r: MigrationShim)
        requires
            primary.wf(),
        ensures
            r.wf(),
            r@ == primary@,
    {
        MigrationShim { primary }
    }

    /// The durable store.
    pub fn primary(&self) -> (r: &SessionTable)
        ensures
            r@ == self@,
    {
        &self.primary
    }

    /// Reads the session `key` at `now`. `legacy` is what the legacy store
    /// read for `key`; it is the answer for a key of the legacy store.
    pub fn load(&mut self, key: &str, now: i64, legacy: Option<SessionState>) -> (r: Result<
        Option<SessionState>,
        StoreError,
    >)
        requires
            old(self).wf(),
        ensures
            final(self).wf(),
            match decode_key(key@) {
                None => r == Ok::<Option<SessionState>, StoreError>(legacy) && final(self)@ == old(
                    self,
                )@,
                Some(id) => final(self)@ == after_load(old(self)@, id, now as int) && match live_data(
                    old(self)@,
                    id,
                    now as int,
                ) {
                    None => r == Ok::<Option<SessionState>, StoreError>(None),
                    Some(text) => match r {
                        Ok(Some(m)) => crate::state::state_of_json(text) == Some(m@),
                        Ok(None) => false,
                        Err(e) => e == StoreError::Deserialization
                            && crate::state::state_of_json(text) is None,
                    },
                },
            },
    {
        match route(key) {
            Route::Primary(_) => self.primary.load(key, now),
            Route::Legacy => Ok(legacy),
        }
    }

    /// Stores `state` in the durable store under a new key.
    pub fn save(&mut self, state: &SessionState, ttl: i64, now: i64) -> (r: Result<SessionId, StoreError>)
        requires
            old(self).wf(),
            ttl_fits(ttl, now),
        ensures
            final(self).wf(),
            match r {
                Ok(k) => saved(old(self)@, final(self)@, k, state@, ttl as int, now as int),
                Err(e) => e == StoreError::Storage && final(self)@ == old(self)@ && old(
                    self,
                )@.len() > 0,
            },
    {
        self.primary.save(state, ttl, now)
    }

    /// Writes `state` to the session `key`, to expire `ttl` after `now`, and
    /// returns the key that the session has from now on. A durable key is
    /// updated in place. For a legacy key, `legacy_found` tells whether the
    /// legacy store holds a record for it: if not, nothing changes and the
    /// update fails; if so, the data goes to a new durable record.
    pub fn update(
        &mut self,
        key: &str,
        state: &SessionState,
        ttl: i64,
        now: i64,
        legacy_found: bool,
    ) -> (r: Result<SessionId, StoreError>)
        requires
            old(self).wf(),
            ttl_fits(ttl, now),
        ensures
            final(self).wf(),
            match decode_key(key@) {
                Some(id) => r == Ok::<SessionId, StoreError>(id) && rewritten(
                    old(self)@,
                    final(self)@,
                    id,
                    state@,
                    now + ttl,
                ),
                None => if !legacy_found {
                    r == Err::<SessionId, StoreError>(StoreError::MigrationInconsistency)
                        && final(self)@ == old(self)@
                } else {
                    match r {
                        Ok(k) => saved(old(self)@, final(self)@, k, state@, ttl as int, now as int)
                            && key_text(k) != key@,
                        Err(e) => e == StoreError::Storage && final(self)@ == old(self)@
                            && old(self)@.len() > 0,
                    }
                },
            },
    {
        match update_step(key, legacy_found) {
            UpdateStep::Primary(_) => self.primary.update(key, state, ttl, now),
            UpdateStep::Reject => Err(StoreError::MigrationInconsistency),
            UpdateStep::Migrate => {
                let r = self.primary.save(state, ttl, now);
                proof {
                    if let Ok(k) = r {
                        lemma_parse_round_trip(k);
                    }
                }
                r
            },
        }
    }

    /// Sets the expiry of the session `key` to `ttl` after `now`. For a legacy
    /// key nothing is done, and that is no error.
    pub fn update_ttl(&mut self, key: &str, ttl: i64, now: i64) -> (r: Result<(), StoreError>)
        requires
            old(self).wf(),
            ttl_fits(ttl, now),
        ensures
            final(self).wf(),
            r == Ok::<(), StoreError>(()),
            final(self)@ == routed_retime(old(self)@, key@, (now + ttl) as i64),
    {
        match route(key) {
            Route::Primary(_) => self.primary.update_ttl(key, ttl, now),
            Route::Legacy => Ok(()),
        }
    }

    /// Removes the session `key`. For a legacy key nothing is done, and that
    /// is no error.
    pub fn delete(&mut self, key: &str) -> (r: Result<(), StoreError>)
        requires
            old(self).wf(),
        ensures
            final(self).wf(),
            r == Ok::<(), StoreError>(()),
            final(self)@ == routed_delete(old(self)@, key@),
    {
        match route(key) {
            Route::Primary(_) => self.primary.delete(key),
            Route::Legacy => Ok(()),
        }
    }
}

} // verus!
