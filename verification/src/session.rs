//! The unlock session: the master key is kept while the user is active and
//! dropped, zeroised, after five minutes without activity or on lock. Time
//! is given in milliseconds of a monotonic clock.

use vstd::prelude::*;
use crate::crypto::zeroize_bytes;
use crate::error::AppError;
use crate::model::AppSnapshot;
use crate::store::Store;

verus! {

/// How long a session may stay idle, in milliseconds (five minutes).
pub const SESSION_IDLE_TIMEOUT_MS: u64 = 300_000;

/// The cached master key and when it was last used.
pub struct SessionCache {
    pub key: Option<Vec<u8>>,
    pub last_activity: Option<u64>,
}

pub struct SessionV {
    pub key: Option<Seq<u8>>,
    pub last_activity: Option<u64>,
}

impl View for SessionCache {
    type V = SessionV;

    open spec fn view(&self) -> SessionV {
        SessionV {
            key: match self.key {
                Some(k) => Some(k@),
                None => None,
            },
            last_activity: self.last_activity,
        }
    }
}

impl SessionV {
    /// The session has been idle for the whole timeout at `now`.
    pub open spec fn idle_at(self, now: u64) -> bool {
        match self.last_activity {
            Some(t) => now >= t + SESSION_IDLE_TIMEOUT_MS,
            None => false,
        }
    }

    /// The session with nothing cached.
    pub open spec fn cleared() -> SessionV {
        SessionV { key: None, last_activity: None }
    }

    /// The session at `now`: cleared when idle, else unchanged.
    pub open spec fn expired_at(self, now: u64) -> SessionV {
        if self.idle_at(now) { SessionV::cleared() } else { self }
    }
}

impl SessionCache {
    /// A session with no key.
    pub fn new() -> (s: SessionCache)
        ensures
            s@ == SessionV::cleared(),
    {
        SessionCache { key: None, last_activity: None }
    }

    /// Drops the key, overwriting it first, and the activity time.
    pub fn clear_locked(&mut self)
        ensures
            final(self)@ == SessionV::cleared(),
    {
        match &mut self.key {
            Some(k) => zeroize_bytes(k),
            None => {},
        }
        self.key = None;
        self.last_activity = None;
    }

    /// Clears the session if it has been idle for the timeout; says whether
    /// it did.
    pub fn expire_if_idle(&mut self, now: u64) -> (expired: bool)
        ensures
            expired == old(self)@.idle_at(now),
            final(self)@ == old(self)@.expired_at(now),
    {
        let expired = match self.last_activity {
            Some(t) => t <= now && now - t >= SESSION_IDLE_TIMEOUT_MS,
            None => false,
        };
        if expired {
            self.clear_locked();
        }
        expired
    }

    /// Whether a key is cached, once an idle session has expired.
    pub fn is_unlocked(&mut self, now: u64) -> (res: bool)
        ensures
            final(self)@ == old(self)@.expired_at(now),
            res == (final(self)@.key is Some),
    {
        self.expire_if_idle(now);
        self.key.is_some()
    }

    /// Caches the key; the session is active as of `now`.
    pub fn store_key(&mut self, key: Vec<u8>, now: u64)
        ensures
            final(self)@ == (SessionV { key: Some(key@), last_activity: Some(now) }),
    {
        self.key = Some(key);
        self.last_activity = Some(now);
    }

    /// A copy of the cached key, once an idle session has expired.
    pub fn cloned_key(&mut self, now: u64) -> (res: Option<Vec<u8>>)
        ensures
            final(self)@ == old(self)@.expired_at(now),
            match res {
                Some(k) => final(self)@.key == Some(k@),
                None => final(self)@.key is None,
            },
    {
        self.expire_if_idle(now);
        match &self.key {
            Some(k) => {
                let c = k.clone();
                assert(c@ =~= k@);
                Some(c)
            },
            None => None,
        }
    }

    /// Marks activity at `now` when a key is cached; says whether one is.
    pub fn touch(&mut self, now: u64) -> (res: bool)
        ensures
            res == (old(self)@.key is Some),
            final(self)@ == if res { SessionV { last_activity: Some(now), ..old(self)@ } } else { old(self)@ },
    {
        if self.key.is_some() {
            self.last_activity = Some(now);
            true
        } else {
            false
        }
    }

    /// Locks the session.
    pub fn lock(&mut self)
        ensures
            final(self)@ == SessionV::cleared(),
    {
        self.clear_locked();
    }
}

/// The app's runtime state around the store: the unlock session.
pub struct AppRuntime {
    pub session: SessionCache,
}

impl AppRuntime {
    pub fn new() -> (r: AppRuntime)
        ensures
            r.session@ == SessionV::cleared(),
    {
        AppRuntime { session: SessionCache::new() }
    }

    /// The snapshot to show: with entries while unlocked (which counts as
    /// activity), else locked.
    pub fn snapshot(&mut self, store: &Store, now: u64) -> (res: AppSnapshot)
        ensures
            old(self).session@.expired_at(now).key is Some ==> {
                &&& final(self).session@ == (SessionV { last_activity: Some(now), ..old(self).session@.expired_at(now) })
                &&& res@ == store@.snapshot(false)
            },
            old(self).session@.expired_at(now).key is None ==> {
                &&& final(self).session@ == old(self).session@.expired_at(now)
                &&& res@ == store@.snapshot(true)
            },
    {
        if self.session.is_unlocked(now) {
            self.session.touch(now);
            store.load_snapshot()
        } else {
            store.load_locked_snapshot()
        }
    }

    /// Whether the session is unlocked; if so it counts as activity.
    pub fn ensure_unlocked(&mut self, now: u64) -> (res: bool)
        ensures
            res == (old(self).session@.expired_at(now).key is Some),
            res ==> final(self).session@ == (SessionV { last_activity: Some(now), ..old(self).session@.expired_at(now) }),
            !res ==> final(self).session@ == old(self).session@.expired_at(now),
    {
        if self.session.is_unlocked(now) {
            self.session.touch(now);
            true
        } else {
            false
        }
    }

    /// Locks the session.
    pub fn lock(&mut self)
        ensures
            final(self).session@ == SessionV::cleared(),
    {
        self.session.lock();
    }

    /// The key for an operation that needs the app unlocked; a locked app
    /// refuses with [`AppError::Locked`].
    pub fn unlocked_key(&mut self, now: u64) -> (res: Result<Vec<u8>, AppError>)
        ensures
            match res {
                Ok(k) => old(self).session@.expired_at(now).key == Some(k@)
                    && final(self).session@ == (SessionV { last_activity: Some(now), ..old(self).session@.expired_at(now) }),
                Err(e) => old(self).session@.expired_at(now).key is None && e is Locked
                    && final(self).session@ == old(self).session@.expired_at(now),
            },
    {
        match self.session.cloned_key(now) {
            Some(k) => {
                self.session.touch(now);
                Ok(k)
            },
            None => Err(AppError::Locked),
        }
    }

    /// Refreshes the session's activity: says whether it is still unlocked.
    pub fn refresh_activity(&mut self, now: u64) -> (res: bool)
        ensures
            res == (old(self).session@.expired_at(now).key is Some),
            res ==> final(self).session@ == (SessionV { last_activity: Some(now), ..old(self).session@.expired_at(now) }),
            !res ==> final(self).session@ == old(self).session@.expired_at(now),
    {
        self.session.expire_if_idle(now);
        self.session.touch(now)
    }
}

/// A session that was just locked is not unlocked, at any time.
pub proof fn lemma_locked_session_stays_locked(now: u64)
    ensures
        SessionV::cleared().expired_at(now).key is None,
        !SessionV::cleared().idle_at(now),
{
}

/// A key stored at `t` is still there at any `now` before the timeout runs out.
pub proof fn lemma_stored_key_kept(key: Seq<u8>, t: u64, now: u64)
    requires
        now < t + SESSION_IDLE_TIMEOUT_MS,
    ensures
        (SessionV { key: Some(key), last_activity: Some(t) }).expired_at(now).key == Some(key),
{
}

/// A session idle for the whole timeout holds no key.
pub proof fn lemma_idle_session_expires(s: SessionV, now: u64)
    requires
        s.idle_at(now),
    ensures
        s.expired_at(now).key is None,
{
}

} // verus!
