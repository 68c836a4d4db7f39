//! The sessions that clients hold with a query node: creating, finding and
//! closing them, and the decisions of a graceful shutdown.

use crate::exception::{ErrorCode, ErrorKind, ErrorModel};
use crate::str_map::StrMap;
use vstd::prelude::*;

verus! {

/// The part of a node's configuration that sessions read.
pub struct Config {
    pub max_active_sessions: u64,
    pub tenant_id: String,
    pub cluster_id: String,
}

/// How far a session is from being closed.
#[derive(Clone, Copy, Debug, PartialEq, Eq, Structural)]
pub enum SessionState {
    /// Open, and free to take work.
    Active,
    /// Asked to close as soon as it is idle.
    Aborted,
    /// Asked to close at once, its running work cancelled.
    Killed,
}

/// A session: its id, the kind of client that holds it, and its state.
#[derive(Debug)]
pub struct Session {
    id: String,
    typ: String,
    state: SessionState,
}

/// A `Session` with its strings taken by their characters.
pub struct SessionModel {
    pub id: Seq<char>,
    pub typ: Seq<char>,
    pub state: SessionState,
}

impl View for Session {
    type V = SessionModel;

    closed spec fn view(&self) -> SessionModel {
        SessionModel { id: self.id@, typ: self.typ@, state: self.state }
    }
}

impl SessionModel {
    /// The session after it was asked to close when idle. A session that was
    /// killed stays killed.
    pub open spec fn kill(self) -> SessionModel {
        SessionModel {
            state: if self.state == SessionState::Killed {
                SessionState::Killed
            } else {
                SessionState::Aborted
            },
            ..self
        }
    }

    /// The session after it was asked to close at once.
    pub open spec fn force_kill(self) -> SessionModel {
        SessionModel { state: SessionState::Killed, ..self }
    }
}

impl Session {
    /// An open session.
    pub fn try_create(id: String, typ: String) -> (s: Session)
        ensures
            s@ == (SessionModel { id: id@, typ: typ@, state: SessionState::Active }),
    {
        Session { id, typ, state: SessionState::Active }
    }

    /// The session's id.
    pub fn get_id(&self) -> (id: String)
        ensures
            id@ == self@.id,
    {
        self.id.clone()
    }

    /// The kind of client that holds the session.
    pub fn get_type(&self) -> (typ: String)
        ensures
            typ@ == self@.typ,
    {
        self.typ.clone()
    }

    /// The session's state.
    pub fn get_state(&self) -> (state: SessionState)
        ensures
            state == self@.state,
    {
        self.state
    }

    /// A copy of the session.
    pub fn clone_session(&self) -> (s: Session)
        ensures
            s@ == self@,
    {
        Session { id: self.id.clone(), typ: self.typ.clone(), state: self.state }
    }

    /// The session, asked to close when idle.
    pub fn kill(&self) -> (s: Session)
        ensures
            s@ == self@.kill(),
    {
        let state = match self.state {
            SessionState::Killed => SessionState::Killed,
            _ => SessionState::Aborted,
        };
        Session { id: self.id.clone(), typ: self.typ.clone(), state }
    }

    /// The session, asked to close at once.
    pub fn force_kill_session(&self) -> (s: Session)
        ensures
            s@ == self@.force_kill(),
    {
        Session { id: self.id.clone(), typ: self.typ.clone(), state: SessionState::Killed }
    }
}

/// The lower-case hexadecimal digits.
pub open spec fn is_lower_hex(c: char) -> bool {
    ('0' <= c && c <= '9') || ('a' <= c && c <= 'f')
}

/// The text of a UUID in its hyphenated form: 36 characters, a hyphen at
/// the positions 8, 13, 18 and 23, a lower-case hexadecimal digit at every
/// other.
pub open spec fn is_hyphenated_uuid(s: Seq<char>) -> bool {
    &&& s.len() == 36
    &&& forall|i: int|
        0 <= i < 36 ==> if i == 8 || i == 13 || i == 18 || i == 23 {
            #[trigger] s[i] == '-'
        } else {
            is_lower_hex(s[i])
        }
}

/// The text of a random UUID: the hyphenated form, with the version 4 in
/// the first digit of the third group, and the variant of RFC 4122 in the
/// first digit of the fourth, which is then one of 8, 9, a and b.
pub open spec fn is_random_uuid(s: Seq<char>) -> bool {
    &&& is_hyphenated_uuid(s)
    &&& s[14] == '4'
    &&& s[19] == '8' || s[19] == '9' || s[19] == 'a' || s[19] == 'b'
}

/// A fresh id for a session. Calls `uuid::Uuid::new_v4`, which draws 16
/// random bytes from the operating system and sets the version and the
/// variant in them, and writes the UUID with its `to_string`, which gives
/// the hyphenated lower-case form. Which id comes out is not stated, only
/// its shape. `new_v4` panics if the operating system gives no random
/// bytes.
#[verifier::external_body]
fn new_session_id() -> (id: String)
    ensures
        is_random_uuid(id@),
{
    uuid::Uuid::new_v4().to_string()
}

/// The sessions of a node, by id, and the most that may be open at once.
pub struct SessionManager {
    conf: Config,
    max_sessions: usize,
    active_sessions: StrMap<Session>,
}

/// What a `SessionManager` holds.
pub struct SessionManagerModel {
    pub max_sessions: nat,
    pub sessions: Map<Seq<char>, SessionModel>,
}

/// What a step of a graceful shutdown found, and what is to be done next.
#[derive(Clone, Copy, Debug, PartialEq, Eq, Structural)]
pub enum ShutdownStep {
    /// No session is left: the shutdown is complete.
    Closed,
    /// Sessions are left and were asked to close: wait one second, or until
    /// a signal arrives, and step again with the seconds that remain.
    Wait { remaining: i32 },
    /// The time is up or a signal arrived: the sessions that were left have
    /// been killed.
    Forced,
}

/// The message of the error for a session beyond the limit.
pub open spec fn spec_too_many_message() -> Seq<char> {
    "The current accept connection has exceeded mysql_handler_thread_num config"@
}

/// The message of the error for a new session on a node that shuts down.
pub open spec fn spec_aborting_message() -> Seq<char> {
    "Aborting server."@
}

/// The kind of the sessions that other nodes open.
pub open spec fn spec_rpc_session_type() -> Seq<char> {
    "RPCSession"@
}

impl View for SessionManager {
    type V = SessionManagerModel;

    closed spec fn view(&self) -> SessionManagerModel {
        SessionManagerModel {
            max_sessions: self.max_sessions as nat,
            sessions: self.active_sessions@.map_values(|s: Session| s@),
        }
    }
}

impl SessionManager {
    /// Every session is held under its own id.
    pub closed spec fn wf(&self) -> bool {
        &&& self.active_sessions.wf()
        &&& forall|k: Seq<char>| #[trigger]
            self.active_sessions@.contains_key(k) ==> self.active_sessions@[k]@.id == k
    }

    /// In a well-formed manager the sessions are finitely many and each is
    /// held under its own id.
    pub proof fn lemma_wf(&self)
        requires
            self.wf(),
        ensures
            self@.sessions.dom().finite(),
            forall|k: Seq<char>| #[trigger]
                self@.sessions.contains_key(k) ==> self@.sessions[k].id == k,
    {
        self.active_sessions.lemma_entries();
        assert(self@.sessions.dom() =~= self.active_sessions@.dom());
    }

    /// A manager without sessions, with the limit that the configuration gives.
    pub fn from_conf(conf: Config) -> (m: SessionManager)
        ensures
            m.wf(),
            m@.sessions == Map::<Seq<char>, SessionModel>::empty(),
            m@.max_sessions == (conf.max_active_sessions as usize) as nat,
            m.conf() == conf,
    {
        let max_active_sessions = conf.max_active_sessions as usize;
        let m = SessionManager {
            conf,
            max_sessions: max_active_sessions,
            active_sessions: StrMap::new(),
        };
        proof {
            assert(m@.sessions =~= Map::<Seq<char>, SessionModel>::empty());
        }
        m
    }

    /// The configuration that the manager was made from.
    pub closed spec fn conf(&self) -> Config {
        self.conf
    }

    /// The configuration that the manager was made from.
    pub fn get_conf(&self) -> (c: &Config)
        ensures
            *c == self.conf(),
    {
        &self.conf
    }

    /// The number of open sessions.
    pub fn session_count(&self) -> (n: usize)
        requires
            self.wf(),
        ensures
            n == self@.sessions.len(),
    {
        proof {
            self.active_sessions.lemma_entries();
            assert(self@.sessions.dom() =~= self.active_sessions@.dom());
        }
        self.active_sessions.len()
    }

    /// Opens a session under the given id for a client of the given kind,
    /// unless the number of open sessions is exactly the limit. A session
    /// that was open under the same id is replaced.
    pub fn create_session_with_id(&mut self, id: String, typ: String) -> (r: Result<
        Session,
        ErrorCode,
    >)
        requires
            old(self).wf(),
        ensures
            final(self).wf(),
            final(self)@.max_sessions == old(self)@.max_sessions,
            final(self).conf() == old(self).conf(),
            match r {
                Ok(session) => {
                    &&& old(self)@.sessions.len() != old(self)@.max_sessions
                    &&& session@ == (SessionModel { id: id@, typ: typ@, state: SessionState::Active })
                    &&& final(self)@.sessions == old(self)@.sessions.insert(id@, session@)
                },
                Err(e) => {
                    &&& old(self)@.sessions.len() == old(self)@.max_sessions
                    &&& final(self)@ == old(self)@
                    &&& e@ == (ErrorModel {
                        kind: ErrorKind::TooManyUserConnections,
                        message: spec_too_many_message(),
                    })
                },
            },
    {
        if self.session_count() == self.max_sessions {
            return Err(
                ErrorCode::too_many_user_connections(
                    String::from_str(
                        "The current accept connection has exceeded mysql_handler_thread_num config",
                    ),
                ),
            );
        }
        let session = Session::try_create(id, typ);
        let handle = session.clone_session();
        let key = session.get_id();
        self.active_sessions.insert(key, session);
        proof {
            assert(final(self)@.sessions =~= old(self)@.sessions.insert(id@, handle@));
        }
        Ok(handle)
    }

    /// Opens a session under a fresh id for a client of the given kind,
    /// unless the number of open sessions is exactly the limit.
    pub fn create_session(&mut self, typ: String) -> (r: Result<Session, ErrorCode>)
        requires
            old(self).wf(),
        ensures
            final(self).wf(),
            final(self)@.max_sessions == old(self)@.max_sessions,
            final(self).conf() == old(self).conf(),
            match r {
                Ok(session) => {
                    &&& old(self)@.sessions.len() != old(self)@.max_sessions
                    &&& is_random_uuid(session@.id)
                    &&& session@.typ == typ@
                    &&& session@.state == SessionState::Active
                    &&& final(self)@.sessions == old(self)@.sessions.insert(
                        session@.id,
                        session@,
                    )
                },
                Err(e) => {
                    &&& old(self)@.sessions.len() == old(self)@.max_sessions
                    &&& final(self)@ == old(self)@
                    &&& e@ == (ErrorModel {
                        kind: ErrorKind::TooManyUserConnections,
                        message: spec_too_many_message(),
                    })
                },
            },
    {
        let id = new_session_id();
        self.create_session_with_id(id, typ)
    }

    /// The session that another node holds under the given id: the open one
    /// if there is one, else a new one, unless the node is shutting down.
    pub fn create_rpc_session(&mut self, id: String, aborted: bool) -> (r: Result<
        Session,
        ErrorCode,
    >)
        requires
            old(self).wf(),
        ensures
            final(self).wf(),
            final(self)@.max_sessions == old(self)@.max_sessions,
            final(self).conf() == old(self).conf(),
            match r {
                Ok(session) => if old(self)@.sessions.contains_key(id@) {
                    &&& session@ == old(self)@.sessions[id@]
                    &&& final(self)@ == old(self)@
                } else {
                    &&& !aborted
                    &&& session@ == (SessionModel {
                        id: id@,
                        typ: spec_rpc_session_type(),
                        state: SessionState::Active,
                    })
                    &&& final(self)@.sessions == old(self)@.sessions.insert(id@, session@)
                },
                Err(e) => {
                    &&& !old(self)@.sessions.contains_key(id@)
                    &&& aborted
                    &&& final(self)@ == old(self)@
                    &&& e@ == (ErrorModel {
                        kind: ErrorKind::AbortedSession,
                        message: spec_aborting_message(),
                    })
                },
            },
    {
        match self.active_sessions.get(&id) {
            Some(session) => {
                return Ok(session.clone_session());
            },
            None => {},
        }
        if aborted {
            return Err(ErrorCode::aborted_session(String::from_str("Aborting server.")));
        }
        let session = Session::try_create(id, String::from_str("RPCSession"));
        let handle = session.clone_session();
        let key = session.get_id();
        self.active_sessions.insert(key, session);
        proof {
            assert(final(self)@.sessions =~= old(self)@.sessions.insert(id@, handle@));
        }
        Ok(handle)
    }

    /// The session that is open under the given id, if there is one.
    pub fn get_session(&self, id: &String) -> (r: Option<Session>)
        requires
            self.wf(),
        ensures
            match r {
                Some(session) => self@.sessions.contains_key(id@) && session@
                    == self@.sessions[id@],
                None => !self@.sessions.contains_key(id@),
            },
    {
        match self.active_sessions.get(id) {
            Some(session) => Some(session.clone_session()),
            None => None,
        }
    }

    /// Closes the session that is open under the given id, if there is one.
    pub fn destroy_session(&mut self, session_id: &String)
        requires
            old(self).wf(),
        ensures
            final(self).wf(),
            final(self)@.max_sessions == old(self)@.max_sessions,
            final(self).conf() == old(self).conf(),
            final(self)@.sessions == old(self)@.sessions.remove(session_id@),
    {
        self.active_sessions.remove(session_id);
        proof {
            assert(final(self)@.sessions =~= old(self)@.sessions.remove(session_id@));
        }
    }

    /// Asks every session to close when idle, or at once if `force` is set.
    fn kill_all(&mut self, force: bool)
        requires
            old(self).wf(),
        ensures
            final(self).wf(),
            final(self)@.max_sessions == old(self)@.max_sessions,
            final(self).conf() == old(self).conf(),
            final(self)@.sessions == old(self)@.sessions.map_values(
                |s: SessionModel|
                    if force {
                        s.force_kill()
                    } else {
                        s.kill()
                    },
            ),
    {
        let n = self.active_sessions.len();
        let ghost before = self.active_sessions;
        let mut i: usize = 0;
        proof {
            before.lemma_entries();
        }
        while i < n
            invariant
                0 <= i <= n,
                before.wf(),
                self.active_sessions.wf(),
                n == before.keys().len(),
                self.active_sessions.keys() == before.keys(),
                self.max_sessions == old(self).max_sessions,
                self.conf == old(self).conf,
                forall|j: int|
                    0 <= j < n ==> #[trigger] self.active_sessions.value_at(j)@ == if j < i {
                        if force {
                            before.value_at(j)@.force_kill()
                        } else {
                            before.value_at(j)@.kill()
                        }
                    } else {
                        before.value_at(j)@
                    },
                forall|j: int| 0 <= j < n ==> #[trigger] before.value_at(j)@.id == before.keys()[j],
            decreases n - i,
        {
            proof {
                self.active_sessions.lemma_entries();
            }
            let key = self.active_sessions.key(i).clone();
            let session = self.active_sessions.value(i);
            let changed = if force {
                session.force_kill_session()
            } else {
                session.kill()
            };
            self.active_sessions.insert(key, changed);
            proof {
                assert forall|j: int| 0 <= j < n && j != i implies before.keys()[j] != key@ by {}
            }
            i += 1;
        }
        proof {
            self.active_sessions.lemma_entries();
            let f = |s: SessionModel|
                if force {
                    s.force_kill()
                } else {
                    s.kill()
                };
            assert(self.active_sessions@.dom() =~= before@.dom());
            assert forall|k: Seq<char>| #[trigger] self@.sessions.contains_key(k) implies self@.sessions[k]
                == old(self)@.sessions.map_values(f)[k] by {
                let j = choose|j: int| 0 <= j < n && before.keys()[j] == k;
                assert(self.active_sessions@[self.active_sessions.keys()[j]]
                    == self.active_sessions.value_at(j));
                assert(before@[before.keys()[j]] == before.value_at(j));
            }
            assert(self@.sessions =~= old(self)@.sessions.map_values(f));
            assert forall|k: Seq<char>| #[trigger]
                self.active_sessions@.contains_key(k) implies self.active_sessions@[k]@.id == k by {
                let j = choose|j: int| 0 <= j < n && before.keys()[j] == k;
                assert(self.active_sessions@[self.active_sessions.keys()[j]]
                    == self.active_sessions.value_at(j));
            }
        }
    }

    /// Asks every session to close when idle, and says whether none is open.
    pub fn destroy_idle_sessions(&mut self) -> (none_left: bool)
        requires
            old(self).wf(),
        ensures
            final(self).wf(),
            final(self)@.max_sessions == old(self)@.max_sessions,
            final(self).conf() == old(self).conf(),
            final(self)@.sessions == old(self)@.sessions.map_values(|s: SessionModel| s.kill()),
            none_left == (old(self)@.sessions.len() == 0),
    {
        let active_sessions = self.session_count();
        self.kill_all(false);
        proof {
            assert(final(self)@.sessions =~= old(self)@.sessions.map_values(
                |s: SessionModel| s.kill(),
            ));
        }
        active_sessions == 0
    }

    /// One step of a graceful shutdown, with `remaining` seconds left to
    /// wait and `signalled` set once a signal to stop waiting has arrived.
    /// While time is left and no signal has arrived, the sessions are asked
    /// to close when idle; the shutdown is complete if none was open, and
    /// otherwise goes on after a wait of one second. Once the time is up or
    /// a signal has arrived, the sessions are killed.
    pub fn graceful_shutdown(&mut self, remaining: i32, signalled: bool) -> (step: ShutdownStep)
        requires
            old(self).wf(),
        ensures
            final(self).wf(),
            final(self)@.max_sessions == old(self)@.max_sessions,
            final(self).conf() == old(self).conf(),
            signalled || remaining <= 0 ==> step == ShutdownStep::Forced && final(self)@.sessions
                == old(self)@.sessions.map_values(|s: SessionModel| s.force_kill()),
            !signalled && remaining > 0 ==> final(self)@.sessions == old(self)@.sessions.map_values(
                |s: SessionModel| s.kill(),
            ) && step == if old(self)@.sessions.len() == 0 {
                ShutdownStep::Closed
            } else {
                ShutdownStep::Wait { remaining: (remaining - 1) as i32 }
            },
    {
        if signalled || remaining <= 0 {
            self.kill_all(true);
            proof {
                assert(final(self)@.sessions =~= old(self)@.sessions.map_values(
                    |s: SessionModel| s.force_kill(),
                ));
            }
            return ShutdownStep::Forced;
        }
        if self.destroy_idle_sessions() {
            ShutdownStep::Closed
        } else {
            ShutdownStep::Wait { remaining: remaining - 1 }
        }
    }
}

} // verus!
