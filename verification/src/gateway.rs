//! The external boundary: one type that owns the rate limiter, the
//! credential store, the token service key, the session registry and
//! the access evaluator, and composes them into `login`, `authorize`
//! and `logout`. Every internal failure leaves as the single generic
//! `Unauthorized`, so a caller cannot probe which check failed; the
//! detailed taxonomy stays inside the library for auditing.

use vstd::prelude::*;

use crate::access::permitted;
use crate::access::AccessControl;
use crate::credentials::auth_next;
use crate::credentials::auth_result;
use crate::credentials::AuthDB;
use crate::ratelimit::entry_or_fresh;
use crate::ratelimit::rl_step;
use crate::ratelimit::RateLimiter;
use crate::session::session_outcome;
use crate::session::valid_session_token;
use crate::session::SessionStore;
use crate::session::SESSION_LIFETIME_SECONDS;
use crate::token::plain_subject;

verus! {

use vstd::string::StringSliceAdditionalSpecFns;

/// The one failure a caller at the boundary sees.
#[derive(Clone, Copy, PartialEq, Eq, Structural, Debug)]
pub struct Unauthorized;

/// The assembled identity and session control core.
pub struct Gateway {
    limiter: RateLimiter,
    auth: AuthDB,
    sessions: SessionStore,
    access: AccessControl,
}

impl Gateway {
    /// The rate-limit table.
    pub closed spec fn limits(&self) -> Map<Seq<char>, crate::ratelimit::ClientState> {
        self.limiter.table()
    }

    /// The identity table.
    pub closed spec fn identities(&self) -> Map<Seq<char>, crate::credentials::UserView> {
        self.auth.table()
    }

    /// The session table.
    pub closed spec fn sessions_table(&self) -> Map<Seq<char>, crate::session::SessionView> {
        self.sessions.table()
    }

    /// The role table.
    pub closed spec fn roles(&self) -> Map<Seq<char>, Vec<String>> {
        self.access.role_map()
    }

    /// The session signing key.
    pub closed spec fn spec_key(&self) -> Seq<u8> {
        self.sessions.spec_key()
    }

    /// A fresh core: empty tables, the stock roles, sessions signed
    /// with `key`.
    pub fn new(key: Vec<u8>) -> (r: Gateway)
        ensures
            r.limits() == Map::<Seq<char>, crate::ratelimit::ClientState>::empty(),
            r.identities() == Map::<Seq<char>, crate::credentials::UserView>::empty(),
            r.sessions_table() == Map::<Seq<char>, crate::session::SessionView>::empty(),
            r.spec_key() == key@,
    {
        Gateway {
            limiter: RateLimiter::new(),
            auth: AuthDB::new(),
            sessions: SessionStore::new(key),
            access: AccessControl::new(),
        }
    }

    /// Registers an identity; the boundary face of the credential
    /// store's `register`. Usernames are printable ASCII without quote
    /// or backslash, the form the token payloads embed verbatim.
    pub fn register(&mut self, username: &str, password: &str, role: &str) -> (r: Result<
        (),
        Unauthorized,
    >)
        requires
            plain_subject(username@),
            password.spec_bytes().len() < 0x1_0000_0000,
        ensures
            r is Ok <==> !old(self).identities().contains_key(username@),
            r is Ok ==> final(self).identities().contains_key(username@),
            r is Err ==> final(self).identities() == old(self).identities(),
    {
        match self.auth.register(username, password, role) {
            Ok(()) => Ok(()),
            Err(_) => Err(Unauthorized),
        }
    }

    /// A login at instant `now`: the rate limiter sees the username
    /// first, then the credential store authenticates, then a session
    /// is created from `source_ip`. Exactly the throttled, correct,
    /// unlocked logins get a session token; every failure is the
    /// generic `Unauthorized`.
    pub fn login(&mut self, username: &str, password: &str, source_ip: &str, now: u64) -> (r:
        Result<String, Unauthorized>)
        requires
            plain_subject(username@),
            plain_subject(source_ip@),
            now <= u64::MAX - SESSION_LIFETIME_SECONDS,
        ensures
            final(self).limits() == old(self).limits().insert(
                username@,
                rl_step(entry_or_fresh(old(self).limits(), username@, now), now).0,
            ),
            ({
                let allowed = rl_step(entry_or_fresh(old(self).limits(), username@, now), now).1;
                let decision = auth_result(
                    old(self).identities(),
                    username@,
                    password.spec_bytes(),
                );
                &&& (r is Ok <==> (allowed && decision is Ok))
                &&& (allowed ==> final(self).identities() == auth_next(
                    old(self).identities(),
                    username@,
                    password.spec_bytes(),
                    now,
                ))
                &&& (!allowed ==> final(self).identities() == old(self).identities())
                &&& (r matches Ok(t) ==> valid_session_token(
                    t@,
                    old(self).spec_key(),
                    username@,
                    (now + SESSION_LIFETIME_SECONDS) as u64,
                    source_ip@,
                ) && final(self).sessions_table() == old(self).sessions_table().insert(
                    t@,
                    crate::session::SessionView {
                        user: username@,
                        expiry: (now + SESSION_LIFETIME_SECONDS) as u64,
                        ip: source_ip@,
                    },
                ))
                &&& (r is Err ==> final(self).sessions_table() == old(self).sessions_table())
            }),
    {
        if !self.limiter.allow_request(username, now) {
            return Err(Unauthorized);
        }
        match self.auth.authenticate(username, password, now) {
            Ok(_) => {
                let token = self.sessions.create_session(username, source_ip, now);
                Ok(token)
            },
            Err(_) => Err(Unauthorized),
        }
    }

    /// An authenticated request at instant `now`: the rate limiter sees
    /// the source IP, the session registry validates the token against
    /// that IP, and the access evaluator decides the action for the
    /// identity's role. Exactly the throttled, live, correctly bound
    /// sessions whose role holds the permission get through.
    pub fn authorize(&mut self, session_token: &str, source_ip: &str, action: &str, now: u64) -> (r:
        Result<(), Unauthorized>)
        ensures
            final(self).limits() == old(self).limits().insert(
                source_ip@,
                rl_step(entry_or_fresh(old(self).limits(), source_ip@, now), now).0,
            ),
            final(self).identities() == old(self).identities(),
            final(self).sessions_table() == old(self).sessions_table(),
            !rl_step(entry_or_fresh(old(self).limits(), source_ip@, now), now).1 ==> r is Err,
            r is Ok ==> ({
                let sessions = old(self).sessions_table();
                &&& rl_step(entry_or_fresh(old(self).limits(), source_ip@, now), now).1
                &&& (exists|sub: Seq<char>, exp: u64, tip: Seq<char>|
                    #[trigger] valid_session_token(
                        session_token@,
                        old(self).spec_key(),
                        sub,
                        exp,
                        tip,
                    ) && now <= exp)
                &&& sessions.contains_key(session_token@)
                &&& now <= sessions[session_token@].expiry
                &&& sessions[session_token@].ip == source_ip@
                &&& old(self).identities().contains_key(sessions[session_token@].user)
                &&& permitted(
                    old(self).roles(),
                    old(self).identities()[sessions[session_token@].user].role,
                    action@,
                )
            }),
            forall|sub: Seq<char>, exp: u64, tip: Seq<char>|
                #[trigger] valid_session_token(session_token@, old(self).spec_key(), sub, exp, tip)
                    && rl_step(entry_or_fresh(old(self).limits(), source_ip@, now), now).1
                    ==> match session_outcome(
                    old(self).sessions_table(),
                    session_token@,
                    exp,
                    source_ip@,
                    now,
                ) {
                    Ok(u) => r is Ok <==> (old(self).identities().contains_key(u) && permitted(
                        old(self).roles(),
                        old(self).identities()[u].role,
                        action@,
                    )),
                    Err(e) => r is Err,
                },
    {
        if !self.limiter.allow_request(source_ip, now) {
            return Err(Unauthorized);
        }
        let user = match self.sessions.validate_session(session_token, source_ip, now) {
            Ok(u) => u,
            Err(_) => {
                return Err(Unauthorized);
            },
        };
        let role = match self.auth.lookup(user.as_str()) {
            Some(record) => record.role.as_str().to_owned(),
            None => {
                return Err(Unauthorized);
            },
        };
        if self.access.has_permission(role.as_str(), action) {
            proof {
                let sessions = old(self).sessions_table();
                assert(self.sessions.table() == sessions);
                let (sub, exp, tip) = choose|sub: Seq<char>, exp: u64, tip: Seq<char>|
                    #[trigger] valid_session_token(
                        session_token@,
                        self.sessions.spec_key(),
                        sub,
                        exp,
                        tip,
                    ) && now <= exp && self.sessions.table().contains_key(session_token@) && now
                        <= self.sessions.table()[session_token@].expiry
                        && self.sessions.table()[session_token@].ip == source_ip@ && user@
                        == self.sessions.table()[session_token@].user;
                assert(valid_session_token(session_token@, old(self).spec_key(), sub, exp, tip)
                    && now <= exp);
                assert(exists|sub: Seq<char>, exp: u64, tip: Seq<char>|
                    #[trigger] valid_session_token(
                        session_token@,
                        old(self).spec_key(),
                        sub,
                        exp,
                        tip,
                    ) && now <= exp);
                assert(sessions.contains_key(session_token@));
                assert(now <= sessions[session_token@].expiry);
                assert(sessions[session_token@].ip == source_ip@);
                assert(user@ == sessions[session_token@].user);
                assert(old(self).identities().contains_key(sessions[session_token@].user));
                assert(permitted(
                    old(self).roles(),
                    old(self).identities()[sessions[session_token@].user].role,
                    action@,
                ));
            }
            Ok(())
        } else {
            Err(Unauthorized)
        }
    }

    /// Ends the session named by `token`; idempotent.
    pub fn logout(&mut self, session_token: &str)
        ensures
            final(self).sessions_table() == old(self).sessions_table().remove(session_token@),
            final(self).identities() == old(self).identities(),
            final(self).limits() == old(self).limits(),
    {
        self.sessions.revoke_session(session_token);
    }
}

} // verus!
