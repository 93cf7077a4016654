//! The credential store: identity records with Argon2 password hashes,
//! a failed-attempt counter and a lockout policy. Registration rejects
//! duplicate usernames; authentication refuses locked accounts, counts
//! failed attempts, locks the account once the counter reaches the
//! configured maximum, and resets the counter on success.

use vstd::prelude::*;

use crate::crypto::argon2_hash;
use crate::crypto::argon2_matches;
use crate::crypto::argon2_verify;
use crate::crypto::random_bytes;
use crate::kvmap::views_of;
use crate::kvmap::lemma_views_insert;
use crate::kvmap::StrMap;
use crate::token::plain_subject;

verus! {

use vstd::string::StringSliceAdditionalSpecFns;

/// Consecutive failed attempts after which an identity is locked.
pub const MAX_FAILED_ATTEMPTS: u8 = 5;

/// Why registration or authentication failed.
#[derive(Clone, Copy, PartialEq, Eq, Structural, Debug)]
pub enum AuthError {
    /// The username is already registered.
    DuplicateIdentity,
    /// The username is unknown or the password does not verify.
    InvalidCredentials,
    /// The identity is locked after too many failed attempts.
    AccountLocked,
}

/// One identity record.
pub struct User {
    pub username: String,
    pub password_hash: String,
    pub role: String,
    pub failed_attempts: u8,
    pub last_failed_attempt: u64,
    pub is_locked: bool,
}

/// What an identity record says, with the strings as character
/// sequences.
pub struct UserView {
    pub username: Seq<char>,
    pub password_hash: Seq<char>,
    pub role: Seq<char>,
    pub failed_attempts: u8,
    pub last_failed_attempt: u64,
    pub is_locked: bool,
}

impl View for User {
    type V = UserView;

    open spec fn view(&self) -> UserView {
        UserView {
            username: self.username@,
            password_hash: self.password_hash@,
            role: self.role@,
            failed_attempts: self.failed_attempts,
            last_failed_attempt: self.last_failed_attempt,
            is_locked: self.is_locked,
        }
    }
}

/// Who a successful authentication says the caller is.
pub struct Identity {
    pub username: String,
    pub role: String,
}

/// The record after one failed attempt at instant `now`: the counter
/// grows, the failure is timestamped, and the lock flag is set once the
/// counter reaches the maximum.
pub open spec fn fail_step(u: UserView, now: u64) -> UserView {
    let bumped: u8 = if u.failed_attempts == u8::MAX {
        u.failed_attempts
    } else {
        (u.failed_attempts + 1) as u8
    };
    UserView {
        failed_attempts: bumped,
        last_failed_attempt: now,
        is_locked: u.is_locked || bumped >= MAX_FAILED_ATTEMPTS,
        ..u
    }
}

/// What `authenticate` decides on table `m`: the username and role on
/// success, the error otherwise.
pub open spec fn auth_result(
    m: Map<Seq<char>, UserView>,
    uname: Seq<char>,
    pw: Seq<u8>,
) -> Result<(Seq<char>, Seq<char>), AuthError> {
    if !m.contains_key(uname) {
        Err(AuthError::InvalidCredentials)
    } else if m[uname].is_locked {
        Err(AuthError::AccountLocked)
    } else if argon2_matches(m[uname].password_hash, pw) {
        Ok((m[uname].username, m[uname].role))
    } else {
        Err(AuthError::InvalidCredentials)
    }
}

/// The table after `authenticate`: the counter is reset on success,
/// bumped on a failed password, and untouched otherwise.
pub open spec fn auth_next(
    m: Map<Seq<char>, UserView>,
    uname: Seq<char>,
    pw: Seq<u8>,
    now: u64,
) -> Map<Seq<char>, UserView> {
    if !m.contains_key(uname) || m[uname].is_locked {
        m
    } else if argon2_matches(m[uname].password_hash, pw) {
        m.insert(uname, UserView { failed_attempts: 0, ..m[uname] })
    } else {
        m.insert(uname, fail_step(m[uname], now))
    }
}

/// The identity table.
pub struct AuthDB {
    users: StrMap<User>,
}

impl AuthDB {
    /// The identity table as a map from username to record.
    pub closed spec fn table(&self) -> Map<Seq<char>, UserView> {
        views_of(self.users@)
    }

    /// An empty identity table.
    pub fn new() -> (r: AuthDB)
        ensures
            r.table() == Map::<Seq<char>, UserView>::empty(),
    {
        let r = AuthDB { users: StrMap::new() };
        proof {
            assert(r.table() =~= Map::<Seq<char>, UserView>::empty());
        }
        r
    }

    /// Registers a new identity: the password is hashed with a fresh
    /// random 16-byte salt, the counter starts at zero and the record is
    /// unlocked. A username already present is refused untouched. The
    /// username must be printable ASCII without quote or backslash, the
    /// form the token payloads embed verbatim, so that every registered
    /// identity can later be issued a session.
    pub fn register(&mut self, username: &str, password: &str, role: &str) -> (r: Result<
        (),
        AuthError,
    >)
        requires
            plain_subject(username@),
            password.spec_bytes().len() < 0x1_0000_0000,
        ensures
            old(self).table().contains_key(username@) ==> r == Err::<(), AuthError>(
                AuthError::DuplicateIdentity,
            ) && final(self).table() == old(self).table(),
            !old(self).table().contains_key(username@) ==> {
                &&& r == Ok::<(), AuthError>(())
                &&& final(self).table().contains_key(username@)
                &&& final(self).table() == old(self).table().insert(
                    username@,
                    final(self).table()[username@],
                )
                &&& final(self).table()[username@].username == username@
                &&& final(self).table()[username@].role == role@
                &&& final(self).table()[username@].failed_attempts == 0
                &&& !final(self).table()[username@].is_locked
                &&& argon2_matches(
                    final(self).table()[username@].password_hash,
                    password.spec_bytes(),
                )
            },
    {
        if self.users.contains_key(username) {
            return Err(AuthError::DuplicateIdentity);
        }
        let salt = random_bytes(16);
        let password_hash = argon2_hash(password.as_bytes(), salt.as_slice());
        let user = User {
            username: username.to_owned(),
            password_hash,
            role: role.to_owned(),
            failed_attempts: 0,
            last_failed_attempt: 0,
            is_locked: false,
        };
        let ghost uv = user@;
        let ghost before = self.users@;
        self.users.insert(username, user);
        proof {
            lemma_views_insert(before, username@, self.users@[username@]);
            assert(self.table()[username@] == uv);
        }
        Ok(())
    }

    /// Authenticates `username` with `password` at instant `now`:
    /// exactly the decision of `auth_result`, moving the table to
    /// `auth_next`. A locked account is refused before the password is
    /// looked at; a failed password bumps the counter and locks the
    /// account once the counter reaches the maximum; success resets the
    /// counter to zero whatever it was.
    pub fn authenticate(&mut self, username: &str, password: &str, now: u64) -> (r: Result<
        Identity,
        AuthError,
    >)
        ensures
            final(self).table() == auth_next(
                old(self).table(),
                username@,
                password.spec_bytes(),
                now,
            ),
            match r {
                Ok(id) => auth_result(old(self).table(), username@, password.spec_bytes()) == Ok::<
                    (Seq<char>, Seq<char>),
                    AuthError,
                >((id.username@, id.role@)),
                Err(e) => auth_result(old(self).table(), username@, password.spec_bytes()) == Err::<
                    (Seq<char>, Seq<char>),
                    AuthError,
                >(e),
            },
    {
        let ghost m0 = old(self).table();
        let stored = match self.users.get(username) {
            Some(u) => u,
            None => {
                return Err(AuthError::InvalidCredentials);
            },
        };
        proof {
            assert(m0.contains_key(username@) && m0[username@] == stored@);
        }
        if stored.is_locked {
            return Err(AuthError::AccountLocked);
        }
        if argon2_verify(stored.password_hash.as_str(), password.as_bytes()) {
            let refreshed = User {
                username: stored.username.as_str().to_owned(),
                password_hash: stored.password_hash.as_str().to_owned(),
                role: stored.role.as_str().to_owned(),
                failed_attempts: 0,
                last_failed_attempt: stored.last_failed_attempt,
                is_locked: stored.is_locked,
            };
            let identity = Identity {
                username: stored.username.as_str().to_owned(),
                role: stored.role.as_str().to_owned(),
            };
            let ghost before = self.users@;
            self.users.insert(username, refreshed);
            proof {
                lemma_views_insert(before, username@, self.users@[username@]);
                assert(self.table() == m0.insert(
                    username@,
                    UserView { failed_attempts: 0, ..m0[username@] },
                ));
            }
            Ok(identity)
        } else {
            let bumped_count = if stored.failed_attempts == u8::MAX {
                stored.failed_attempts
            } else {
                stored.failed_attempts + 1
            };
            let bumped = User {
                username: stored.username.as_str().to_owned(),
                password_hash: stored.password_hash.as_str().to_owned(),
                role: stored.role.as_str().to_owned(),
                failed_attempts: bumped_count,
                last_failed_attempt: now,
                is_locked: stored.is_locked || bumped_count >= MAX_FAILED_ATTEMPTS,
            };
            let ghost before = self.users@;
            self.users.insert(username, bumped);
            proof {
                lemma_views_insert(before, username@, self.users@[username@]);
                assert(self.table() == m0.insert(username@, fail_step(m0[username@], now)));
            }
            Err(AuthError::InvalidCredentials)
        }
    }

    /// The stored record for `username`, if any.
    pub fn lookup(&self, username: &str) -> (r: Option<&User>)
        ensures
            match r {
                Some(u) => self.table().contains_key(username@) && u@ == self.table()[username@],
                None => !self.table().contains_key(username@),
            },
    {
        self.users.get(username)
    }
}

/// A successful authentication resets the failed-attempt counter to
/// zero, whatever its prior value was.
pub proof fn lemma_success_resets_counter(
    m: Map<Seq<char>, UserView>,
    uname: Seq<char>,
    pw: Seq<u8>,
    now: u64,
)
    requires
        auth_result(m, uname, pw) is Ok,
    ensures
        auth_next(m, uname, pw, now)[uname].failed_attempts == 0,
        auth_next(m, uname, pw, now)[uname].password_hash == m[uname].password_hash,
        auth_next(m, uname, pw, now)[uname].role == m[uname].role,
        auth_next(m, uname, pw, now)[uname].is_locked == m[uname].is_locked,
{
}

/// The table after `n` authentication attempts with the same wrong
/// password at instant `now`.
pub open spec fn auth_fail_iter(
    m: Map<Seq<char>, UserView>,
    uname: Seq<char>,
    pw: Seq<u8>,
    now: u64,
    n: nat,
) -> Map<Seq<char>, UserView>
    decreases n,
{
    if n == 0 {
        m
    } else {
        auth_next(auth_fail_iter(m, uname, pw, now, (n - 1) as nat), uname, pw, now)
    }
}

/// Lockout: starting from an unlocked record with attempts to spare,
/// attempts with a wrong password keep failing with
/// `InvalidCredentials` while the counter is below the maximum; the
/// attempt that brings the counter to the maximum locks the record; and
/// from then on every attempt, even with the correct password, fails
/// with `AccountLocked`.
pub proof fn lemma_lockout_after_max_failures(
    m: Map<Seq<char>, UserView>,
    uname: Seq<char>,
    wrong: Seq<u8>,
    now: u64,
    n: nat,
)
    requires
        m.contains_key(uname),
        !m[uname].is_locked,
        m[uname].failed_attempts < MAX_FAILED_ATTEMPTS,
        !argon2_matches(m[uname].password_hash, wrong),
        m[uname].failed_attempts + n == MAX_FAILED_ATTEMPTS,
    ensures
        forall|k: nat|
            k < n ==> !(#[trigger] auth_fail_iter(m, uname, wrong, now, k))[uname].is_locked
                && auth_result(auth_fail_iter(m, uname, wrong, now, k), uname, wrong) == Err::<
                (Seq<char>, Seq<char>),
                AuthError,
            >(AuthError::InvalidCredentials),
        auth_fail_iter(m, uname, wrong, now, n)[uname].is_locked,
        forall|pw: Seq<u8>|
            auth_result(#[trigger] auth_fail_iter(m, uname, wrong, now, n), uname, pw) == Err::<
                (Seq<char>, Seq<char>),
                AuthError,
            >(AuthError::AccountLocked),
{
    lemma_fail_iter_counts(m, uname, wrong, now, n);
    assert forall|k: nat| k < n implies !(#[trigger] auth_fail_iter(
        m,
        uname,
        wrong,
        now,
        k,
    ))[uname].is_locked && auth_result(auth_fail_iter(m, uname, wrong, now, k), uname, wrong)
        == Err::<(Seq<char>, Seq<char>), AuthError>(AuthError::InvalidCredentials) by {
        lemma_fail_iter_counts(m, uname, wrong, now, k);
    }
}

/// While `k` wrong attempts have not exhausted the allowance, the
/// record keeps its hash, the counter has grown by exactly `k`, and the
/// lock is set exactly when the counter has reached the maximum.
proof fn lemma_fail_iter_counts(
    m: Map<Seq<char>, UserView>,
    uname: Seq<char>,
    wrong: Seq<u8>,
    now: u64,
    k: nat,
)
    requires
        m.contains_key(uname),
        !m[uname].is_locked,
        m[uname].failed_attempts < MAX_FAILED_ATTEMPTS,
        !argon2_matches(m[uname].password_hash, wrong),
        m[uname].failed_attempts + k <= MAX_FAILED_ATTEMPTS,
    ensures
        auth_fail_iter(m, uname, wrong, now, k).contains_key(uname),
        auth_fail_iter(m, uname, wrong, now, k)[uname].failed_attempts == m[uname].failed_attempts
            + k,
        auth_fail_iter(m, uname, wrong, now, k)[uname].password_hash == m[uname].password_hash,
        auth_fail_iter(m, uname, wrong, now, k)[uname].is_locked <==> (k > 0
            && m[uname].failed_attempts + k >= MAX_FAILED_ATTEMPTS),
    decreases k,
{
    if k > 0 {
        lemma_fail_iter_counts(m, uname, wrong, now, (k - 1) as nat);
    }
}

} // verus!
