//! Role-permission evaluation. A role names a set of permission tokens;
//! the distinguished "ALL" token authorizes every action. An unknown
//! role holds no permissions at all, so a missing role fails closed
//! rather than raising an error. Beside the evaluator stand signed
//! permission grants: a `user:role` claim carrying a base64url
//! HMAC-SHA-256 tag, minted and checked under one key.

use vstd::prelude::*;

use crate::crypto::b64url_decode;
use crate::crypto::b64url_encode;
use crate::crypto::b64url_of;
use crate::crypto::dot_free;
use crate::crypto::hmac_sha256;
use crate::crypto::hmac_sha256_of;
use crate::crypto::hmac_sha256_verify;
use crate::kvmap::StrMap;
use crate::strutil::all_ascii;
use crate::strutil::char_bytes_of;
use crate::strutil::contains_str;
use crate::strutil::find_last_dot;
use crate::strutil::vec_contains_str;

verus! {

use vstd::string::StrSliceExecFns;
use vstd::string::StringExecFns;

/// Whether `m` grants `action` to `role`: the role must be known and
/// must hold either the catch-all token or the action itself.
pub open spec fn permitted(m: Map<Seq<char>, Vec<String>>, role: Seq<char>, action: Seq<char>) -> bool {
    m.contains_key(role) && (contains_str(m[role]@, "ALL"@) || contains_str(m[role]@, action))
}

/// Whether `m` grants `path` to `role` by exact containment, with no
/// catch-all token.
pub open spec fn route_allowed(m: Map<Seq<char>, Vec<String>>, role: Seq<char>, path: Seq<char>) -> bool {
    m.contains_key(role) && contains_str(m[role]@, path)
}

/// Maps each role to its permission tokens, and separately to the routes
/// it may reach.
pub struct AccessControl {
    roles: StrMap<Vec<String>>,
    routes: StrMap<Vec<String>>,
}

impl AccessControl {
    /// The role-to-permissions table.
    pub closed spec fn role_map(&self) -> Map<Seq<char>, Vec<String>> {
        self.roles@
    }

    /// The role-to-routes table.
    pub closed spec fn route_map(&self) -> Map<Seq<char>, Vec<String>> {
        self.routes@
    }

    /// Seeds the three stock roles: admin holds the catch-all token,
    /// user may read and write, guest may only read; admin may reach the
    /// administrative routes and user the personal ones.
    pub fn new() -> (r: AccessControl)
        ensures
            forall|action: Seq<char>| permitted(r.role_map(), "admin"@, action),
            permitted(r.role_map(), "user"@, "READ"@),
            permitted(r.role_map(), "user"@, "WRITE"@),
            permitted(r.role_map(), "guest"@, "READ"@),
            forall|action: Seq<char>|
                permitted(r.role_map(), "guest"@, action) ==> action == "READ"@,
            forall|action: Seq<char>|
                permitted(r.role_map(), "user"@, action) ==> action == "READ"@ || action
                    == "WRITE"@,
            forall|role: Seq<char>, action: Seq<char>|
                permitted(r.role_map(), role, action) ==> role == "admin"@ || role == "user"@
                    || role == "guest"@,
            route_allowed(r.route_map(), "admin"@, "/admin"@),
            route_allowed(r.route_map(), "admin"@, "/logs"@),
            route_allowed(r.route_map(), "user"@, "/profile"@),
            route_allowed(r.route_map(), "user"@, "/dashboard"@),
            forall|role: Seq<char>, path: Seq<char>|
                route_allowed(r.route_map(), role, path) ==> (role == "admin"@ && (path == "/admin"@
                    || path == "/logs"@)) || (role == "user"@ && (path == "/profile"@ || path
                    == "/dashboard"@)),
    {
        let mut roles: StrMap<Vec<String>> = StrMap::new();
        let mut admin_perms: Vec<String> = Vec::new();
        admin_perms.push("ALL".to_owned());
        let ghost ap = admin_perms@;
        roles.insert("admin", admin_perms);
        let mut user_perms: Vec<String> = Vec::new();
        user_perms.push("READ".to_owned());
        user_perms.push("WRITE".to_owned());
        let ghost up = user_perms@;
        roles.insert("user", user_perms);
        let mut guest_perms: Vec<String> = Vec::new();
        guest_perms.push("READ".to_owned());
        let ghost gp = guest_perms@;
        roles.insert("guest", guest_perms);

        let mut routes: StrMap<Vec<String>> = StrMap::new();
        let mut admin_routes: Vec<String> = Vec::new();
        admin_routes.push("/admin".to_owned());
        admin_routes.push("/logs".to_owned());
        let ghost ar = admin_routes@;
        routes.insert("admin", admin_routes);
        let mut user_routes: Vec<String> = Vec::new();
        user_routes.push("/profile".to_owned());
        user_routes.push("/dashboard".to_owned());
        let ghost ur = user_routes@;
        routes.insert("user", user_routes);

        proof {
            reveal_strlit("admin");
            reveal_strlit("user");
            reveal_strlit("guest");
            reveal_strlit("ALL");
            reveal_strlit("READ");
            reveal_strlit("WRITE");
            assert("ALL"@.len() == 3 && "READ"@.len() == 4 && "WRITE"@.len() == 5);
            assert("ALL"@ != "READ"@ && "ALL"@ != "WRITE"@);
            assert("admin"@.len() == 5 && "user"@.len() == 4 && "guest"@.len() == 5);
            assert("admin"@[0] == 'a' && "guest"@[0] == 'g');
            assert("admin"@ != "user"@ && "admin"@ != "guest"@ && "user"@ != "guest"@);
            assert(roles@["admin"@]@ == ap);
            assert(roles@["user"@]@ == up);
            assert(roles@["guest"@]@ == gp);
            assert(ap[0]@ == "ALL"@ && ap.len() == 1);
            assert(up[0]@ == "READ"@ && up[1]@ == "WRITE"@ && up.len() == 2);
            assert(gp[0]@ == "READ"@ && gp.len() == 1);
            assert(contains_str(ap, "ALL"@));
            assert(contains_str(up, "READ"@) && contains_str(up, "WRITE"@));
            assert(contains_str(gp, "READ"@));
            assert(forall|action: Seq<char>| contains_str(gp, action) ==> action == "READ"@);
            assert(forall|action: Seq<char>|
                contains_str(up, action) ==> action == "READ"@ || action == "WRITE"@);
            assert(forall|role: Seq<char>|
                roles@.contains_key(role) ==> role == "admin"@ || role == "user"@ || role
                    == "guest"@);
            assert(routes@["admin"@]@ == ar);
            assert(routes@["user"@]@ == ur);
            assert(ar[0]@ == "/admin"@ && ar[1]@ == "/logs"@ && ar.len() == 2);
            assert(ur[0]@ == "/profile"@ && ur[1]@ == "/dashboard"@ && ur.len() == 2);
            assert(contains_str(ar, "/admin"@) && contains_str(ar, "/logs"@));
            assert(contains_str(ur, "/profile"@) && contains_str(ur, "/dashboard"@));
            assert(forall|path: Seq<char>|
                contains_str(ar, path) ==> path == "/admin"@ || path == "/logs"@);
            assert(forall|path: Seq<char>|
                contains_str(ur, path) ==> path == "/profile"@ || path == "/dashboard"@);
            assert(forall|role: Seq<char>|
                routes@.contains_key(role) ==> role == "admin"@ || role == "user"@);
        }
        AccessControl { roles, routes }
    }

    /// Replaces (or introduces) a role's permission tokens; this is the
    /// administrative update, the one mutation roles admit at runtime.
    pub fn set_role(&mut self, role: &str, permissions: Vec<String>)
        ensures
            final(self).role_map() == old(self).role_map().insert(role@, permissions),
            final(self).route_map() == old(self).route_map(),
    {
        self.roles.insert(role, permissions);
    }

    /// Whether `role` may perform `action`: true exactly when the role
    /// is known and holds "ALL" or the action itself.
    pub fn has_permission(&self, role: &str, action: &str) -> (r: bool)
        ensures
            r == permitted(self.role_map(), role@, action@),
    {
        match self.roles.get(role) {
            Some(perms) => vec_contains_str(perms, "ALL") || vec_contains_str(perms, action),
            None => false,
        }
    }

    /// Whether `role` may perform `action`; the decision `has_permission`
    /// makes, under the name the external boundary uses.
    pub fn is_permitted(&self, role: &str, action: &str) -> (r: bool)
        ensures
            r == permitted(self.role_map(), role@, action@),
    {
        self.has_permission(role, action)
    }

    /// Whether `role` may reach `path`: exact containment in the route
    /// table, with no catch-all.
    pub fn is_allowed(&self, role: &str, path: &str) -> (r: bool)
        ensures
            r == route_allowed(self.route_map(), role@, path@),
    {
        match self.routes.get(role) {
            Some(paths) => vec_contains_str(paths, path),
            None => false,
        }
    }
}

/// A role holding the catch-all token is permitted every action.
pub proof fn lemma_all_token_grants_every_action(
    m: Map<Seq<char>, Vec<String>>,
    role: Seq<char>,
    action: Seq<char>,
)
    requires
        m.contains_key(role),
        contains_str(m[role]@, "ALL"@),
    ensures
        permitted(m, role, action),
{
}

/// An unknown role is permitted nothing: a missing role fails closed.
pub proof fn lemma_unknown_role_denied(
    m: Map<Seq<char>, Vec<String>>,
    role: Seq<char>,
    action: Seq<char>,
)
    requires
        !m.contains_key(role),
    ensures
        !permitted(m, role, action),
{
}

/// The signed grant over `data` under `key`: the claim in clear, a
/// dot, and the base64url HMAC-SHA-256 tag over the claim's bytes.
pub open spec fn signed_token_of(data: Seq<char>, key: Seq<u8>) -> Seq<char> {
    data + seq!['.'] + b64url_of(hmac_sha256_of(key, char_bytes_of(data)))
}

/// Whether `t` is a grant minted under `key` over the ASCII claim
/// `data`, its tag dot-free as the base64url alphabet guarantees.
pub open spec fn signed_token_ok(t: Seq<char>, key: Seq<u8>, data: Seq<char>) -> bool {
    &&& t == signed_token_of(data, key)
    &&& all_ascii(data)
    &&& dot_free(b64url_of(hmac_sha256_of(key, char_bytes_of(data))))
}

/// Mints the signed grant `user_id:role` under `key`.
pub fn generate_signed_token(user_id: &str, role: &str, key: &[u8]) -> (r: String)
    requires
        all_ascii(user_id@),
        all_ascii(role@),
    ensures
        signed_token_ok(r@, key@, user_id@ + seq![':'] + role@),
{
    let data = user_id.to_owned().concat(":").concat(role);
    proof {
        reveal_strlit(":");
        assert(":"@ =~= seq![':']);
        assert(data@ == user_id@ + seq![':'] + role@);
        assert(all_ascii(data@)) by {
            assert forall|i: int| 0 <= i < data@.len() implies #[trigger] (data@[i] as u32)
                < 128 by {
                if i < user_id@.len() {
                    assert(data@[i] == user_id@[i]);
                } else if i == user_id@.len() {
                    assert(data@[i] == ':');
                } else {
                    assert(data@[i] == role@[i - user_id@.len() - 1]);
                }
            }
        }
    }
    let nd = data.as_str().unicode_len();
    let mut payload: Vec<u8> = Vec::new();
    let mut k: usize = 0;
    while k < nd
        invariant
            k <= nd == data@.len(),
            payload@ == char_bytes_of(data@.subrange(0, k as int)),
        decreases nd - k,
    {
        let c = data.as_str().get_char(k);
        payload.push(c as u8);
        proof {
            assert(payload@ =~= char_bytes_of(data@.subrange(0, k + 1)));
        }
        k += 1;
    }
    proof {
        assert(data@.subrange(0, nd as int) =~= data@);
    }
    let tag = hmac_sha256(key, payload.as_slice());
    let sig = b64url_encode(tag.as_slice());
    let token = data.concat(".").concat(sig.as_str());
    proof {
        reveal_strlit(".");
        assert("."@ =~= seq!['.']);
    }
    token
}

/// On a token whose last dot sits at `i`, any claim the token is a
/// grant for ends exactly there.
proof fn lemma_grant_split(t: Seq<char>, key: Seq<u8>, i: int)
    requires
        0 <= i < t.len(),
        t[i] == '.',
        forall|j: int| i < j < t.len() ==> #[trigger] t[j] != '.',
    ensures
        forall|data: Seq<char>|
            #[trigger] signed_token_ok(t, key, data) ==> i == data.len() && t.subrange(0, i)
                == data && t.subrange(i + 1, t.len() as int) == b64url_of(
                hmac_sha256_of(key, char_bytes_of(data)),
            ),
{
    assert forall|data: Seq<char>| #[trigger] signed_token_ok(t, key, data) implies i == data.len()
        && t.subrange(0, i) == data && t.subrange(i + 1, t.len() as int) == b64url_of(
        hmac_sha256_of(key, char_bytes_of(data)),
    ) by {
        let b = b64url_of(hmac_sha256_of(key, char_bytes_of(data)));
        assert(t[data.len() as int] == '.');
        assert(i == data.len()) by {
            if i > data.len() {
                assert(t[i] == b[i - data.len() - 1]);
            }
        }
        assert(t.subrange(0, i) =~= data);
        assert(t.subrange(i + 1, t.len() as int) =~= b);
    }
}

/// Checks a signed grant under `key`: true exactly for the tokens
/// `generate_signed_token` mints under that key.
pub fn verify_signed_token(token: &str, key: &[u8]) -> (r: bool)
    ensures
        forall|data: Seq<char>| #[trigger] signed_token_ok(token@, key@, data) ==> r,
        r ==> exists|data: Seq<char>| #[trigger] signed_token_ok(token@, key@, data),
{
    let n = token.unicode_len();
    let i = match find_last_dot(token) {
        Some(i) => i,
        None => {
            proof {
                assert forall|data: Seq<char>| #[trigger] signed_token_ok(token@, key@, data)
                    implies false by {
                    assert(token@[data.len() as int] == '.');
                }
            }
            return false;
        },
    };
    proof {
        lemma_grant_split(token@, key@, i as int);
    }
    let data_part = token.substring_char(0, i);
    let sig_part = token.substring_char(i + 1, n);
    let tag = match b64url_decode(sig_part) {
        Some(t) => t,
        None => {
            return false;
        },
    };
    let nd = data_part.unicode_len();
    let mut payload: Vec<u8> = Vec::new();
    let mut ascii_ok = true;
    let mut k: usize = 0;
    while k < nd
        invariant
            k <= nd == data_part@.len(),
            payload@ == char_bytes_of(data_part@.subrange(0, k as int)),
            ascii_ok <==> all_ascii(data_part@.subrange(0, k as int)),
        decreases nd - k,
    {
        let c = data_part.get_char(k);
        if (c as u32) >= 128 {
            ascii_ok = false;
        }
        payload.push(c as u8);
        proof {
            assert(payload@ =~= char_bytes_of(data_part@.subrange(0, k + 1)));
            if ascii_ok {
                assert forall|j: int| 0 <= j < k + 1 implies #[trigger] (data_part@.subrange(
                    0,
                    k + 1,
                )[j] as u32) < 128 by {
                    if j < k {
                        assert((data_part@.subrange(0, k as int)[j] as u32) < 128);
                    }
                }
            } else {
                if all_ascii(data_part@.subrange(0, k + 1)) {
                    assert forall|j: int| 0 <= j < k implies #[trigger] (data_part@.subrange(
                        0,
                        k as int,
                    )[j] as u32) < 128 by {
                        assert((data_part@.subrange(0, k + 1)[j] as u32) < 128);
                    }
                    assert((data_part@.subrange(0, k + 1)[k as int] as u32) < 128);
                }
            }
        }
        k += 1;
    }
    proof {
        assert(data_part@.subrange(0, nd as int) =~= data_part@);
    }
    if !ascii_ok {
        proof {
            assert forall|data: Seq<char>| #[trigger] signed_token_ok(token@, key@, data)
                implies false by {
                assert(data_part@ == data);
            }
        }
        return false;
    }
    let ok = hmac_sha256_verify(key, payload.as_slice(), tag.as_slice());
    proof {
        assert forall|data: Seq<char>| #[trigger] signed_token_ok(token@, key@, data) implies ok
            by {
            assert(data_part@ == data);
            assert(sig_part@ == b64url_of(hmac_sha256_of(key@, char_bytes_of(data))));
        }
        if ok {
            assert(token@ =~= data_part@ + seq!['.'] + sig_part@);
            assert(signed_token_ok(token@, key@, data_part@));
        }
    }
    ok
}

} // verus!
