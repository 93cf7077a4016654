//! Security headers for HTTP responses, and the browser-side policies:
//! content security policy, clickjacking protection, CSRF tokens per
//! session, and fingerprinting mitigation. The header sets are fixed
//! maps; applying them merges into the caller's response headers.

use vstd::prelude::*;

use crate::kvmap::lemma_views_insert;
use crate::kvmap::views_of;
use crate::kvmap::StrMap;
use crate::strutil::ascii_to_string;
use crate::strutil::dec_bytes;
use crate::strutil::dec_chars_of;
use crate::strutil::lemma_dec_bytes_shape;
use crate::strutil::str_eq;

verus! {

use vstd::string::StrSliceExecFns;
use vstd::string::StringExecFns;

/// The response headers the middleware enforces.
pub open spec fn default_security_headers() -> Map<Seq<char>, Seq<char>> {
    Map::<Seq<char>, Seq<char>>::empty().insert(
        "Strict-Transport-Security"@,
        "max-age=31536000; includeSubDomains; preload"@,
    ).insert(
        "Content-Security-Policy"@,
        "default-src 'self'; script-src 'self'; style-src 'self'; img-src 'self'; frame-ancestors 'none';"@,
    ).insert("X-Frame-Options"@, "DENY"@).insert("X-Content-Type-Options"@, "nosniff"@).insert(
        "Referrer-Policy"@,
        "strict-origin-when-cross-origin"@,
    ).insert("Feature-Policy"@, "geolocation 'none'; microphone 'none'; camera 'none'"@).insert(
        "Cross-Origin-Resource-Policy"@,
        "same-origin"@,
    ).insert("Cross-Origin-Opener-Policy"@, "same-origin"@).insert(
        "Cross-Origin-Embedder-Policy"@,
        "require-corp"@,
    )
}

/// The enforced security headers.
pub struct SecurityHeaders {
    headers: StrMap<String>,
}

impl SecurityHeaders {
    /// The headers as a map from name to value.
    pub closed spec fn table(&self) -> Map<Seq<char>, Seq<char>> {
        views_of(self.headers@)
    }

    /// The full set of enforced headers.
    pub fn new() -> (r: SecurityHeaders)
        ensures
            r.table() == default_security_headers(),
    {
        let mut headers: StrMap<String> = StrMap::new();
        proof {
            assert(views_of(headers@) =~= Map::<Seq<char>, Seq<char>>::empty());
        }
        let ghost m0 = headers@;
        headers.insert(
            "Strict-Transport-Security",
            "max-age=31536000; includeSubDomains; preload".to_owned(),
        );
        proof {
            lemma_views_insert(m0, "Strict-Transport-Security"@, headers@["Strict-Transport-Security"@]);
        }
        let ghost m1 = headers@;
        headers.insert(
            "Content-Security-Policy",
            "default-src 'self'; script-src 'self'; style-src 'self'; img-src 'self'; frame-ancestors 'none';".to_owned(),
        );
        proof {
            lemma_views_insert(m1, "Content-Security-Policy"@, headers@["Content-Security-Policy"@]);
        }
        let ghost m2 = headers@;
        headers.insert("X-Frame-Options", "DENY".to_owned());
        proof {
            lemma_views_insert(m2, "X-Frame-Options"@, headers@["X-Frame-Options"@]);
        }
        let ghost m3 = headers@;
        headers.insert("X-Content-Type-Options", "nosniff".to_owned());
        proof {
            lemma_views_insert(m3, "X-Content-Type-Options"@, headers@["X-Content-Type-Options"@]);
        }
        let ghost m4 = headers@;
        headers.insert("Referrer-Policy", "strict-origin-when-cross-origin".to_owned());
        proof {
            lemma_views_insert(m4, "Referrer-Policy"@, headers@["Referrer-Policy"@]);
        }
        let ghost m5 = headers@;
        headers.insert(
            "Feature-Policy",
            "geolocation 'none'; microphone 'none'; camera 'none'".to_owned(),
        );
        proof {
            lemma_views_insert(m5, "Feature-Policy"@, headers@["Feature-Policy"@]);
        }
        let ghost m6 = headers@;
        headers.insert("Cross-Origin-Resource-Policy", "same-origin".to_owned());
        proof {
            lemma_views_insert(
                m6,
                "Cross-Origin-Resource-Policy"@,
                headers@["Cross-Origin-Resource-Policy"@],
            );
        }
        let ghost m7 = headers@;
        headers.insert("Cross-Origin-Opener-Policy", "same-origin".to_owned());
        proof {
            lemma_views_insert(
                m7,
                "Cross-Origin-Opener-Policy"@,
                headers@["Cross-Origin-Opener-Policy"@],
            );
        }
        let ghost m8 = headers@;
        headers.insert("Cross-Origin-Embedder-Policy", "require-corp".to_owned());
        proof {
            lemma_views_insert(
                m8,
                "Cross-Origin-Embedder-Policy"@,
                headers@["Cross-Origin-Embedder-Policy"@],
            );
        }
        SecurityHeaders { headers }
    }

    /// Merges the enforced headers into a response's headers.
    pub fn apply_headers(&self, response: &mut StrMap<String>)
        ensures
            views_of(final(response)@) == views_of(old(response)@).union_prefer_right(
                self.table(),
            ),
    {
        self.headers.merge_into(response);
    }
}

/// The headers the browser-side policies ask for.
pub open spec fn browser_security_headers(csp: Seq<char>, xfo: Seq<char>) -> Map<
    Seq<char>,
    Seq<char>,
> {
    Map::<Seq<char>, Seq<char>>::empty().insert("Content-Security-Policy"@, csp).insert(
        "X-Frame-Options"@,
        xfo,
    ).insert("Referrer-Policy"@, "no-referrer"@).insert(
        "X-Content-Type-Options"@,
        "nosniff"@,
    ).insert("Permissions-Policy"@, "geolocation=(), camera=(), microphone=()"@).insert(
        "Strict-Transport-Security"@,
        "max-age=31536000; includeSubDomains"@,
    ).insert("Set-Cookie"@, "session_id=secure; HttpOnly; Secure; SameSite=Strict"@)
}

/// Browser-level protections: the policy strings and a CSRF token per
/// session.
pub struct BrowserSecurityPolicies {
    csp: String,
    x_frame_options: String,
    csrf_tokens: StrMap<String>,
}

impl BrowserSecurityPolicies {
    /// The content security policy.
    pub closed spec fn csp_view(&self) -> Seq<char> {
        self.csp@
    }

    /// The clickjacking policy.
    pub closed spec fn xfo_view(&self) -> Seq<char> {
        self.x_frame_options@
    }

    /// The issued CSRF tokens, keyed by session.
    pub closed spec fn tokens(&self) -> Map<Seq<char>, Seq<char>> {
        views_of(self.csrf_tokens@)
    }

    /// The stock policies, with no CSRF tokens issued yet.
    pub fn new() -> (r: BrowserSecurityPolicies)
        ensures
            r.csp_view()
                == "default-src 'none'; script-src 'self'; style-src 'self'; frame-ancestors 'none';"@,
            r.xfo_view() == "DENY"@,
            r.tokens() == Map::<Seq<char>, Seq<char>>::empty(),
    {
        let r = BrowserSecurityPolicies {
            csp:
                "default-src 'none'; script-src 'self'; style-src 'self'; frame-ancestors 'none';".to_owned(),
            x_frame_options: "DENY".to_owned(),
            csrf_tokens: StrMap::new(),
        };
        proof {
            assert(r.tokens() =~= Map::<Seq<char>, Seq<char>>::empty());
        }
        r
    }

    /// Issues the CSRF token for a session at instant `now` and records
    /// it: `csrf-<session>-<instant>`.
    pub fn generate_csrf_token(&mut self, session_id: &str, now: u64) -> (r: String)
        ensures
            r@ == "csrf-"@ + session_id@ + "-"@ + dec_chars_of(now as nat),
            final(self).tokens() == old(self).tokens().insert(session_id@, r@),
            final(self).csp_view() == old(self).csp_view(),
            final(self).xfo_view() == old(self).xfo_view(),
    {
        let stamp_bytes = dec_bytes(now);
        proof {
            lemma_dec_bytes_shape(now as nat);
        }
        let stamp = ascii_to_string(stamp_bytes);
        let token = "csrf-".to_owned().concat(session_id).concat("-").concat(stamp.as_str());
        let ghost before = self.csrf_tokens@;
        let stored = token.as_str().to_owned();
        self.csrf_tokens.insert(session_id, stored);
        proof {
            lemma_views_insert(before, session_id@, self.csrf_tokens@[session_id@]);
        }
        token
    }

    /// Whether `token` is the CSRF token on record for this session.
    pub fn validate_csrf_token(&self, session_id: &str, token: &str) -> (r: bool)
        ensures
            r == (self.tokens().contains_key(session_id@) && self.tokens()[session_id@]
                == token@),
    {
        match self.csrf_tokens.get(session_id) {
            Some(stored) => str_eq(stored.as_str(), token),
            None => false,
        }
    }

    /// The headers these policies ask every response to carry.
    pub fn get_security_headers(&self) -> (r: StrMap<String>)
        ensures
            views_of(r@) == browser_security_headers(self.csp_view(), self.xfo_view()),
    {
        let mut headers: StrMap<String> = StrMap::new();
        proof {
            assert(views_of(headers@) =~= Map::<Seq<char>, Seq<char>>::empty());
        }
        let ghost m0 = headers@;
        headers.insert("Content-Security-Policy", self.csp.as_str().to_owned());
        proof {
            lemma_views_insert(m0, "Content-Security-Policy"@, headers@["Content-Security-Policy"@]);
        }
        let ghost m1 = headers@;
        headers.insert("X-Frame-Options", self.x_frame_options.as_str().to_owned());
        proof {
            lemma_views_insert(m1, "X-Frame-Options"@, headers@["X-Frame-Options"@]);
        }
        let ghost m2 = headers@;
        headers.insert("Referrer-Policy", "no-referrer".to_owned());
        proof {
            lemma_views_insert(m2, "Referrer-Policy"@, headers@["Referrer-Policy"@]);
        }
        let ghost m3 = headers@;
        headers.insert("X-Content-Type-Options", "nosniff".to_owned());
        proof {
            lemma_views_insert(m3, "X-Content-Type-Options"@, headers@["X-Content-Type-Options"@]);
        }
        let ghost m4 = headers@;
        headers.insert("Permissions-Policy", "geolocation=(), camera=(), microphone=()".to_owned());
        proof {
            lemma_views_insert(m4, "Permissions-Policy"@, headers@["Permissions-Policy"@]);
        }
        let ghost m5 = headers@;
        headers.insert(
            "Strict-Transport-Security",
            "max-age=31536000; includeSubDomains".to_owned(),
        );
        proof {
            lemma_views_insert(
                m5,
                "Strict-Transport-Security"@,
                headers@["Strict-Transport-Security"@],
            );
        }
        let ghost m6 = headers@;
        headers.insert("Set-Cookie", "session_id=secure; HttpOnly; Secure; SameSite=Strict".to_owned());
        proof {
            lemma_views_insert(m6, "Set-Cookie"@, headers@["Set-Cookie"@]);
        }
        headers
    }

    /// Merges these policies' headers into a response's headers.
    pub fn apply_security_headers(&self, response: &mut StrMap<String>)
        ensures
            views_of(final(response)@) == views_of(old(response)@).union_prefer_right(
                browser_security_headers(self.csp_view(), self.xfo_view()),
            ),
    {
        let headers = self.get_security_headers();
        headers.merge_into(response);
    }
}

/// Replaces the identifying request headers with generic values.
pub fn mitigate_fingerprinting(headers: &mut StrMap<String>)
    ensures
        views_of(final(headers)@) == views_of(old(headers)@).insert(
            "User-Agent"@,
            "Mozilla/5.0 (privacy-enforced)"@,
        ).insert("Accept-Language"@, "en-US"@),
{
    let ghost m0 = headers@;
    headers.insert("User-Agent", "Mozilla/5.0 (privacy-enforced)".to_owned());
    proof {
        lemma_views_insert(m0, "User-Agent"@, headers@["User-Agent"@]);
    }
    let ghost m1 = headers@;
    headers.insert("Accept-Language", "en-US".to_owned());
    proof {
        lemma_views_insert(m1, "Accept-Language"@, headers@["Accept-Language"@]);
    }
}

} // verus!
