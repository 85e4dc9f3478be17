//! Process HTTP connections on the server.
use vstd::prelude::*;
use crate::bytes::{eq_ignore_ascii_case, eq_ignore_case, text, trim_bounds, trimmed};
use vstd::slice::slice_subrange;

pub mod decode;
pub mod encode;

verus! {

/// Configure the server.
#[derive(Debug, Clone)]
pub struct ServerOptions {
    /// Timeout to handle headers, in seconds. Defaults to 60s.
    headers_timeout: Option<u64>,
    /// The host that HTTP/1.0 requests without a `Host` header are for. HTTP/1.0
    /// requests are only served when it is set.
    default_host: Option<Vec<u8>>,
}

/// The bytes of an optional byte vector.
pub open spec fn opt_view(o: Option<Vec<u8>>) -> Option<Seq<u8>> {
    match o {
        Some(v) => Some(v@),
        None => None,
    }
}

impl ServerOptions {
    /// The timeout to handle headers, in seconds.
    pub closed spec fn timeout(&self) -> Option<u64> {
        self.headers_timeout
    }

    /// The host that HTTP/1.0 requests without a `Host` header are for.
    pub closed spec fn host(&self) -> Option<Seq<u8>> {
        opt_view(self.default_host)
    }

    /// The default options: a timeout of 60s, and no default host.
    pub fn new() -> (o: Self)
        ensures
            o.timeout() == Some(60u64),
            o.host() is None,
    {
        ServerOptions { headers_timeout: Some(60), default_host: None }
    }

    /// The same options with `host` as the host of HTTP/1.0 requests without a `Host`
    /// header.
    pub fn with_default_host(self, host: &str) -> (o: Self)
        ensures
            o.timeout() == self.timeout(),
            o.host() == Some(text(host)),
    {
        let mut h: Vec<u8> = Vec::new();
        crate::bytes::push_text(&mut h, host);
        ServerOptions { headers_timeout: self.headers_timeout, default_host: Some(h) }
    }

    /// The timeout to handle headers, in seconds, if there is one.
    pub fn headers_timeout(&self) -> (r: Option<u64>)
        ensures
            r == self.timeout(),
    {
        self.headers_timeout
    }

    /// The host that HTTP/1.0 requests without a `Host` header are for, if one is set.
    pub fn default_host(&self) -> (r: Option<&[u8]>)
        ensures
            self.host() == (match r {
                Some(h) => Some(h@),
                None => None::<Seq<u8>>,
            }),
    {
        match &self.default_host {
            Some(h) => Some(h.as_slice()),
            None => None,
        }
    }
}

impl Default for ServerOptions {
    fn default() -> (o: Self)
        ensures
            o.timeout() == Some(60u64),
            o.host() is None,
    {
        ServerOptions::new()
    }
}

/// An enum that represents whether the server should accept a subsequent request
#[derive(Debug, Copy, Clone, Eq, PartialEq, Structural)]
pub enum ConnectionStatus {
    /// The server should not accept another request
    Close,
    /// The server may accept another request
    KeepAlive,
}

/// The index of the first comma in `s`.
pub open spec fn first_comma(s: Seq<u8>) -> Option<nat>
    decreases s.len(),
{
    if s.len() == 0 {
        None
    } else if s[0] == 44 {
        Some(0)
    } else {
        match first_comma(s.drop_first()) {
            Some(i) => Some(i + 1),
            None => None,
        }
    }
}

pub proof fn lemma_first_comma(s: Seq<u8>)
    ensures
        first_comma(s) matches Some(i) ==> i < s.len() && s[i as int] == 44 && forall|k: int|
            0 <= k < i ==> s[k] != 44,
        first_comma(s) is None ==> forall|k: int| 0 <= k < s.len() ==> s[k] != 44,
    decreases s.len(),
{
    if s.len() > 0 && s[0] != 44 {
        lemma_first_comma(s.drop_first());
        assert forall|k: int| 1 <= k < s.len() implies s[k] == s.drop_first()[k - 1] by {}
    }
}

/// Some comma-separated part of `s`, trimmed, is `token`, ignoring ASCII case.
pub open spec fn lists_token(s: Seq<u8>, token: Seq<u8>) -> bool
    decreases s.len(),
{
    match first_comma(s) {
        None => eq_ignore_case(trimmed(s), token),
        Some(i) => {
            proof {
                lemma_first_comma(s);
            }
            eq_ignore_case(trimmed(s.take(i as int)), token) || lists_token(
                s.skip(i + 1int),
                token,
            )
        },
    }
}

/// `s` holds no comma.
pub open spec fn no_comma(s: Seq<u8>) -> bool {
    forall|k: int| 0 <= k < s.len() ==> s[k] != 44
}

/// A list of one part names `token` exactly when that part, trimmed, is `token` but for
/// ASCII case.
pub proof fn lemma_lists_token_single(a: Seq<u8>, token: Seq<u8>)
    requires
        no_comma(a),
    ensures
        lists_token(a, token) == eq_ignore_case(trimmed(a), token),
{
    lemma_first_comma(a);
    if let Some(j) = first_comma(a) {
        assert(a[j as int] == 44);
    }
}

/// Every comma-separated part of a list is looked at: a list of a first part `a`, a comma
/// and the rest `b` names `token` exactly when `a`, trimmed, is `token` or `b` names it.
pub proof fn lemma_lists_token_cons(a: Seq<u8>, b: Seq<u8>, token: Seq<u8>)
    requires
        no_comma(a),
    ensures
        lists_token(a + seq![44u8] + b, token) == (eq_ignore_case(trimmed(a), token) || lists_token(
            b,
            token,
        )),
{
    let s = a + seq![44u8] + b;
    lemma_first_comma(s);
    assert(s[a.len() as int] == 44);
    assert forall|k: int| 0 <= k < a.len() implies s[k] != 44 by {
        assert(s[k] == a[k]);
    }
    assert(first_comma(s) == Some(a.len())) by {
        match first_comma(s) {
            Some(i) => {
                if i < a.len() {
                    assert(s[i as int] == a[i as int]);
                }
            },
            None => {},
        }
    }
    assert(s.take(a.len() as int) =~= a);
    assert(s.skip(a.len() + 1int) =~= b);
}

/// A list whose first part is `token` itself names it, whatever follows.
pub proof fn lemma_lists_token_first(token: Seq<u8>, b: Seq<u8>)
    requires
        no_comma(token),
        trimmed(token) == token,
    ensures
        lists_token(token + seq![44u8] + b, token),
{
    lemma_lists_token_cons(token, b, token);
}

/// Whether some comma-separated part of `s`, trimmed of ASCII white space, is `token`,
/// ignoring ASCII case.
pub fn has_token(s: &[u8], token: &[u8]) -> (r: bool)
    ensures
        r == lists_token(s@, token@),
    decreases s@.len(),
{
    let mut i: usize = 0;
    while i < s.len() && s[i] != 44u8
        invariant
            0 <= i <= s@.len(),
            forall|k: int| 0 <= k < i ==> s@[k] != 44,
        decreases s@.len() - i,
    {
        i = i + 1;
    }
    proof { lemma_first_comma(s@); }
    if i == s.len() {
        assert(first_comma(s@) is None) by {
            if let Some(j) = first_comma(s@) {
                assert(s@[j as int] != 44);
            }
        }
        let (a, b) = trim_bounds(s);
        eq_ignore_ascii_case(slice_subrange(s, a, b), token)
    } else {
        assert(first_comma(s@) == Some(i as nat)) by {
            if let Some(j) = first_comma(s@) {
                if j < i {
                    assert(s@[j as int] != 44);
                }
                if j > i {
                    assert(s@[i as int] != 44);
                }
            }
        }
        let part = slice_subrange(s, 0, i);
        assert(part@ =~= s@.take(i as int));
        let (a, b) = trim_bounds(part);
        if eq_ignore_ascii_case(slice_subrange(part, a, b), token) {
            true
        } else {
            let rest = slice_subrange(s, i + 1, s.len());
            assert(rest@ =~= s@.skip(i + 1));
            has_token(rest, token)
        }
    }
}

/// What a request's first `Connection` value asks for.
pub open spec fn request_connection(value: Option<Seq<u8>>) -> (bool, bool) {
    let v = match value {
        Some(v) => v,
        None => Seq::empty(),
    };
    (lists_token(v, text("upgrade")), eq_ignore_case(v, text("close")))
}

/// What a request's first `Connection` value asks for: an upgrade, when one of its
/// comma-separated parts is `upgrade`, and closing the connection, when it is `close`.
/// A missing header reads as empty.
pub fn request_connection_flags(value: Option<&[u8]>) -> (r: (bool, bool))
    ensures
        r == request_connection(
            match value {
                Some(v) => Some(v@),
                None => None,
            },
        ),
{
    let v: &[u8] = match value {
        Some(v) => v,
        None => &[],
    };
    assert(value is None ==> v@ =~= Seq::<u8>::empty());
    let upgrade = has_token(v, "upgrade".as_bytes());
    let close = eq_ignore_ascii_case(v, "close".as_bytes());
    (upgrade, close)
}

/// What is done after a response: whether the connection is handed over to the upgrade,
/// and whether another request may follow.
pub open spec fn after_response(
    upgrade_requested: bool,
    upgrade_provided: bool,
    close_requested: bool,
    close_responded: bool,
) -> (bool, ConnectionStatus) {
    if upgrade_requested && upgrade_provided {
        (true, ConnectionStatus::Close)
    } else if close_requested || close_responded {
        (false, ConnectionStatus::Close)
    } else {
        (false, ConnectionStatus::KeepAlive)
    }
}

/// Decides, once a response is written, whether the connection is handed over to an
/// upgrade (the request asked for one with `Upgrade` and `Connection: upgrade`, and the
/// response switches protocols with an upgrade), and whether the server may accept
/// another request on it: not after an upgrade, nor when either side said `close`.
pub fn connection_status(
    has_upgrade_header: bool,
    connection_is_upgrade: bool,
    upgrade_provided: bool,
    close_requested: bool,
    close_responded: bool,
) -> (r: (bool, ConnectionStatus))
    ensures
        r == after_response(
            has_upgrade_header && connection_is_upgrade,
            upgrade_provided,
            close_requested,
            close_responded,
        ),
{
    let upgrade_requested = has_upgrade_header && connection_is_upgrade;
    if upgrade_requested && upgrade_provided {
        (true, ConnectionStatus::Close)
    } else if close_requested || close_responded {
        (false, ConnectionStatus::Close)
    } else {
        (false, ConnectionStatus::KeepAlive)
    }
}

/// The most requests that one connection is served, one after another.
pub const MAX_REQUESTS: usize = 200;

/// Counts a request about to be served on a connection that was served `served`: `None`
/// once it was served `MAX_REQUESTS`, when the connection is to be left.
pub fn admit_request(served: usize) -> (r: Option<usize>)
    requires
        served <= MAX_REQUESTS,
    ensures
        served == MAX_REQUESTS ==> r is None,
        served < MAX_REQUESTS ==> r == Some((served + 1) as usize),
{
    if served == MAX_REQUESTS {
        None
    } else {
        Some(served + 1)
    }
}

} // verus!
