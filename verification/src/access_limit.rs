//! Fixed-window request throttling per client and route.
//!
//! The shared cache holds one counter per `(client address, route)`
//! key with a TTL of one window. The functions here derive the key
//! from the request's address information and decide, from the
//! counter's current value, whether the request is admitted; the
//! surrounding application reads and writes the cache.
//!
//! The read and the write-back are two cache operations, not one
//! transaction: under concurrent bursts at a window boundary a few
//! requests beyond the limit may slip through. That best-effort bound
//! is deliberate and kept as designed.

use vstd::prelude::*;
use vstd::utf8::encode_utf8;

use crate::codec::find_byte;
use crate::codec::lit;

verus! {

/// ASCII lower-casing of one byte.
pub open spec fn lower_byte(b: u8) -> u8 {
    if 65 <= b <= 90 {
        (b + 32) as u8
    } else {
        b
    }
}

/// Whether a header value spells `unknown`, ASCII case ignored.
pub open spec fn is_unknown_bytes(b: Seq<u8>) -> bool {
    b.map_values(|x: u8| lower_byte(x)) == seq![117u8, 110, 107, 110, 111, 119, 110]
}

/// Whether a forwarded-for-style header value names a client: present,
/// non-empty, and not the placeholder `unknown`.
pub open spec fn header_usable(h: Option<Seq<u8>>) -> bool {
    match h {
        Some(b) => b.len() > 0 && !is_unknown_bytes(b),
        None => false,
    }
}

/// The address the request is attributed to, before truncation: the
/// first usable forwarded-for-style header, else the socket address,
/// with the loopback address replaced by the machine's own when that
/// is known.
pub open spec fn picked_ip(
    xff: Option<Seq<u8>>,
    proxy: Option<Seq<u8>>,
    wl_proxy: Option<Seq<u8>>,
    socket: Option<Seq<u8>>,
    local: Option<Seq<u8>>,
) -> Seq<u8> {
    if header_usable(xff) {
        xff->0
    } else if header_usable(proxy) {
        proxy->0
    } else if header_usable(wl_proxy) {
        wl_proxy->0
    } else {
        match socket {
            Some(sb) => if sb == lit("127.0.0.1") && local is Some {
                local->0
            } else {
                sb
            },
            None => Seq::empty(),
        }
    }
}

/// The first comma in `b` at or after `i`, or the length when there
/// is none.
pub open spec fn first_comma(b: Seq<u8>, i: int) -> int
    decreases b.len() - i,
{
    if i < 0 || i >= b.len() {
        b.len() as int
    } else if b[i] == 44 {
        i
    } else {
        first_comma(b, i + 1)
    }
}

/// A multi-hop forwarded-for list is cut at its first comma: the
/// first entry is the client.
pub open spec fn truncated_ip(b: Seq<u8>) -> Seq<u8> {
    if first_comma(b, 0) < b.len() {
        b.take(first_comma(b, 0))
    } else {
        b
    }
}

proof fn lemma_first_comma(b: Seq<u8>, j: int, i: int)
    requires
        0 <= j <= i <= b.len(),
        forall|k: int| j <= k < i ==> b[k] != 44,
        i == b.len() || b[i] == 44,
    ensures
        first_comma(b, j) == i,
    decreases i - j,
{
    if j < i {
        lemma_first_comma(b, j + 1, i);
    }
}

fn is_unknown_exec(b: &[u8]) -> (r: bool)
    ensures
        r == is_unknown_bytes(b@),
{
    let k: [u8; 7] = [117, 110, 107, 110, 111, 119, 110];
    if b.len() != 7 {
        proof {
            assert(b@.map_values(|x: u8| lower_byte(x)).len() == b@.len());
        }
        return false;
    }
    let mut i: usize = 0;
    while i < 7
        invariant
            b@.len() == 7,
            i <= 7,
            k@ == seq![117u8, 110, 107, 110, 111, 119, 110],
            forall|j: int| 0 <= j < i ==> lower_byte(#[trigger] b@[j]) == seq![
                117u8,
                110,
                107,
                110,
                111,
                119,
                110,
            ][j],
        decreases 7 - i,
    {
        let c = b[i];
        let lc = if 65 <= c && c <= 90 {
            c + 32
        } else {
            c
        };
        if lc != k[i] {
            proof {
                assert(b@.map_values(|x: u8| lower_byte(x))[i as int] == lower_byte(b@[i as int]));
            }
            return false;
        }
        i = i + 1;
    }
    proof {
        assert(b@.map_values(|x: u8| lower_byte(x)) =~= seq![117u8, 110, 107, 110, 111, 119, 110]);
    }
    true
}

fn header_usable_exec(h: Option<&str>) -> (r: bool)
    ensures
        r == header_usable(
            match h {
                Some(s) => Some(encode_utf8(s@)),
                None => None,
            },
        ),
{
    match h {
        None => false,
        Some(s) => {
            let b = s.as_bytes();
            if b.len() == 0 {
                false
            } else {
                !is_unknown_exec(b)
            }
        },
    }
}

/// The client address a request is attributed to for throttling: the
/// first usable forwarded-for-style header (`x-forwarded-for`, then
/// the two proxy-client headers), else the socket address, loopback
/// replaced by the machine's own address when known; a multi-hop list
/// is cut at its first comma.
pub fn get_ip_addr(
    xff: Option<&str>,
    proxy_client_ip: Option<&str>,
    wl_proxy_client_ip: Option<&str>,
    socket_ip: Option<String>,
    local_ip: Option<String>,
) -> (r: String)
    ensures
        encode_utf8(r@) == truncated_ip(
            picked_ip(
                match xff {
                    Some(s) => Some(encode_utf8(s@)),
                    None => None,
                },
                match proxy_client_ip {
                    Some(s) => Some(encode_utf8(s@)),
                    None => None,
                },
                match wl_proxy_client_ip {
                    Some(s) => Some(encode_utf8(s@)),
                    None => None,
                },
                match socket_ip {
                    Some(s) => Some(encode_utf8(s@)),
                    None => None,
                },
                match local_ip {
                    Some(s) => Some(encode_utf8(s@)),
                    None => None,
                },
            ),
        ),
{
    let mut base: String = String::new();
    let mut set = false;
    if header_usable_exec(xff) {
        match xff {
            Some(s) => {
                base = s.to_owned();
                set = true;
            },
            None => {},
        }
    }
    if !set && header_usable_exec(proxy_client_ip) {
        match proxy_client_ip {
            Some(s) => {
                base = s.to_owned();
                set = true;
            },
            None => {},
        }
    }
    if !set && header_usable_exec(wl_proxy_client_ip) {
        match wl_proxy_client_ip {
            Some(s) => {
                base = s.to_owned();
                set = true;
            },
            None => {},
        }
    }
    if !set {
        match &socket_ip {
            Some(sb) => {
                let is_loopback = crate::codec::bytes_eq(
                    sb.as_str().as_bytes(),
                    "127.0.0.1".as_bytes(),
                );
                match &local_ip {
                    Some(l) if is_loopback => {
                        base = l.clone();
                    },
                    _ => {
                        base = sb.clone();
                    },
                }
            },
            None => {
                proof {
                    assert(encode_utf8(base@) =~= Seq::<u8>::empty());
                }
            },
        }
    }
    let bb = base.as_str().as_bytes();
    let blen = bb.len();
    match find_byte(bb, 0, 44) {
        Some(i) => {
            proof {
                vstd::utf8::encode_utf8_valid_utf8(base@);
                vstd::utf8::is_char_boundary_iff_not_is_continuation_byte(bb@, i as int);
                lemma_first_comma(bb@, 0, i as int);
            }
            let parts = base.as_str().split_at(i);
            proof {
                assert(encode_utf8(parts.0@) =~= bb@.take(i as int));
            }
            return parts.0.to_owned();
        },
        None => {
            proof {
                lemma_first_comma(bb@, 0, blen as int);
            }
        },
    }
    base
}

/// The throttling policy of one protected route: at most `limit`
/// requests per `seconds`-long window.
pub struct AccessLimitLayer {
    pub limit: u32,
    pub seconds: u64,
}

/// What to do with one request, given the counter read from the cache.
pub enum RateDecision {
    /// Too many requests in the current window: answer 429, do not forward.
    Deny,
    /// Forward the request after writing `new_count` with `ttl_seconds`.
    Allow { new_count: u32, ttl_seconds: u64 },
}

impl AccessLimitLayer {
    pub fn new(limit: u32, seconds: u64) -> (r: Self)
        ensures
            r.limit == limit,
            r.seconds == seconds,
    {
        Self { limit, seconds }
    }

    /// The admission decision for one request. `count` is the current
    /// counter for the request's key, `None` when no request was seen
    /// in the current window. A request is denied exactly when the
    /// counter has reached the limit; an admitted request writes back
    /// the incremented counter with a fresh full window.
    pub fn check(&self, count: Option<u32>) -> (r: RateDecision)
        ensures
            ({ let c = if count is Some { count->0 } else { 0u32 };
                &&& (r is Deny <==> c >= self.limit)
                &&& (r matches RateDecision::Allow { new_count, ttl_seconds } ==>
                        new_count == c + 1 && ttl_seconds == self.seconds)
            }),
    {
        let c = match count {
            Some(c) => c,
            None => 0,
        };
        if c >= self.limit {
            RateDecision::Deny
        } else {
            RateDecision::Allow { new_count: c + 1, ttl_seconds: self.seconds }
        }
    }
}

/// The cache key of a request: the client address followed by the
/// request path.
pub fn rate_key(ip: &str, uri: &str) -> (r: String)
    ensures
        r@ == ip@ + uri@,
{
    let mut key = ip.to_owned();
    key.append(uri);
    key
}

} // verus!
