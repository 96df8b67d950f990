//! The figures of the telemetry and security pages, and the rules that turn
//! raw readings into them.
use crate::lex::starts_with;
use crate::multimap::bytes_equal;
use crate::text::{
    copy_range, is_boundary, lemma_ascii_valid, lemma_valid_concat, lemma_valid_subrange, sbytes,
    str_bytes, str_to_string, string_from_valid,
};
use vstd::prelude::*;

verus! {

broadcast use vstd::utf8::encode_utf8_valid_utf8;

/// An incoming cookie as the security page lists it.
pub struct InboundCookieDetails {
    pub name: String,
    pub value_preview: String,
    pub server_policy_compliance: &'static str,
}

/// The database figures of the telemetry page.
pub struct DatabasePoolMetrics {
    pub status: &'static str,
    pub backend: String,
    pub response_time_ms: u128,
}

/// The process figures of the telemetry page.
pub struct ProcessMetrics {
    pub uptime_seconds: u64,
    pub pid: u32,
}

/// `__Host-`
pub open spec fn host_prefix() -> Seq<u8> {
    seq!['_' as u8, '_' as u8, 'H' as u8, 'o' as u8, 's' as u8, 't' as u8, '-' as u8]
}

/// `__Secure-`
pub open spec fn secure_prefix() -> Seq<u8> {
    seq!['_' as u8, '_' as u8, 'S' as u8, 'e' as u8, 'c' as u8, 'u' as u8, 'r' as u8, 'e' as u8, '-' as u8]
}

/// `session_id`
pub open spec fn session_id_name() -> Seq<u8> {
    seq!['s' as u8, 'e' as u8, 's' as u8, 's' as u8, 'i' as u8, 'o' as u8, 'n' as u8, '_' as u8, 'i' as u8, 'd' as u8]
}

/// A cookie name meets the server policy when it carries a `__Host-` or
/// `__Secure-` prefix, or is `session_id`.
pub open spec fn cookie_compliant(name: Seq<u8>) -> bool {
    starts_with(name, host_prefix()) || starts_with(name, secure_prefix()) || name == session_id_name()
}

/// `...`
pub open spec fn ellipsis() -> Seq<u8> {
    seq!['.' as u8, '.' as u8, '.' as u8]
}

/// A value as the page shows it: values over 16 bytes cut to their first 12
/// bytes and `...`, shorter ones whole.
pub open spec fn value_preview(v: Seq<u8>) -> Seq<u8> {
    if v.len() > 16 {
        v.subrange(0, 12) + ellipsis()
    } else {
        v
    }
}

/// The verdict text for a cookie name.
pub open spec fn compliance_text(name: Seq<u8>) -> Seq<char> {
    if cookie_compliant(name) {
        seq!['S', 'e', 'c', 'u', 'r', 'e', ' ', 'C', 'o', 'm', 'p', 'l', 'i', 'a', 'n', 't']
    } else {
        seq!['N', 'e', 'e', 'd', 's', ' ', 'R', 'e', 'v', 'i', 'e', 'w']
    }
}

impl InboundCookieDetails {
    /// Audits an incoming cookie: its name, a preview of its value, and
    /// whether its name meets the server policy.
    pub fn audit(name: &str, value: &str) -> (r: InboundCookieDetails)
        requires
            sbytes(value@).len() > 16 ==> is_boundary(sbytes(value@), 12),
        ensures
            r.name@ == name@,
            sbytes(r.value_preview@) == value_preview(sbytes(value@)),
            r.server_policy_compliance@ == compliance_text(sbytes(name@)),
    {
        let nb = str_bytes(name);
        let vb = str_bytes(value);
        let ha: [u8; 7] = ['_' as u8, '_' as u8, 'H' as u8, 'o' as u8, 's' as u8, 't' as u8, '-' as u8];
        let sa: [u8; 9] = ['_' as u8, '_' as u8, 'S' as u8, 'e' as u8, 'c' as u8, 'u' as u8, 'r' as u8, 'e' as u8, '-' as u8];
        let ia: [u8; 10] = ['s' as u8, 'e' as u8, 's' as u8, 's' as u8, 'i' as u8, 'o' as u8, 'n' as u8, '_' as u8, 'i' as u8, 'd' as u8];
        let (h, s, i): (&[u8], &[u8], &[u8]) = (&ha, &sa, &ia);
        assert(h@ == host_prefix());
        assert(s@ == secure_prefix());
        assert(i@ == session_id_name());
        assert(nb@.subrange(0, nb@.len() as int) =~= nb@);
        let compliant = crate::lex::range_starts_with(nb, 0, nb.len(), h)
            || crate::lex::range_starts_with(nb, 0, nb.len(), s) || bytes_equal(nb, i);
        let verdict: &'static str = if compliant {
            let t = "Secure Compliant";
            proof {
                reveal_strlit("Secure Compliant");
            }
            t
        } else {
            let t = "Needs Review";
            proof {
                reveal_strlit("Needs Review");
            }
            t
        };
        let preview = if vb.len() > 16 {
            let da: [u8; 3] = ['.' as u8, '.' as u8, '.' as u8];
            let d: &[u8] = &da;
            let mut head = copy_range(vb, 0, 12);
            let tail = copy_range(d, 0, 3);
            proof {
                lemma_valid_subrange(vb@, 0, 12);
                assert(d@.subrange(0, 3) =~= d@);
                lemma_ascii_valid(d@);
                lemma_valid_concat(vb@.subrange(0, 12), d@);
            }
            let mut tail_v = tail;
            head.append(&mut tail_v);
            assert(head@ =~= value_preview(vb@));
            string_from_valid(head)
        } else {
            str_to_string(value)
        };
        InboundCookieDetails {
            name: str_to_string(name),
            value_preview: preview,
            server_policy_compliance: verdict,
        }
    }
}

/// The firewall counts as degraded once it has blocked an address or
/// rate-limited more than a hundred requests.
pub fn rate_limiting_degraded(total_blocked_ips: u64, total_rate_limited_reqs: u64) -> (r: bool)
    ensures
        r == (total_blocked_ips > 0 || total_rate_limited_reqs > 100),
{
    total_blocked_ips > 0 || total_rate_limited_reqs > 100
}

/// `healthy` or `unhealthy`.
pub open spec fn db_status_text(healthy: bool) -> Seq<char> {
    if healthy {
        seq!['h', 'e', 'a', 'l', 't', 'h', 'y']
    } else {
        seq!['u', 'n', 'h', 'e', 'a', 'l', 't', 'h', 'y']
    }
}

/// `operational` or `degraded`.
pub open spec fn system_status_text(healthy: bool) -> Seq<char> {
    if healthy {
        seq!['o', 'p', 'e', 'r', 'a', 't', 'i', 'o', 'n', 'a', 'l']
    } else {
        seq!['d', 'e', 'g', 'r', 'a', 'd', 'e', 'd']
    }
}

impl DatabasePoolMetrics {
    /// The database figures from a probe query: `healthy` when it succeeded,
    /// `unhealthy` otherwise, with the backend's name and the time it took.
    pub fn from_probe(probe_ok: bool, backend: String, response_time_ms: u128) -> (r: DatabasePoolMetrics)
        ensures
            r.status@ == db_status_text(probe_ok),
            r.backend@ == backend@,
            r.response_time_ms == response_time_ms,
    {
        let status: &'static str = if probe_ok {
            let t = "healthy";
            proof {
                reveal_strlit("healthy");
            }
            t
        } else {
            let t = "unhealthy";
            proof {
                reveal_strlit("unhealthy");
            }
            t
        };
        DatabasePoolMetrics { status, backend, response_time_ms }
    }

    /// Is the database healthy?
    pub fn is_healthy(&self) -> (r: bool)
        ensures
            r == (self.status@ == db_status_text(true)),
    {
        let h = "healthy";
        proof {
            reveal_strlit("healthy");
            assert(h@ =~= db_status_text(true));
            crate::text::lemma_sbytes_injective(self.status@, h@);
        }
        bytes_equal(str_bytes(self.status), str_bytes(h))
    }

    /// The overall status of the telemetry page: `operational` while the
    /// database is healthy, `degraded` otherwise.
    pub fn system_status(&self) -> (r: &'static str)
        ensures
            r@ == system_status_text(self.status@ == db_status_text(true)),
    {
        if self.is_healthy() {
            let t = "operational";
            proof {
                reveal_strlit("operational");
            }
            t
        } else {
            let t = "degraded";
            proof {
                reveal_strlit("degraded");
            }
            t
        }
    }

    /// The width (in percent) of the latency bar: the response time in
    /// milliseconds, capped at 100.
    pub fn latency_bar(&self) -> (r: u128)
        ensures
            r == if self.response_time_ms < 100 {
                self.response_time_ms
            } else {
                100
            },
    {
        if self.response_time_ms < 100 {
            self.response_time_ms
        } else {
            100
        }
    }
}

impl ProcessMetrics {
    /// The process figures.
    pub fn new(uptime_seconds: u64, pid: u32) -> (r: ProcessMetrics)
        ensures
            r.uptime_seconds == uptime_seconds,
            r.pid == pid,
    {
        ProcessMetrics { uptime_seconds, pid }
    }
}

} // verus!
