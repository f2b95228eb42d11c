//! Reading peers from a local CAMP REST bridge: which URL to ask, the plain
//! HTTP/1.1 request and response, and turning agent records into peers.
use vstd::prelude::*;

use crate::config::CampConfig;
use crate::mesh::{MeshPeer, DEFAULT_CAMP_REST_URL, INTENT_BRANCH};
use crate::text::{
    append_str, find, find_chars, from_chars, lemma_find_from, occurs_at, occurs_at_exec, owned,
    slice_chars, starts_with, text_eq, to_chars,
};

verus! {

/// The value of decimal digits `s`.
pub open spec fn digits_value(s: Seq<char>) -> nat
    decreases s.len(),
{
    if s.len() == 0 {
        0
    } else {
        digits_value(s.drop_last()) * 10 + ((s.last() as u32) - 48) as nat
    }
}

pub open spec fn is_digit(c: char) -> bool {
    48 <= c as u32 <= 57
}

/// `s` without one leading `+`.
pub open spec fn unsigned_part(s: Seq<char>) -> Seq<char> {
    if s.len() > 0 && s[0] == '+' {
        s.drop_first()
    } else {
        s
    }
}

/// Every character of `s` is a decimal digit.
pub open spec fn all_digits(s: Seq<char>) -> bool {
    forall|i: int| 0 <= i < s.len() ==> is_digit(#[trigger] s[i])
}

/// What `str::parse::<u16>` gives: an optional `+`, then one or more decimal
/// digits whose value fits in 16 bits.
pub open spec fn parse_u16(s: Seq<char>) -> Option<u16> {
    let d = unsigned_part(s);
    if d.len() > 0 && all_digits(d) && digits_value(d) <= 65535 {
        Some(digits_value(d) as u16)
    } else {
        None
    }
}

proof fn lemma_digits_value_grows(s: Seq<char>, i: int)
    requires
        0 <= i <= s.len(),
        forall|j: int| 0 <= j < s.len() ==> is_digit(#[trigger] s[j]),
    ensures
        digits_value(s.take(i)) <= digits_value(s),
    decreases s.len() - i,
{
    if i < s.len() {
        lemma_digits_value_grows(s, i + 1);
        assert(s.take(i + 1).drop_last() =~= s.take(i));
    } else {
        assert(s.take(i) =~= s);
    }
}

/// Parses a port number the way `str::parse::<u16>` does.
pub fn parse_port(s: &str) -> (res: Option<u16>)
    ensures
        res == parse_u16(s@),
{
    let chars = to_chars(s);
    let start: usize = if chars.len() > 0 && chars[0] == '+' {
        1
    } else {
        0
    };
    let ghost d = unsigned_part(s@);
    assert(d =~= chars@.skip(start as int));
    if start >= chars.len() {
        return None;
    }
    let mut value: u32 = 0;
    let mut i = start;
    while i < chars.len()
        invariant
            start <= i <= chars@.len(),
            d == chars@.skip(start as int),
            d == unsigned_part(s@),
            forall|j: int| start <= j < i ==> is_digit(#[trigger] chars@[j]),
            value as nat == digits_value(d.take(i - start)),
            value <= 65535,
        decreases chars@.len() - i,
    {
        let c = chars[i];
        let cv = c as u32;
        if cv < 48 || cv > 57 {
            proof {
                assert(d[i - start] == c);
                assert(!is_digit(d[i - start]));
                assert(!all_digits(d));
            }
            return None;
        }
        assert(d.take(i - start + 1).drop_last() =~= d.take(i - start));
        assert(d.take(i - start + 1).last() == c);
        let next: u32 = value * 10 + (cv - 48);
        if next > 65535 {
            proof {
                assert(digits_value(d.take(i - start + 1)) == next);
                if all_digits(d) {
                    lemma_digits_value_grows(d, i - start + 1);
                }
            }
            return None;
        }
        value = next;
        i += 1;
    }
    assert(d.take(i - start) =~= d);
    assert forall|j: int| 0 <= j < d.len() implies is_digit(#[trigger] d[j]) by {
        assert(d[j] == chars@[start + j]);
    }
    Some(value as u16)
}

/// Where a plain-HTTP URL points.
#[derive(Debug)]
pub struct HttpTarget {
    pub host: String,
    pub port: u16,
    pub path: String,
}

/// The host, port and path of an `http://` URL: the part before the first
/// `/` is `host` or `host:port` (port 80 when absent or unreadable), the
/// rest is the path (`/` when empty).  Other URLs have none.
pub open spec fn http_target(url: Seq<char>) -> Option<(Seq<char>, u16, Seq<char>)> {
    if !starts_with(url, "http://"@) {
        None
    } else {
        let rest = url.skip(7);
        let host_port = match find(rest, seq!['/']) {
            Some(i) => rest.take(i),
            None => rest,
        };
        let path = match find(rest, seq!['/']) {
            Some(i) => rest.skip(i),
            None => seq!['/'],
        };
        match find(host_port, seq![':']) {
            Some(i) => Some(
                (
                    host_port.take(i),
                    match parse_u16(host_port.skip(i + 1)) {
                        Some(p) => p,
                        None => 80,
                    },
                    path,
                ),
            ),
            None => Some((host_port, 80, path)),
        }
    }
}

/// Splits a plain-HTTP URL into host, port and path.
pub fn parse_http_url(url: &str) -> (res: Option<HttpTarget>)
    ensures
        res is Some <==> http_target(url@) is Some,
        res matches Some(t) ==> http_target(url@) == Some((t.host@, t.port, t.path@)),
{
    let u = to_chars(url);
    let scheme = to_chars("http://");
    proof {
        reveal_strlit("http://");
    }
    if !occurs_at_exec(&u, &scheme, 0) {
        return None;
    }
    let rest = slice_chars(&u, 7, u.len());
    assert(rest@ =~= url@.skip(7));
    let slash = vec!['/'];
    assert(slash@ =~= seq!['/']);
    let (host_port, path) = match find_chars(&rest, &slash) {
        Some(i) => {
            proof {
                lemma_find_from(rest@, slash@, 0);
            }
            let hp = slice_chars(&rest, 0, i);
            let p = slice_chars(&rest, i, rest.len());
            assert(hp@ =~= rest@.take(i as int));
            assert(p@ =~= rest@.skip(i as int));
            (hp, p)
        },
        None => {
            let hp = slice_chars(&rest, 0, rest.len());
            assert(hp@ =~= rest@);
            (hp, vec!['/'])
        },
    };
    let colon = vec![':'];
    assert(colon@ =~= seq![':']);
    match find_chars(&host_port, &colon) {
        Some(i) => {
            proof {
                lemma_find_from(host_port@, colon@, 0);
            }
            let host = slice_chars(&host_port, 0, i);
            let port_text = slice_chars(&host_port, i + 1, host_port.len());
            assert(host@ =~= host_port@.take(i as int));
            assert(port_text@ =~= host_port@.skip(i + 1));
            let port_string = from_chars(&port_text);
            let port = match parse_port(port_string.as_str()) {
                Some(p) => p,
                None => 80,
            };
            Some(HttpTarget { host: from_chars(&host), port, path: from_chars(&path) })
        },
        None => Some(HttpTarget { host: from_chars(&host_port), port: 80, path: from_chars(&path) }),
    }
}

/// The request sent to the bridge.
pub fn http_request(target: &HttpTarget) -> (res: String)
    ensures
        res@ == "GET "@ + target.path@ + " HTTP/1.1\r\nHost: "@ + target.host@
            + "\r\nConnection: close\r\n\r\n"@,
{
    let mut out = to_chars("GET ");
    append_str(&mut out, target.path.as_str());
    append_str(&mut out, " HTTP/1.1\r\nHost: ");
    append_str(&mut out, target.host.as_str());
    append_str(&mut out, "\r\nConnection: close\r\n\r\n");
    from_chars(&out)
}

/// A response without the blank line that ends its headers.
#[derive(Debug, PartialEq, Eq, Structural)]
pub enum HttpResponseError {
    MissingHeaderSeparator,
}

/// The body of a bridge response: none unless the status line says
/// `HTTP/1.1 200` or `HTTP/1.0 200`; an error when the headers never end.
pub open spec fn response_body(response: Seq<char>) -> Result<Option<Seq<char>>, HttpResponseError> {
    match find(response, "\r\n\r\n"@) {
        None => Err(HttpResponseError::MissingHeaderSeparator),
        Some(i) => {
            let headers = response.take(i);
            if starts_with(headers, "HTTP/1.1 200"@) || starts_with(headers, "HTTP/1.0 200"@) {
                Ok(Some(response.skip(i + 4)))
            } else {
                Ok(None)
            }
        },
    }
}

/// Splits a bridge response into headers and body and checks its status.
pub fn http_response_body(response: &str) -> (res: Result<Option<String>, HttpResponseError>)
    ensures
        match res {
            Ok(Some(b)) => response_body(response@) == Ok::<Option<Seq<char>>, HttpResponseError>(
                Some(b@),
            ),
            Ok(None) => response_body(response@) == Ok::<Option<Seq<char>>, HttpResponseError>(
                None,
            ),
            Err(e) => response_body(response@) == Err::<Option<Seq<char>>, HttpResponseError>(e),
        },
{
    let r = to_chars(response);
    let sep = to_chars("\r\n\r\n");
    proof {
        reveal_strlit("\r\n\r\n");
    }
    match find_chars(&r, &sep) {
        None => Err(HttpResponseError::MissingHeaderSeparator),
        Some(i) => {
            proof {
                lemma_find_from(r@, sep@, 0);
                assert(sep@.len() == 4);
                assert(occurs_at(r@, sep@, i as int));
                assert(i + 4 <= r@.len());
            }
            let n = r.len();
            let headers = slice_chars(&r, 0, i);
            assert(headers@ =~= r@.take(i as int));
            let ok11 = to_chars("HTTP/1.1 200");
            let ok10 = to_chars("HTTP/1.0 200");
            if occurs_at_exec(&headers, &ok11, 0) || occurs_at_exec(&headers, &ok10, 0) {
                let body = slice_chars(&r, i + 4, n);
                assert(body@ =~= r@.skip(i + 4));
                Ok(Some(from_chars(&body)))
            } else {
                Ok(None)
            }
        },
    }
}

/// An agent as the CAMP REST bridge lists it.
#[derive(Debug)]
pub struct RestAgentRecord {
    pub id: String,
    pub instance_name: String,
    pub project: String,
    pub branch: String,
    pub port: u16,
    pub metadata: Vec<(String, String)>,
}

/// The value of the first metadata entry with key `key`.
pub open spec fn metadata_value(m: Seq<(String, String)>, key: Seq<char>) -> Option<Seq<char>> {
    if exists|i: int| 0 <= i < m.len() && (#[trigger] m[i]).0@ == key {
        let i = choose|i: int|
            0 <= i < m.len() && (#[trigger] m[i]).0@ == key && forall|j: int|
                0 <= j < i ==> (#[trigger] m[j]).0@ != key;
        Some(m[i].1@)
    } else {
        None
    }
}

fn metadata_lookup(m: &Vec<(String, String)>, key: &str) -> (res: Option<String>)
    ensures
        res.deep_view() == metadata_value(m@, key@),
{
    let mut i: usize = 0;
    while i < m.len()
        invariant
            i <= m@.len(),
            forall|j: int| 0 <= j < i ==> (#[trigger] m@[j]).0@ != key@,
        decreases m@.len() - i,
    {
        if text_eq(m[i].0.as_str(), key) {
            proof {
                let k = choose|k: int|
                    0 <= k < m@.len() && (#[trigger] m@[k]).0@ == key@ && forall|j: int|
                        0 <= j < k ==> (#[trigger] m@[j]).0@ != key@;
                if k > i {
                    assert(m@[i as int].0@ == key@);
                }
            }
            return Some(m[i].1.clone());
        }
        i += 1;
    }
    None
}

/// The peer a bridge record describes; the claimed branch is the
/// `intent_branch` metadata entry, if any.
pub fn peer_from_rest_record(record: &RestAgentRecord) -> (res: MeshPeer)
    ensures
        res.agent_id@ == record.id@,
        res.current_branch@ == record.branch@,
        res.current_project@ == record.project@,
        res.intent_branch.deep_view() == metadata_value(record.metadata@, INTENT_BRANCH@),
        res.fullname@ == record.instance_name@,
        res.port == record.port,
{
    MeshPeer {
        agent_id: record.id.clone(),
        current_branch: record.branch.clone(),
        current_project: record.project.clone(),
        intent_branch: metadata_lookup(&record.metadata, INTENT_BRANCH),
        fullname: record.instance_name.clone(),
        port: record.port,
    }
}

/// The peers the bridge records describe, in order.
pub fn peers_from_rest_records(records: &Vec<RestAgentRecord>) -> (res: Vec<MeshPeer>)
    ensures
        res@.len() == records@.len(),
        forall|i: int|
            0 <= i < res@.len() ==> {
                let p = #[trigger] res@[i];
                let r = records@[i];
                &&& p.agent_id@ == r.id@
                &&& p.current_branch@ == r.branch@
                &&& p.current_project@ == r.project@
                &&& p.intent_branch.deep_view() == metadata_value(r.metadata@, INTENT_BRANCH@)
                &&& p.fullname@ == r.instance_name@
                &&& p.port == r.port
            },
{
    let mut out: Vec<MeshPeer> = Vec::new();
    let mut i: usize = 0;
    while i < records.len()
        invariant
            i <= records@.len(),
            out@.len() == i,
            forall|k: int|
                0 <= k < i ==> {
                    let p = #[trigger] out@[k];
                    let r = records@[k];
                    &&& p.agent_id@ == r.id@
                    &&& p.current_branch@ == r.branch@
                    &&& p.current_project@ == r.project@
                    &&& p.intent_branch.deep_view() == metadata_value(r.metadata@, INTENT_BRANCH@)
                    &&& p.fullname@ == r.instance_name@
                    &&& p.port == r.port
                },
        decreases records@.len() - i,
    {
        out.push(peer_from_rest_record(&records[i]));
        i += 1;
    }
    out
}

/// The bridge URL asked: the environment's override, else the configured
/// URL, else the default bridge filtered by the agent's project.
pub fn rest_agents_url(env_url: Option<String>, config: &CampConfig) -> (res: String)
    ensures
        res@ == (match env_url {
            Some(u) => u@,
            None => match config.discovery.camp_rest_url {
                Some(u) => u@,
                None => "http://127.0.0.1:9999/agents"@ + "?project="@ + config.agent.project@,
            },
        }),
{
    match env_url {
        Some(u) => u,
        None => match config.camp_rest_url() {
            Some(u) => owned(u),
            None => {
                let mut out = to_chars(DEFAULT_CAMP_REST_URL);
                append_str(&mut out, "?project=");
                append_str(&mut out, config.agent.project.as_str());
                from_chars(&out)
            },
        },
    }
}

} // verus!
