//! Mesh peers as they are announced on the LAN: reading them from resolved
//! announcements and from the CAMP REST bridge, keeping a browse snapshot,
//! building the branch-claim announcement, the retry policy of mesh reads,
//! and the local state files of the tool.
use vstd::prelude::*;

use crate::config::{joined_path, join_path, CampConfig};
use crate::engine::{agent_text, strictly_sorted};
use crate::errors::GarcError;
use crate::text::{
    append_str, ascii_lower, ascii_lower_char, from_chars, is_ascii_alnum, is_ascii_alnum_char,
    lemma_strip_ends, lemma_strip_noop, lemma_strip_subrange, lex_le, lex_lt, owned,
    find, padded_decimal, push_padded_decimal, slice_chars, strip, strip_bounds, text_eq, text_le,
    to_chars, Strip,
};
use vstd::utf8::{decode_utf8, encode_utf8, valid_utf8};

verus! {

/// TXT key of the agent id.
pub const AGENT_ID: &'static str = "agent_id";

/// TXT key of the agent's current branch.
pub const CURRENT_BRANCH: &'static str = "current_branch";

/// TXT key of the agent's project.
pub const CURRENT_PROJECT: &'static str = "current_project";

/// TXT key of the branch an agent is claiming.
pub const INTENT_BRANCH: &'static str = "intent_branch";

/// Port announced for a claim when the agent has none configured.
pub const CLAIM_PORT_FALLBACK: u16 = 7000;

/// Name of the local claim-state file.
pub const CLAIM_STATE_FILE_NAME: &'static str = "claim-state.json";

/// Name of the file holding the latest checkout trace.
pub const LAST_TRACE_FILE_NAME: &'static str = "last-checkout-trace.json";

/// Name of the directory of past checkout traces.
pub const TRACE_HISTORY_DIR_NAME: &'static str = "trace-history";

/// How many past checkout traces are kept.
pub const TRACE_HISTORY_LIMIT: usize = 10;

/// How many times the mesh is read after a claim before giving up.
pub const CLAIM_DISCOVERY_RETRIES: usize = 3;

/// The CAMP REST bridge asked when none is configured.
pub const DEFAULT_CAMP_REST_URL: &'static str = "http://127.0.0.1:9999/agents";

/// One agent seen on the mesh: its identity, the project and branch it works
/// on, the branch it is claiming (if a checkout is in flight), and the name
/// and port of the announcement it came from.
#[derive(Debug, PartialEq, Eq)]
pub struct MeshPeer {
    pub agent_id: String,
    pub current_branch: String,
    pub current_project: String,
    pub intent_branch: Option<String>,
    pub fullname: String,
    pub port: u16,
}

impl MeshPeer {
    /// A field-by-field copy.
    pub fn duplicate(&self) -> (res: MeshPeer)
        ensures
            res == *self,
    {
        MeshPeer {
            agent_id: self.agent_id.clone(),
            current_branch: self.current_branch.clone(),
            current_project: self.current_project.clone(),
            intent_branch: match &self.intent_branch {
                Some(b) => Some(b.clone()),
                None => None,
            },
            fullname: self.fullname.clone(),
            port: self.port,
        }
    }
}

/// The claim the local agent has in flight, as recorded in the repository.
#[derive(Debug, PartialEq, Eq)]
pub struct LocalClaimState {
    pub agent_id: String,
    pub current_project: String,
    pub current_branch: String,
    pub intent_branch: String,
}

/// One TXT property of a resolved announcement: a key and, unless it is a
/// boolean key, the raw value bytes.
#[derive(Debug)]
pub struct TxtEntry {
    pub key: String,
    pub value: Option<Vec<u8>>,
}

/// What a resolved mDNS announcement carries: its full name, port and TXT
/// properties, in announcement order.
#[derive(Debug)]
pub struct ResolvedRecord {
    pub fullname: String,
    pub port: u16,
    pub properties: Vec<TxtEntry>,
}

/// The bytes `bytes` decoded as UTF-8, if they are valid UTF-8; calls
/// `String::from_utf8`, which the standard library documents as failing
/// exactly on invalid UTF-8 and otherwise keeping the text the bytes encode.
#[verifier::external_body]
fn utf8_text(bytes: Vec<u8>) -> (res: Option<String>)
    ensures
        res is Some <==> valid_utf8(bytes@),
        res matches Some(s) ==> s@ == decode_utf8(bytes@),
{
    String::from_utf8(bytes).ok()
}

fn copy_bytes(v: &Vec<u8>) -> (res: Vec<u8>)
    ensures
        res@ == v@,
{
    let mut out: Vec<u8> = Vec::new();
    let mut i: usize = 0;
    while i < v.len()
        invariant
            i <= v@.len(),
            out@ == v@.subrange(0, i as int),
        decreases v@.len() - i,
    {
        out.push(v[i]);
        assert(v@.subrange(0, i + 1) =~= v@.subrange(0, i as int).push(v@[i as int]));
        i += 1;
    }
    assert(v@.subrange(0, v@.len() as int) =~= v@);
    out
}

/// The index of the first property whose key is `key`.
pub open spec fn first_property(props: Seq<TxtEntry>, key: Seq<char>) -> Option<int> {
    if exists|i: int| 0 <= i < props.len() && #[trigger] props[i].key@ == key {
        Some(
            choose|i: int|
                0 <= i < props.len() && #[trigger] props[i].key@ == key && forall|j: int|
                    0 <= j < i ==> #[trigger] props[j].key@ != key,
        )
    } else {
        None
    }
}

/// The text of property `key`: the value of the first property with that
/// key, when it has a value that is valid UTF-8.
pub open spec fn property_text(props: Seq<TxtEntry>, key: Seq<char>) -> Option<Seq<char>> {
    match first_property(props, key) {
        Some(i) => match props[i].value {
            Some(b) => if valid_utf8(b@) {
                Some(decode_utf8(b@))
            } else {
                None
            },
            None => None,
        },
        None => None,
    }
}

/// The first property with key `key`, found by a scan.
fn find_property(props: &Vec<TxtEntry>, key: &str) -> (r: Option<usize>)
    ensures
        r matches Some(i) ==> i < props@.len() && first_property(props@, key@) == Some(i as int),
        r is None ==> first_property(props@, key@) is None,
{
    let mut i: usize = 0;
    while i < props.len()
        invariant
            i <= props@.len(),
            forall|j: int| 0 <= j < i ==> #[trigger] props@[j].key@ != key@,
        decreases props@.len() - i,
    {
        if text_eq(props[i].key.as_str(), key) {
            proof {
                let k = choose|k: int|
                    0 <= k < props@.len() && #[trigger] props@[k].key@ == key@ && forall|j: int|
                        0 <= j < k ==> #[trigger] props@[j].key@ != key@;
                if k < i {
                } else if k > i {
                    assert(props@[i as int].key@ == key@);
                }
            }
            return Some(i);
        }
        i += 1;
    }
    None
}

/// `e` is the error for a required property `field` that is unusable: the
/// value of its first occurrence is not UTF-8, or it is missing (or has no
/// value); reported for the announcement `fullname`.
pub open spec fn property_error(
    e: GarcError,
    props: Seq<TxtEntry>,
    fullname: Seq<char>,
    field: Seq<char>,
) -> bool {
    match first_property(props, field) {
        Some(i) if props[i].value is Some => e matches GarcError::InvalidTxtFieldEncoding {
            fullname: f,
            field: g,
        } && f@ == fullname && g@ == field,
        _ => e matches GarcError::MissingTxtField { fullname: f, field: g } && f@ == fullname
            && g@ == field,
    }
}

/// Reads a TXT property that an announcement must carry: the first property
/// with key `field` must exist, have a value, and that value must be UTF-8.
pub fn required_property(record: &ResolvedRecord, fullname: &str, field: &'static str) -> (res:
    Result<String, GarcError>)
    ensures
        res matches Ok(s) ==> property_text(record.properties@, field@) == Some(s@),
        res matches Err(e) ==> property_text(record.properties@, field@) is None,
        res matches Err(e) ==> property_error(e, record.properties@, fullname@, field@),
{
    let missing = GarcError::MissingTxtField { fullname: owned(fullname), field };
    match find_property(&record.properties, field) {
        None => Err(missing),
        Some(i) => match &record.properties[i].value {
            None => Err(missing),
            Some(bytes) => match utf8_text(copy_bytes(bytes)) {
                Some(s) => Ok(s),
                None => Err(GarcError::InvalidTxtFieldEncoding { fullname: owned(fullname), field }),
            },
        },
    }
}

/// Reads an optional TXT property: the text of the first property with key
/// `field`, if it has a UTF-8 value.
pub fn optional_property(record: &ResolvedRecord, field: &str) -> (res: Option<String>)
    ensures
        res.deep_view() == property_text(record.properties@, field@),
{
    match find_property(&record.properties, field) {
        None => None,
        Some(i) => match &record.properties[i].value {
            None => None,
            Some(bytes) => utf8_text(copy_bytes(bytes)),
        },
    }
}

impl MeshPeer {
    /// The peer a resolved announcement describes.  It must carry the agent
    /// id, current branch and current project as UTF-8 TXT properties; the
    /// claimed branch is optional.
    pub fn from_resolved_service(record: &ResolvedRecord) -> (res: Result<MeshPeer, GarcError>)
        ensures
            res is Ok <==> (property_text(record.properties@, AGENT_ID@) is Some && property_text(
                record.properties@,
                CURRENT_BRANCH@,
            ) is Some && property_text(record.properties@, CURRENT_PROJECT@) is Some),
            res matches Ok(p) ==> {
                &&& Some(p.agent_id@) == property_text(record.properties@, AGENT_ID@)
                &&& Some(p.current_branch@) == property_text(record.properties@, CURRENT_BRANCH@)
                &&& Some(p.current_project@) == property_text(record.properties@, CURRENT_PROJECT@)
                &&& p.intent_branch.deep_view() == property_text(
                    record.properties@,
                    INTENT_BRANCH@,
                )
                &&& p.fullname@ == record.fullname@
                &&& p.port == record.port
            },
            res matches Err(e) ==> if property_text(record.properties@, AGENT_ID@) is None {
                property_error(e, record.properties@, record.fullname@, AGENT_ID@)
            } else if property_text(record.properties@, CURRENT_BRANCH@) is None {
                property_error(e, record.properties@, record.fullname@, CURRENT_BRANCH@)
            } else {
                property_error(e, record.properties@, record.fullname@, CURRENT_PROJECT@)
            },
    {
        let fullname = record.fullname.clone();
        let agent_id = match required_property(record, fullname.as_str(), AGENT_ID) {
            Ok(v) => v,
            Err(e) => return Err(e),
        };
        let current_branch = match required_property(record, fullname.as_str(), CURRENT_BRANCH) {
            Ok(v) => v,
            Err(e) => return Err(e),
        };
        let current_project = match required_property(record, fullname.as_str(), CURRENT_PROJECT) {
            Ok(v) => v,
            Err(e) => return Err(e),
        };
        Ok(MeshPeer {
            agent_id,
            current_branch,
            current_project,
            intent_branch: optional_property(record, INTENT_BRANCH),
            fullname,
            port: record.port,
        })
    }
}

/// The dashed form of an agent id: ASCII letters and digits kept in lower
/// case, every other character replaced by `-`.
pub open spec fn dns_label_pass(s: Seq<char>) -> Seq<char> {
    s.map_values(|c: char| if is_ascii_alnum(c) { ascii_lower(c) } else { '-' })
}

/// The DNS label for an agent id: the dashed form without leading and
/// trailing dashes, or `agent` when nothing remains.
pub open spec fn sanitized_dns_label(s: Seq<char>) -> Seq<char> {
    let t = strip(dns_label_pass(s), Strip::Dashes);
    if t.len() == 0 {
        agent_text()
    } else {
        t
    }
}

/// A character that can stand in a DNS label made by `sanitize_dns_label`.
pub open spec fn dns_label_char(c: char) -> bool {
    (is_ascii_alnum(c) && ascii_lower(c) == c) || c == '-'
}

/// Makes an agent id usable as a DNS label.
pub fn sanitize_dns_label(value: &str) -> (res: String)
    ensures
        res@ == sanitized_dns_label(value@),
{
    let chars = to_chars(value);
    let mut out: Vec<char> = Vec::new();
    let mut i: usize = 0;
    while i < chars.len()
        invariant
            i <= chars@.len(),
            out@ == dns_label_pass(chars@.take(i as int)),
        decreases chars@.len() - i,
    {
        let c = chars[i];
        if is_ascii_alnum_char(c) {
            out.push(ascii_lower_char(c));
        } else {
            out.push('-');
        }
        assert(out@ =~= dns_label_pass(chars@.take(i + 1)));
        i += 1;
    }
    assert(chars@.take(chars@.len() as int) =~= chars@);
    let (lo, hi) = strip_bounds(&out, &Strip::Dashes);
    if lo == hi {
        let a = to_chars("agent");
        proof {
            reveal_strlit("agent");
        }
        assert(a@ =~= agent_text());
        from_chars(&a)
    } else {
        from_chars(&slice_chars(&out, lo, hi))
    }
}

/// A DNS label made by `sanitize_dns_label` is not empty, holds only lower
/// case ASCII letters, digits and `-`, and neither starts nor ends with `-`;
/// sanitizing it again changes nothing.
pub proof fn sanitized_dns_label_is_stable(s: Seq<char>)
    ensures
        sanitized_dns_label(s).len() > 0,
        forall|j: int|
            0 <= j < sanitized_dns_label(s).len() ==> dns_label_char(
                #[trigger] sanitized_dns_label(s)[j],
            ),
        sanitized_dns_label(s)[0] != '-',
        sanitized_dns_label(s).last() != '-',
        sanitized_dns_label(sanitized_dns_label(s)) == sanitized_dns_label(s),
{
    lemma_dns_label_shape(s);
    let u = sanitized_dns_label(s);
    lemma_dns_pass_of_label_chars(u);
    lemma_strip_noop(u, Strip::Dashes);
}

/// An agent id that starts and ends with an ASCII letter or digit keeps its
/// length as a DNS label: character for character, letters and digits are
/// kept (letters in lower case) and every other character becomes its own
/// `-`, runs included, so `Coder 01 / QA` gives `coder-01---qa`.
pub proof fn dns_label_maps_each_character(s: Seq<char>)
    requires
        s.len() > 0,
        is_ascii_alnum(s[0]),
        is_ascii_alnum(s.last()),
    ensures
        sanitized_dns_label(s).len() == s.len(),
        forall|j: int|
            0 <= j < s.len() ==> #[trigger] sanitized_dns_label(s)[j] == if is_ascii_alnum(s[j]) {
                ascii_lower(s[j])
            } else {
                '-'
            },
{
    let p = dns_label_pass(s);
    lemma_dns_pass_chars(s);
    assert(p[0] == ascii_lower(s[0]));
    assert(p.last() == ascii_lower(s.last()));
    lemma_strip_noop(p, Strip::Dashes);
}

proof fn lemma_dns_pass_chars(s: Seq<char>)
    ensures
        forall|j: int| 0 <= j < dns_label_pass(s).len() ==> dns_label_char(#[trigger] dns_label_pass(s)[j]),
{
    let p = dns_label_pass(s);
    assert forall|j: int| 0 <= j < p.len() implies dns_label_char(#[trigger] p[j]) by {
        let c = s[j];
        if is_ascii_alnum(c) && 65 <= c as u32 <= 90 {
            assert(ascii_lower(c) as u32 == c as u32 + 32);
        }
    }
}

proof fn lemma_dns_label_shape(s: Seq<char>)
    ensures
        sanitized_dns_label(s).len() > 0,
        forall|j: int|
            0 <= j < sanitized_dns_label(s).len() ==> dns_label_char(
                #[trigger] sanitized_dns_label(s)[j],
            ),
        sanitized_dns_label(s)[0] != '-',
        sanitized_dns_label(s).last() != '-',
{
    let p = dns_label_pass(s);
    let t = strip(p, Strip::Dashes);
    lemma_dns_pass_chars(s);
    lemma_strip_ends(p, Strip::Dashes);
    lemma_strip_subrange(p, Strip::Dashes);
    if t.len() > 0 {
        let (lo, hi) = choose|lo: int, hi: int|
            0 <= lo <= hi <= p.len() && t == p.subrange(lo, hi);
        assert forall|j: int| 0 <= j < t.len() implies dns_label_char(#[trigger] t[j]) by {
            assert(t[j] == p[lo + j]);
        }
    }
}

proof fn lemma_dns_pass_of_label_chars(u: Seq<char>)
    requires
        forall|j: int| 0 <= j < u.len() ==> dns_label_char(#[trigger] u[j]),
    ensures
        dns_label_pass(u) == u,
{
    assert forall|j: int| 0 <= j < u.len() implies #[trigger] dns_label_pass(u)[j] == u[j] by {
        assert(dns_label_char(u[j]));
    }
    assert(dns_label_pass(u) =~= u);
}

/// The service the local agent announces while a checkout claim is in flight.
#[derive(Debug)]
pub struct ClaimAnnouncement {
    pub service_type: String,
    pub instance_name: String,
    pub host_name: String,
    pub port: u16,
    pub properties: Vec<(String, String)>,
}

/// The TXT properties of a claim: agent id, project, current branch and the
/// claimed branch, in that order.
pub open spec fn claim_properties(config: CampConfig, branch: Seq<char>) -> Seq<(Seq<char>, Seq<char>)> {
    seq![
        (AGENT_ID@, config.agent.id@),
        (CURRENT_PROJECT@, config.agent.project@),
        (CURRENT_BRANCH@, config.agent.branch@),
        (INTENT_BRANCH@, branch),
    ]
}

pub open spec fn pair_texts(v: Seq<(String, String)>) -> Seq<(Seq<char>, Seq<char>)> {
    v.map_values(|p: (String, String)| (p.0@, p.1@))
}

/// The claim announced for `branch`: instance `garc-claim-<label>` (the
/// agent id made a DNS label), host `<instance>.local.`, the configured
/// service type, the agent's port or 7000, and the claim properties.
pub fn claim_announcement(config: &CampConfig, branch: &str) -> (res: ClaimAnnouncement)
    ensures
        res.service_type@ == (match config.discovery.service_type {
            Some(t) => t@,
            None => crate::config::default_service_type(),
        }),
        res.instance_name@ == "garc-claim-"@ + sanitized_dns_label(config.agent.id@),
        res.host_name@ == res.instance_name@ + ".local."@,
        res.port == (match config.agent.port {
            Some(p) => p,
            None => CLAIM_PORT_FALLBACK,
        }),
        pair_texts(res.properties@) == claim_properties(*config, branch@),
{
    let mut name: Vec<char> = Vec::new();
    append_str(&mut name, "garc-claim-");
    append_str(&mut name, sanitize_dns_label(config.agent.id.as_str()).as_str());
    let instance_name = from_chars(&name);
    append_str(&mut name, ".local.");
    let host_name = from_chars(&name);
    let mut properties: Vec<(String, String)> = Vec::new();
    properties.push((owned(AGENT_ID), config.agent.id.clone()));
    properties.push((owned(CURRENT_PROJECT), config.agent.project.clone()));
    properties.push((owned(CURRENT_BRANCH), config.agent.branch.clone()));
    properties.push((owned(INTENT_BRANCH), owned(branch)));
    assert(pair_texts(properties@) =~= claim_properties(*config, branch@));
    ClaimAnnouncement {
        service_type: owned(config.service_type()),
        instance_name,
        host_name,
        port: match config.agent.port {
            Some(p) => p,
            None => CLAIM_PORT_FALLBACK,
        },
        properties,
    }
}

/// The local claim record written while a checkout of `branch` is in flight.
pub fn local_claim_state(config: &CampConfig, branch: &str) -> (res: LocalClaimState)
    ensures
        res.agent_id@ == config.agent.id@,
        res.current_project@ == config.agent.project@,
        res.current_branch@ == config.agent.branch@,
        res.intent_branch@ == branch@,
{
    LocalClaimState {
        agent_id: config.agent.id.clone(),
        current_project: config.agent.project.clone(),
        current_branch: config.agent.branch.clone(),
        intent_branch: owned(branch),
    }
}

/// Records the branch the local agent is on.
pub fn update_local_branch(config: &mut CampConfig, branch: &str)
    ensures
        final(config).agent.branch@ == branch@,
        final(config).agent.id == old(config).agent.id,
        final(config).agent.project == old(config).agent.project,
        final(config).agent.role == old(config).agent.role,
        final(config).agent.port == old(config).agent.port,
        final(config).agent.status == old(config).agent.status,
        final(config).discovery == old(config).discovery,
{
    config.agent.branch = owned(branch);
}

/// Backoff before mesh read `attempt + 1`: 25 ms, then 50 ms, then 100 ms.
pub open spec fn backoff_ms(attempt: int) -> u64 {
    if attempt == 0 {
        25
    } else if attempt == 1 {
        50
    } else {
        100
    }
}

/// How long to wait after failed mesh read number `attempt` (counting from 0).
pub fn retry_backoff_ms(attempt: usize) -> (ms: u64)
    ensures
        ms == backoff_ms(attempt as int),
{
    match attempt {
        0 => 25,
        1 => 50,
        _ => 100,
    }
}

/// The backoff never shrinks and never exceeds 100 ms.
pub proof fn retry_backoff_is_bounded_and_growing(a: int, b: int)
    requires
        0 <= a <= b,
    ensures
        backoff_ms(a) <= backoff_ms(b) <= 100,
{
}

/// What to do after a mesh read.
#[derive(Debug, PartialEq, Eq)]
pub enum RetryStep {
    /// The read succeeded after `attempts` reads.
    Done { attempts: usize },
    /// Wait `backoff_ms`, then read again.
    Wait { backoff_ms: u64 },
    /// All reads failed; report the last error.
    GiveUp,
}

/// The retry policy for mesh reads after a claim: at most three reads, with
/// a backoff between failed ones.
pub fn next_discovery_step(attempt: usize, succeeded: bool) -> (step: RetryStep)
    requires
        attempt < CLAIM_DISCOVERY_RETRIES,
    ensures
        succeeded ==> step == (RetryStep::Done { attempts: (attempt + 1) as usize }),
        !succeeded && attempt + 1 < CLAIM_DISCOVERY_RETRIES ==> step == (RetryStep::Wait {
            backoff_ms: backoff_ms(attempt as int),
        }),
        !succeeded && attempt + 1 >= CLAIM_DISCOVERY_RETRIES ==> step == RetryStep::GiveUp,
{
    if succeeded {
        RetryStep::Done { attempts: attempt + 1 }
    } else if attempt + 1 < CLAIM_DISCOVERY_RETRIES {
        RetryStep::Wait { backoff_ms: retry_backoff_ms(attempt) }
    } else {
        RetryStep::GiveUp
    }
}

/// Read number `i` can end in an error.
pub open spec fn read_failed<E, R: Fn(usize) -> Result<Vec<MeshPeer>, E>>(read: R, i: usize) -> bool {
    exists|e: E| call_ensures(read, (i,), Err::<Vec<MeshPeer>, E>(e))
}

/// Reads the mesh up to three times after a claim, waiting the backoff
/// between failed reads: the peers of the first read that succeeds, with the
/// number of reads made, or the error of the last read.  `read` performs the
/// read with the given number (counting from 0) and `wait` sleeps for the
/// given milliseconds.
pub fn discover_peers_with_retry_metadata<E, R, W>(read: R, wait: W) -> (res: Result<
    (Vec<MeshPeer>, usize),
    E,
>) where R: Fn(usize) -> Result<Vec<MeshPeer>, E>, W: Fn(u64)
    requires
        forall|a: usize| a < CLAIM_DISCOVERY_RETRIES ==> call_requires(read, (a,)),
        forall|ms: u64| call_requires(wait, (ms,)),
    ensures
        match res {
            Ok((peers, attempts)) => {
                &&& 1 <= attempts <= CLAIM_DISCOVERY_RETRIES
                &&& call_ensures(read, ((attempts - 1) as usize,), Ok::<Vec<MeshPeer>, E>(peers))
                &&& forall|i: usize|
                    #![trigger call_ensures(wait, (backoff_ms(i as int),), ())]
                    #![trigger read_failed::<E, R>(read, i)]
                    i < attempts - 1 ==> read_failed::<E, R>(read, i) && call_ensures(
                        wait,
                        (backoff_ms(i as int),),
                        (),
                    )
            },
            Err(e) => {
                &&& call_ensures(
                    read,
                    ((CLAIM_DISCOVERY_RETRIES - 1) as usize,),
                    Err::<Vec<MeshPeer>, E>(e),
                )
                &&& forall|i: usize|
                    #![trigger call_ensures(wait, (backoff_ms(i as int),), ())]
                    #![trigger read_failed::<E, R>(read, i)]
                    i < CLAIM_DISCOVERY_RETRIES - 1 ==> read_failed::<E, R>(read, i) && call_ensures(
                        wait,
                        (backoff_ms(i as int),),
                        (),
                    )
            },
        },
{
    let mut attempt: usize = 0;
    loop
        invariant
            attempt < CLAIM_DISCOVERY_RETRIES,
            forall|a: usize| a < CLAIM_DISCOVERY_RETRIES ==> call_requires(read, (a,)),
            forall|ms: u64| call_requires(wait, (ms,)),
            forall|i: usize|
                #![trigger call_ensures(wait, (backoff_ms(i as int),), ())]
                #![trigger read_failed::<E, R>(read, i)]
                i < attempt ==> read_failed::<E, R>(read, i)
                    && call_ensures(wait, (backoff_ms(i as int),), ()),
        decreases CLAIM_DISCOVERY_RETRIES - attempt,
    {
        match read(attempt) {
            Ok(peers) => {
                return Ok((peers, attempt + 1));
            },
            Err(error) => {
                match next_discovery_step(attempt, false) {
                    RetryStep::Wait { backoff_ms: pause } => {
                        wait(pause);
                        proof {
                            assert(call_ensures(read, (attempt,), Err::<Vec<MeshPeer>, E>(error)));
                            assert(pause == backoff_ms(attempt as int));
                            assert forall|i: usize|
                                #![trigger call_ensures(wait, (backoff_ms(i as int),), ())]
                                #![trigger read_failed::<E, R>(read, i)]
                                i < attempt + 1 implies read_failed::<E, R>(read, i)
                                && call_ensures(wait, (backoff_ms(i as int),), ()) by {
                                if i == attempt {
                                    assert(call_ensures(read, (i,), Err::<Vec<MeshPeer>, E>(error)));
                                    assert(read_failed::<E, R>(read, i));
                                } else {
                                    assert(call_ensures(wait, (backoff_ms(i as int),), ()));
                                }
                            }
                        }
                        attempt = attempt + 1;
                    },
                    _ => {
                        return Err(error);
                    },
                }
            },
        }
    }
}

/// The peers of the first of up to three mesh reads that succeeds, or the
/// error of the last read: the result of the retry loop above without the
/// number of reads.
pub fn discover_peers_with_retry<E, R, W>(read: R, wait: W) -> (res: Result<Vec<MeshPeer>, E>) where
    R: Fn(usize) -> Result<Vec<MeshPeer>, E>,
    W: Fn(u64),

    requires
        forall|a: usize| a < CLAIM_DISCOVERY_RETRIES ==> call_requires(read, (a,)),
        forall|ms: u64| call_requires(wait, (ms,)),
    ensures
        match res {
            Ok(peers) => {
                ||| (call_ensures(read, (0usize,), Ok::<Vec<MeshPeer>, E>(peers)) && forall|i: usize|
                    #![trigger call_ensures(wait, (backoff_ms(i as int),), ())]
                    #![trigger read_failed::<E, R>(read, i)]
                    i < 0 ==> read_failed::<E, R>(read, i) && call_ensures(
                        wait,
                        (backoff_ms(i as int),),
                        (),
                    ))
                ||| (call_ensures(read, (1usize,), Ok::<Vec<MeshPeer>, E>(peers)) && forall|i: usize|
                    #![trigger call_ensures(wait, (backoff_ms(i as int),), ())]
                    #![trigger read_failed::<E, R>(read, i)]
                    i < 1 ==> read_failed::<E, R>(read, i) && call_ensures(
                        wait,
                        (backoff_ms(i as int),),
                        (),
                    ))
                ||| (call_ensures(read, (2usize,), Ok::<Vec<MeshPeer>, E>(peers)) && forall|i: usize|
                    #![trigger call_ensures(wait, (backoff_ms(i as int),), ())]
                    #![trigger read_failed::<E, R>(read, i)]
                    i < 2 ==> read_failed::<E, R>(read, i) && call_ensures(
                        wait,
                        (backoff_ms(i as int),),
                        (),
                    ))
            },
            Err(e) => {
                &&& call_ensures(
                    read,
                    ((CLAIM_DISCOVERY_RETRIES - 1) as usize,),
                    Err::<Vec<MeshPeer>, E>(e),
                )
                &&& forall|i: usize|
                    #![trigger call_ensures(wait, (backoff_ms(i as int),), ())]
                    #![trigger read_failed::<E, R>(read, i)]
                    i < CLAIM_DISCOVERY_RETRIES - 1 ==> read_failed::<E, R>(read, i) && call_ensures(
                        wait,
                        (backoff_ms(i as int),),
                        (),
                    )
            },
        },
{
    match discover_peers_with_retry_metadata(read, wait) {
        Ok((peers, _attempts)) => Ok(peers),
        Err(e) => Err(e),
    }
}

/// The backoffs slept before a read that succeeded at read number `attempts`.
pub fn backoff_schedule(attempts: usize) -> (res: Vec<u64>)
    requires
        attempts <= CLAIM_DISCOVERY_RETRIES,
    ensures
        attempts == 0 ==> res@.len() == 0,
        attempts > 0 ==> res@.len() == attempts - 1,
        forall|i: int| 0 <= i < res@.len() ==> #[trigger] res@[i] == backoff_ms(i),
{
    let mut out: Vec<u64> = Vec::new();
    let mut i: usize = 0;
    while i + 1 < attempts
        invariant
            attempts <= CLAIM_DISCOVERY_RETRIES,
            i <= attempts,
            attempts > 0 ==> i < attempts,
            out@.len() == i,
            forall|j: int| 0 <= j < out@.len() ==> #[trigger] out@[j] == backoff_ms(j),
        decreases attempts - i,
    {
        out.push(retry_backoff_ms(i));
        i += 1;
    }
    out
}

/// `.git/garc` inside `git_dir`.
pub fn garc_state_dir(git_dir: &str) -> (res: String)
    ensures
        res@ == joined_path(git_dir@, "garc"@),
{
    join_path(git_dir, "garc")
}

/// The local claim-state file.
pub fn claim_state_path(git_dir: &str) -> (res: String)
    ensures
        res@ == joined_path(joined_path(git_dir@, "garc"@), CLAIM_STATE_FILE_NAME@),
{
    join_path(garc_state_dir(git_dir).as_str(), CLAIM_STATE_FILE_NAME)
}

/// The file holding the latest checkout trace.
pub fn last_trace_path(git_dir: &str) -> (res: String)
    ensures
        res@ == joined_path(joined_path(git_dir@, "garc"@), LAST_TRACE_FILE_NAME@),
{
    join_path(garc_state_dir(git_dir).as_str(), LAST_TRACE_FILE_NAME)
}

/// The directory of past checkout traces.
pub fn trace_history_dir(git_dir: &str) -> (res: String)
    ensures
        res@ == joined_path(joined_path(git_dir@, "garc"@), TRACE_HISTORY_DIR_NAME@),
{
    join_path(garc_state_dir(git_dir).as_str(), TRACE_HISTORY_DIR_NAME)
}

/// The file name of a trace recorded at `nanos` nanoseconds since the epoch:
/// the number in decimal, zero-padded to 20 digits, then `.json`.
pub fn trace_history_file_name(nanos: u128) -> (res: String)
    ensures
        res@ == padded_decimal(nanos as nat, 20) + ".json"@,
{
    let mut out: Vec<char> = Vec::new();
    push_padded_decimal(&mut out, nanos, 20);
    append_str(&mut out, ".json");
    from_chars(&out)
}

/// The announcement names of a list of peers.
pub open spec fn names(s: Seq<MeshPeer>) -> Seq<Seq<char>> {
    s.map_values(|p: MeshPeer| p.fullname@)
}

/// Some position of `s` holding a peer announced as `k`.
pub open spec fn name_index(s: Seq<MeshPeer>, k: Seq<char>) -> int {
    choose|i: int| 0 <= i < s.len() && #[trigger] s[i].fullname@ == k
}

/// A list of peers read as a map from announcement name to peer.
pub open spec fn peer_map(s: Seq<MeshPeer>) -> Map<Seq<char>, MeshPeer> {
    Map::new(
        |k: Seq<char>| exists|i: int| 0 <= i < s.len() && #[trigger] s[i].fullname@ == k,
        |k: Seq<char>| s[name_index(s, k)],
    )
}

proof fn lemma_sorted_names_distinct(s: Seq<MeshPeer>, i: int, j: int)
    requires
        strictly_sorted(names(s)),
        0 <= i < s.len(),
        0 <= j < s.len(),
        i != j,
    ensures
        s[i].fullname@ != s[j].fullname@,
{
    if i < j {
        assert(lex_lt(names(s)[i], names(s)[j]));
    } else {
        assert(lex_lt(names(s)[j], names(s)[i]));
    }
}

proof fn lemma_peer_map_at(s: Seq<MeshPeer>, i: int)
    requires
        strictly_sorted(names(s)),
        0 <= i < s.len(),
    ensures
        peer_map(s).contains_key(s[i].fullname@),
        peer_map(s)[s[i].fullname@] == s[i],
{
    let k = s[i].fullname@;
    assert(exists|j: int| 0 <= j < s.len() && #[trigger] s[j].fullname@ == k);
    let j = name_index(s, k);
    assert(0 <= j < s.len() && s[j].fullname@ == k);
    if j != i {
        lemma_sorted_names_distinct(s, i, j);
    }
    assert(peer_map(s).dom().contains(k));
    assert(peer_map(s)[k] == s[j]);
}

/// The announcements seen while browsing the mesh, one per announcement
/// name: a later resolution of a name replaces the earlier one, a removal
/// forgets it.  Kept ordered by name.
pub struct PeerTable {
    entries: Vec<MeshPeer>,
}

impl PeerTable {
    #[verifier::type_invariant]
    spec fn sorted_by_name(self) -> bool {
        strictly_sorted(names(self.entries@))
    }

    /// The table as a map from announcement name to peer.
    pub closed spec fn view(&self) -> Map<Seq<char>, MeshPeer> {
        peer_map(self.entries@)
    }

    /// An empty table.
    pub fn new() -> (t: PeerTable)
        ensures
            t@ == Map::<Seq<char>, MeshPeer>::empty(),
    {
        let t = PeerTable { entries: Vec::new() };
        assert(t@ =~= Map::<Seq<char>, MeshPeer>::empty());
        t
    }

    /// Where `name` is, or where it would go.
    fn position(&self, name: &str) -> (k: usize)
        ensures
            k <= self.entries@.len(),
            forall|j: int| 0 <= j < k ==> lex_lt(#[trigger] self.entries@[j].fullname@, name@),
            k < self.entries@.len() ==> lex_le(name@, self.entries@[k as int].fullname@),
    {
        let mut k: usize = 0;
        while k < self.entries.len() && !text_le(name, self.entries[k].fullname.as_str())
            invariant
                k <= self.entries@.len(),
                forall|j: int| 0 <= j < k ==> lex_lt(#[trigger] self.entries@[j].fullname@, name@),
            decreases self.entries@.len() - k,
        {
            proof {
                crate::engine::lemma_not_le_is_gt(name@, self.entries@[k as int].fullname@);
            }
            k += 1;
        }
        k
    }

    /// Records a resolved announcement, replacing any earlier one of the
    /// same name.
    pub fn resolved(&mut self, peer: MeshPeer)
        ensures
            final(self)@ == old(self)@.insert(peer.fullname@, peer),
    {
        proof {
            use_type_invariant(&*self);
        }
        let ghost old_entries = self.entries@;
        let ghost name = peer.fullname@;
        let k = self.position(peer.fullname.as_str());
        let mut entries: Vec<MeshPeer> = Vec::new();
        std::mem::swap(&mut entries, &mut self.entries);
        proof {
            assert(entries@ == old_entries);
        }
        if k < entries.len() && text_eq(entries[k].fullname.as_str(), peer.fullname.as_str()) {
            entries.set(k, peer);
            proof {
                let n = entries@;
                assert(n == old_entries.update(k as int, peer));
                assert(names(n) =~= names(old_entries).update(k as int, name));
                assert forall|i: int, j: int| 0 <= i < j < names(n).len() implies lex_lt(
                    #[trigger] names(n)[i],
                    #[trigger] names(n)[j],
                ) by {
                    assert(names(old_entries)[i] == old_entries[i].fullname@);
                    assert(names(old_entries)[j] == old_entries[j].fullname@);
                }
                assert forall|key: Seq<char>| #[trigger]
                    peer_map(n).contains_key(key) <==> peer_map(old_entries).insert(
                        name,
                        peer,
                    ).contains_key(key) by {
                    if peer_map(n).contains_key(key) {
                        let i = choose|i: int| 0 <= i < n.len() && #[trigger] n[i].fullname@ == key;
                        if i != k {
                            assert(old_entries[i] == n[i]);
                        }
                    }
                    if peer_map(old_entries).contains_key(key) {
                        let i = choose|i: int|
                            0 <= i < old_entries.len() && #[trigger] old_entries[i].fullname@ == key;
                        if i != k {
                            assert(old_entries[i] == n[i]);
                        } else {
                            assert(n[i].fullname@ == key);
                        }
                    }
                    if key == name {
                        assert(n[k as int].fullname@ == key);
                    }
                }
                assert forall|key: Seq<char>| #[trigger]
                    peer_map(n).contains_key(key) implies peer_map(n)[key] == peer_map(
                    old_entries,
                ).insert(name, peer)[key] by {
                    let i = choose|i: int| 0 <= i < n.len() && #[trigger] n[i].fullname@ == key;
                    lemma_peer_map_at(n, i);
                    if i != k {
                        assert(old_entries[i] == n[i]);
                        lemma_peer_map_at(old_entries, i);
                        lemma_sorted_names_distinct(n, i, k as int);
                    }
                }
                assert(peer_map(n) =~= peer_map(old_entries).insert(name, peer));
            }
        } else {
            proof {
                if k < old_entries.len() {
                    assert(lex_lt(name, old_entries[k as int].fullname@));
                    assert forall|m: int| k <= m < old_entries.len() implies lex_lt(
                        name,
                        #[trigger] old_entries[m].fullname@,
                    ) by {
                        if m > k {
                            assert(names(old_entries)[k as int] == old_entries[k as int].fullname@);
                            assert(names(old_entries)[m] == old_entries[m].fullname@);
                            crate::engine::lemma_lex_lt_trans(
                                name,
                                old_entries[k as int].fullname@,
                                old_entries[m].fullname@,
                            );
                        }
                    }
                }
            }
            entries.insert(k, peer);
            proof {
                let n = entries@;
                assert(n == old_entries.insert(k as int, peer));
                assert forall|i: int, j: int| 0 <= i < j < names(n).len() implies lex_lt(
                    #[trigger] names(n)[i],
                    #[trigger] names(n)[j],
                ) by {
                    if j < k {
                        assert(names(old_entries)[i] == old_entries[i].fullname@);
                        assert(names(old_entries)[j] == old_entries[j].fullname@);
                    } else if j == k {
                    } else if i < k {
                        crate::engine::lemma_lex_lt_trans(n[i].fullname@, name, n[j].fullname@);
                    } else if i == k {
                    } else {
                        assert(names(old_entries)[i - 1] == old_entries[i - 1].fullname@);
                        assert(names(old_entries)[j - 1] == old_entries[j - 1].fullname@);
                    }
                }
                assert forall|key: Seq<char>| #[trigger]
                    peer_map(n).contains_key(key) <==> peer_map(old_entries).insert(
                        name,
                        peer,
                    ).contains_key(key) by {
                    if peer_map(n).contains_key(key) {
                        let i = choose|i: int| 0 <= i < n.len() && #[trigger] n[i].fullname@ == key;
                        if i < k {
                            assert(old_entries[i] == n[i]);
                        } else if i > k {
                            assert(old_entries[i - 1] == n[i]);
                        }
                    }
                    if peer_map(old_entries).contains_key(key) {
                        let i = choose|i: int|
                            0 <= i < old_entries.len() && #[trigger] old_entries[i].fullname@ == key;
                        if i < k {
                            assert(old_entries[i] == n[i]);
                        } else {
                            assert(old_entries[i] == n[i + 1]);
                        }
                    }
                    if key == name {
                        assert(n[k as int].fullname@ == key);
                    }
                }
                assert forall|key: Seq<char>| #[trigger]
                    peer_map(n).contains_key(key) implies peer_map(n)[key] == peer_map(
                    old_entries,
                ).insert(name, peer)[key] by {
                    let i = choose|i: int| 0 <= i < n.len() && #[trigger] n[i].fullname@ == key;
                    lemma_peer_map_at(n, i);
                    if i < k {
                        assert(old_entries[i] == n[i]);
                        lemma_peer_map_at(old_entries, i);
                    } else if i > k {
                        assert(old_entries[i - 1] == n[i]);
                        lemma_peer_map_at(old_entries, i - 1);
                    }
                }
                assert(peer_map(n) =~= peer_map(old_entries).insert(name, peer));
            }
        }
        self.entries = entries;
    }

    /// Forgets the announcement named `fullname`, if there is one.
    pub fn removed(&mut self, fullname: &str)
        ensures
            final(self)@ == old(self)@.remove(fullname@),
    {
        proof {
            use_type_invariant(&*self);
        }
        let ghost old_entries = self.entries@;
        let ghost name = fullname@;
        let k = self.position(fullname);
        if k < self.entries.len() && text_eq(self.entries[k].fullname.as_str(), fullname) {
            let mut entries: Vec<MeshPeer> = Vec::new();
        std::mem::swap(&mut entries, &mut self.entries);
            let _ = entries.remove(k);
            proof {
                let n = entries@;
                assert(n == old_entries.remove(k as int));
                assert forall|i: int, j: int| 0 <= i < j < names(n).len() implies lex_lt(
                    #[trigger] names(n)[i],
                    #[trigger] names(n)[j],
                ) by {
                    let i0 = if i < k { i } else { i + 1 };
                    let j0 = if j < k { j } else { j + 1 };
                    assert(names(old_entries)[i0] == n[i].fullname@);
                    assert(names(old_entries)[j0] == n[j].fullname@);
                }
                assert forall|key: Seq<char>| #[trigger]
                    peer_map(n).contains_key(key) <==> peer_map(old_entries).remove(
                        name,
                    ).contains_key(key) by {
                    if peer_map(n).contains_key(key) {
                        let i = choose|i: int| 0 <= i < n.len() && #[trigger] n[i].fullname@ == key;
                        let i0 = if i < k { i } else { i + 1 };
                        assert(old_entries[i0] == n[i]);
                        lemma_sorted_names_distinct(old_entries, i0, k as int);
                    }
                    if peer_map(old_entries).remove(name).contains_key(key) {
                        let i = choose|i: int|
                            0 <= i < old_entries.len() && #[trigger] old_entries[i].fullname@ == key;
                        if i < k {
                            assert(old_entries[i] == n[i]);
                        } else if i > k {
                            assert(old_entries[i] == n[i - 1]);
                        }
                    }
                }
                assert forall|key: Seq<char>| #[trigger]
                    peer_map(n).contains_key(key) implies peer_map(n)[key] == peer_map(
                    old_entries,
                ).remove(name)[key] by {
                    let i = choose|i: int| 0 <= i < n.len() && #[trigger] n[i].fullname@ == key;
                    let i0 = if i < k { i } else { i + 1 };
                    assert(old_entries[i0] == n[i]);
                    lemma_peer_map_at(n, i);
                    lemma_peer_map_at(old_entries, i0);
                }
                assert(peer_map(n) =~= peer_map(old_entries).remove(name));
            }
            self.entries = entries;
        } else {
            proof {
                assert forall|i: int| 0 <= i < old_entries.len() implies #[trigger]
                    old_entries[i].fullname@ != name by {
                    if i < k {
                    } else if i > k {
                        assert(names(old_entries)[k as int] == old_entries[k as int].fullname@);
                        assert(names(old_entries)[i] == old_entries[i].fullname@);
                        crate::engine::lemma_lex_lt_trans(
                            name,
                            old_entries[k as int].fullname@,
                            old_entries[i].fullname@,
                        );
                    }
                }
                assert(peer_map(old_entries) =~= peer_map(old_entries).remove(name));
            }
        }
    }

    /// The peers of the table, ordered by announcement name.
    pub fn into_peers(self) -> (res: Vec<MeshPeer>)
        ensures
            strictly_sorted(names(res@)),
            peer_map(res@) == self@,
    {
        proof {
            use_type_invariant(&self);
        }
        self.entries
    }
}

/// A browse snapshot forgets an announcement once it is removed, whatever was
/// resolved under that name before, and keeps every other name as it was.
pub proof fn removal_forgets_the_announcement(
    m: Map<Seq<char>, MeshPeer>,
    p: MeshPeer,
    other: Seq<char>,
)
    requires
        other != p.fullname@,
    ensures
        !m.insert(p.fullname@, p).remove(p.fullname@).contains_key(p.fullname@),
        m.insert(p.fullname@, p).remove(p.fullname@).contains_key(other) == m.contains_key(other),
        m.contains_key(other) ==> m.insert(p.fullname@, p).remove(p.fullname@)[other] == m[other],
{
}

#[verifier::external_type_specification]
#[verifier::external_body]
pub struct ExServiceInfo(mdns_sd::ServiceInfo);

/// A TXT property that mDNS service construction accepts: an ASCII key
/// without `=`, and at most 255 bytes for `key=value`.
pub open spec fn txt_property_acceptable(key: Seq<char>, value: Seq<char>) -> bool {
    &&& vstd::utf8::is_ascii_chars(key)
    &&& !key.contains('=')
    &&& encode_utf8(key).len() + encode_utf8(value).len() + 1 <= 255
}

pub open spec fn all_properties_acceptable(props: Seq<(Seq<char>, Seq<char>)>) -> bool {
    forall|i: int| 0 <= i < props.len() ==> txt_property_acceptable(#[trigger] props[i].0, props[i].1)
}

/// The text of the error with which `mdns_sd::ServiceInfo::new` rejects a
/// service of these fields and TXT properties (with no fixed address).
pub uninterp spec fn service_info_rejection(
    ty_domain: Seq<char>,
    my_name: Seq<char>,
    host_name: Seq<char>,
    port: u16,
    properties: Seq<(Seq<char>, Seq<char>)>,
) -> Seq<char>;

/// The TXT properties a service carries (`ServiceInfo::get_properties`),
/// each key with its value as text.
pub uninterp spec fn service_txt(info: mdns_sd::ServiceInfo) -> Seq<(Seq<char>, Seq<char>)>;

/// The service type of a service (`ServiceInfo::get_type`).
pub uninterp spec fn service_type(info: mdns_sd::ServiceInfo) -> Seq<char>;

/// The full name of a service (`ServiceInfo::get_fullname`).
pub uninterp spec fn service_fullname(info: mdns_sd::ServiceInfo) -> Seq<char>;

/// The host name of a service (`ServiceInfo::get_hostname`).
pub uninterp spec fn service_hostname(info: mdns_sd::ServiceInfo) -> Seq<char>;

/// The port of a service (`ServiceInfo::get_port`).
pub uninterp spec fn service_port(info: mdns_sd::ServiceInfo) -> u16;

/// Whether a service follows the host's addresses (`ServiceInfo::is_addr_auto`).
pub uninterp spec fn service_addr_auto(info: mdns_sd::ServiceInfo) -> bool;

/// `s` with every `.` and `\` escaped by a backslash, as an instance name
/// stands in the full name of a service.
pub open spec fn escaped_instance(s: Seq<char>) -> Seq<char>
    decreases s.len(),
{
    if s.len() == 0 {
        Seq::empty()
    } else {
        escaped_instance(s.drop_last()) + if s.last() == '.' {
            seq!['\\', '.']
        } else if s.last() == '\\' {
            seq!['\\', '\\']
        } else {
            seq![s.last()]
        }
    }
}

/// A host name with a doubled `.local.local.` ending cut back to `.local.`.
pub open spec fn normalized_host(h: Seq<char>) -> Seq<char> {
    if h.len() >= 13 && h.skip(h.len() - 13) == ".local.local."@ {
        h.take(h.len() - 6)
    } else {
        h
    }
}

/// No two keys are the same when ASCII letters are compared without case.
pub open spec fn keys_distinct_ignoring_case(props: Seq<(Seq<char>, Seq<char>)>) -> bool {
    forall|i: int, j: int|
        0 <= i < j < props.len() ==> (#[trigger] props[i]).0.map_values(|c: char| ascii_lower(c))
            != (#[trigger] props[j]).0.map_values(|c: char| ascii_lower(c))
}

/// Builds the description of an mDNS service with no fixed address; calls
/// `mdns_sd::ServiceInfo::new`, and on failure its error's `Display`.  Its
/// source rejects a property list only for a non-ASCII key, a key with `=`,
/// or a `key=value` longer than 255 bytes (after dropping later repeats of a
/// key, compared without case), and accepts an empty address list; the
/// rejection text is a function of the arguments alone (the properties are
/// checked in order).  A built service has the given port, the host name
/// with a doubled `.local.local.` cut back, no automatic addresses, and,
/// for a type without a `._sub.` subtype part, that type and the full name
/// `<escaped instance>.<type>`; with acceptable keys distinct without case,
/// it carries the properties as given, in order.
#[verifier::external_body]
fn new_service_info(
    ty_domain: &str,
    my_name: &str,
    host_name: &str,
    port: u16,
    properties: &Vec<(String, String)>,
) -> (res: Result<mdns_sd::ServiceInfo, String>)
    ensures
        all_properties_acceptable(pair_texts(properties@)) ==> res is Ok,
        res is Err ==> !all_properties_acceptable(pair_texts(properties@)),
        res matches Err(t) ==> t@ == service_info_rejection(
            ty_domain@,
            my_name@,
            host_name@,
            port,
            pair_texts(properties@),
        ),
        res matches Ok(info) ==> {
            &&& service_port(info) == port
            &&& service_hostname(info) == normalized_host(host_name@)
            &&& !service_addr_auto(info)
            &&& find(ty_domain@, "._sub."@) is None ==> service_type(info) == ty_domain@
                && service_fullname(info) == escaped_instance(my_name@) + "."@ + ty_domain@
            &&& all_properties_acceptable(pair_texts(properties@))
                && keys_distinct_ignoring_case(pair_texts(properties@)) ==> service_txt(info)
                == pair_texts(properties@)
        },
{
    mdns_sd::ServiceInfo::new(ty_domain, my_name, host_name, "", port, &properties[..])
        .map_err(|e| e.to_string())
}

/// The same service, with its addresses kept up to date with the host's;
/// calls `mdns_sd::ServiceInfo::enable_addr_auto`, which only sets that flag
/// and keeps everything else.
#[verifier::external_body]
fn with_addr_auto(info: mdns_sd::ServiceInfo) -> (res: mdns_sd::ServiceInfo)
    ensures
        service_addr_auto(res),
        service_txt(res) == service_txt(info),
        service_type(res) == service_type(info),
        service_fullname(res) == service_fullname(info),
        service_hostname(res) == service_hostname(info),
        service_port(res) == service_port(info),
{
    info.enable_addr_auto()
}

/// The service type a claim is announced under: the configured one, or the
/// CAMP default.
pub open spec fn claim_service_type(config: CampConfig) -> Seq<char> {
    match config.discovery.service_type {
        Some(t) => t@,
        None => crate::config::default_service_type(),
    }
}

/// The instance name of a claim: `garc-claim-` and the agent id as a DNS label.
pub open spec fn claim_instance_name(config: CampConfig) -> Seq<char> {
    "garc-claim-"@ + sanitized_dns_label(config.agent.id@)
}

/// The port a claim is announced with: the agent's, or the fallback.
pub open spec fn claim_port(config: CampConfig) -> u16 {
    match config.agent.port {
        Some(p) => p,
        None => CLAIM_PORT_FALLBACK,
    }
}

/// Why a claim service could not be built.
#[derive(Debug)]
pub enum ClaimServiceError {
    Rejected { detail: String },
}

/// The mDNS service that announces the claim for `branch`, built from the
/// claim announcement; it is refused only when a TXT property is unusable,
/// and then with the text the mDNS library gives for that announcement.
pub fn build_claim_service(config: &CampConfig, branch: &str) -> (res: Result<
    mdns_sd::ServiceInfo,
    ClaimServiceError,
>)
    ensures
        all_properties_acceptable(claim_properties(*config, branch@)) ==> (res matches Ok(info)
            && service_txt(info) == claim_properties(*config, branch@)),
        res is Err ==> !all_properties_acceptable(claim_properties(*config, branch@)),
        res matches Ok(info) ==> {
            &&& service_port(info) == claim_port(*config)
            &&& service_hostname(info) == normalized_host(
                claim_instance_name(*config) + ".local."@,
            )
            &&& service_addr_auto(info)
            &&& find(claim_service_type(*config), "._sub."@) is None ==> service_type(info)
                == claim_service_type(*config) && service_fullname(info) == claim_instance_name(
                *config,
            ) + "."@ + claim_service_type(*config)
        },
        res matches Err(ClaimServiceError::Rejected { detail }) ==> detail@
            == service_info_rejection(
            claim_service_type(*config),
            claim_instance_name(*config),
            claim_instance_name(*config) + ".local."@,
            claim_port(*config),
            claim_properties(*config, branch@),
        ),
{
    let announcement = claim_announcement(config, branch);
    proof {
        lemma_claim_keys_distinct(*config, branch@);
        lemma_claim_instance_unescaped(*config);
    }
    match new_service_info(
        announcement.service_type.as_str(),
        announcement.instance_name.as_str(),
        announcement.host_name.as_str(),
        announcement.port,
        &announcement.properties,
    ) {
        Ok(info) => Ok(with_addr_auto(info)),
        Err(detail) => Err(ClaimServiceError::Rejected { detail }),
    }
}

proof fn lemma_escape_noop(s: Seq<char>)
    requires
        forall|i: int| 0 <= i < s.len() ==> #[trigger] s[i] != '.' && s[i] != '\\',
    ensures
        escaped_instance(s) == s,
    decreases s.len(),
{
    if s.len() > 0 {
        lemma_escape_noop(s.drop_last());
        assert(s.drop_last().push(s.last()) =~= s);
        assert(s.drop_last() + seq![s.last()] =~= s);
    }
}

proof fn lemma_claim_instance_unescaped(config: CampConfig)
    ensures
        escaped_instance(claim_instance_name(config)) == claim_instance_name(config),
{
    reveal_strlit("garc-claim-");
    let label = sanitized_dns_label(config.agent.id@);
    sanitized_dns_label_is_stable(config.agent.id@);
    let n = claim_instance_name(config);
    assert forall|i: int| 0 <= i < n.len() implies #[trigger] n[i] != '.' && n[i] != '\\' by {
        if i >= 11 {
            assert(n[i] == label[i - 11]);
            assert(dns_label_char(label[i - 11]));
        }
    }
    lemma_escape_noop(n);
}

proof fn lemma_claim_keys_distinct(config: CampConfig, branch: Seq<char>)
    ensures
        keys_distinct_ignoring_case(claim_properties(config, branch)),
{
    reveal_strlit("agent_id");
    reveal_strlit("current_project");
    reveal_strlit("current_branch");
    reveal_strlit("intent_branch");
    let p = claim_properties(config, branch);
    assert forall|i: int, j: int| 0 <= i < j < p.len() implies (#[trigger] p[i]).0.map_values(
        |c: char| ascii_lower(c),
    ) != (#[trigger] p[j]).0.map_values(|c: char| ascii_lower(c)) by {
        assert(p[i].0.map_values(|c: char| ascii_lower(c)).len() == p[i].0.len());
        assert(p[j].0.map_values(|c: char| ascii_lower(c)).len() == p[j].0.len());
    }
}

proof fn lemma_key_acceptable(key: Seq<char>, value: Seq<char>)
    requires
        vstd::utf8::is_ascii_chars(key),
        !key.contains('='),
        key.len() <= 15,
        encode_utf8(value).len() <= 239,
    ensures
        txt_property_acceptable(key, value),
{
    vstd::utf8::is_ascii_chars_encode_utf8(key);
}

/// A claim is always announceable when the agent id, project, current branch
/// and claimed branch each take at most 239 bytes.
pub proof fn short_claims_are_announceable(config: CampConfig, branch: Seq<char>)
    requires
        encode_utf8(config.agent.id@).len() <= 239,
        encode_utf8(config.agent.project@).len() <= 239,
        encode_utf8(config.agent.branch@).len() <= 239,
        encode_utf8(branch).len() <= 239,
    ensures
        all_properties_acceptable(claim_properties(config, branch)),
{
    reveal_strlit("agent_id");
    reveal_strlit("current_project");
    reveal_strlit("current_branch");
    reveal_strlit("intent_branch");
    let p = claim_properties(config, branch);
    lemma_key_acceptable(AGENT_ID@, config.agent.id@);
    lemma_key_acceptable(CURRENT_PROJECT@, config.agent.project@);
    lemma_key_acceptable(CURRENT_BRANCH@, config.agent.branch@);
    lemma_key_acceptable(INTENT_BRANCH@, branch);
    assert forall|i: int| 0 <= i < p.len() implies txt_property_acceptable(#[trigger] p[i].0, p[i].1) by {
        if i == 0 {
        } else if i == 1 {
        } else if i == 2 {
        } else {
        }
    }
}

} // verus!
