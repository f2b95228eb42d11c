//! The decisions of the commands: project guard, checkout decision and its
//! trace, status summaries, commit guard, and the reports they produce.
use vstd::prelude::*;

use crate::config::CampConfig;
use crate::engine::{
    active_branch_occupier, claim_winner, claimant_ids, detect_collision, diverted_branch,
    diverted_branch_name, has_occupant, insert_sorted_unique, is_least, least,
    observed_claimants, spec_claim_winner, spec_collision, strictly_sorted, texts,
    CollisionResult,
};
use crate::errors::GarcError;
use crate::mesh::{
    backoff_ms, backoff_schedule, LocalClaimState, MeshPeer, CLAIM_DISCOVERY_RETRIES,
};
use crate::output::{
    ActiveClaimSummary, CampStatus, CampUpdateStatus, CheckoutOutput, CheckoutStatus, CommitOutput, CommitStatus, DecisionBasis,
    DecisionTraceEntry, ErrorOutput, InitOutput, ObservedPeerOutput, OccupiedBranchSummary,
    StatusOutput, TraceStatus, UpOutput,
};
use crate::text::{
    append_str, decimal, from_chars, lemma_lex_le_refl, lex_le, owned, push_decimal, text_eq,
    to_chars,
};

verus! {

#[verifier::external_type_specification]
#[verifier::external_body]
pub struct ExInstant(std::time::Instant);

/// Milliseconds since `started_at`; calls `Instant::elapsed`, whose result
/// depends on the clock, so nothing is stated of it.
#[verifier::external_body]
fn elapsed_ms(started_at: &std::time::Instant) -> u64 {
    started_at.elapsed().as_millis() as u64
}

/// The settle window of a checkout: the command-line override if given,
/// otherwise the configured one.
pub fn resolve_claim_settle_ms(config_value: u64, override_value: Option<u64>) -> (r: u64)
    ensures
        r == (match override_value {
            Some(v) => v,
            None => config_value,
        }),
{
    match override_value {
        Some(v) => v,
        None => config_value,
    }
}

/// The project named in the configuration, when it is the repository's
/// project; otherwise the mismatch error.
pub fn validated_project(repo_project: &str, config: &CampConfig, config_path: &str) -> (res:
    Result<String, GarcError>)
    ensures
        res is Ok <==> config.agent.project@ == repo_project@,
        res matches Ok(p) ==> p@ == repo_project@,
        res matches Err(e) ==> e matches GarcError::ProjectMismatch {
            config_path: c,
            config_project: p,
            repo_project: r,
        } && c@ == config_path@ && p@ == config.agent.project@ && r@ == repo_project@,
{
    if text_eq(config.agent.project.as_str(), repo_project) {
        Ok(config.agent.project.clone())
    } else {
        Err(
            GarcError::ProjectMismatch {
                config_path: owned(config_path),
                config_project: config.agent.project.clone(),
                repo_project: owned(repo_project),
            },
        )
    }
}

/// Appends `event` to the checkout trace, stamped with the milliseconds
/// elapsed since `started_at`.
pub fn record_trace_entry(
    entries: &mut Vec<DecisionTraceEntry>,
    started_at: &std::time::Instant,
    event: String,
)
    ensures
        final(entries)@.len() == old(entries)@.len() + 1,
        final(entries)@.subrange(0, old(entries)@.len() as int) == old(entries)@,
        final(entries)@.last().event == event,
{
    let at_ms = elapsed_ms(started_at);
    entries.push(DecisionTraceEntry { event, at_ms });
    assert(final(entries)@.subrange(0, old(entries)@.len() as int) =~= old(entries)@);
}

/// The peers of `project`, in order.
pub open spec fn in_project(peers: Seq<MeshPeer>, project: Seq<char>) -> Seq<MeshPeer>
    decreases peers.len(),
{
    if peers.len() == 0 {
        Seq::empty()
    } else if peers.last().current_project@ == project {
        in_project(peers.drop_last(), project).push(peers.last())
    } else {
        in_project(peers.drop_last(), project)
    }
}

/// The peers of `project`, in order.
pub fn peers_in_project(peers: &[MeshPeer], project: &str) -> (res: Vec<MeshPeer>)
    ensures
        res@ == in_project(peers@, project@),
{
    let mut out: Vec<MeshPeer> = Vec::new();
    let mut i: usize = 0;
    while i < peers.len()
        invariant
            i <= peers@.len(),
            out@ == in_project(peers@.take(i as int), project@),
        decreases peers@.len() - i,
    {
        assert(peers@.take(i + 1).drop_last() =~= peers@.take(i as int));
        if text_eq(peers[i].current_project.as_str(), project) {
            out.push(peers[i].duplicate());
        }
        i += 1;
    }
    assert(peers@.take(peers@.len() as int) =~= peers@);
    out
}

/// What a checkout report shows of a peer.
pub open spec fn observed_view(p: MeshPeer) -> (Seq<char>, Seq<char>, Option<Seq<char>>) {
    (p.agent_id@, p.current_branch@, p.intent_branch.deep_view())
}

pub open spec fn output_view(o: ObservedPeerOutput) -> (Seq<char>, Seq<char>, Option<Seq<char>>) {
    (o.agent_id@, o.current_branch@, o.intent_branch.deep_view())
}

/// The peers of `project`, in order, as a checkout report shows them.
pub fn observed_peer_outputs(peers: &[MeshPeer], project: &str) -> (res: Vec<ObservedPeerOutput>)
    ensures
        res@.map_values(|o: ObservedPeerOutput| output_view(o)) == in_project(
            peers@,
            project@,
        ).map_values(|p: MeshPeer| observed_view(p)),
{
    let mut out: Vec<ObservedPeerOutput> = Vec::new();
    let mut i: usize = 0;
    while i < peers.len()
        invariant
            i <= peers@.len(),
            out@.map_values(|o: ObservedPeerOutput| output_view(o)) == in_project(
                peers@.take(i as int),
                project@,
            ).map_values(|p: MeshPeer| observed_view(p)),
        decreases peers@.len() - i,
    {
        assert(peers@.take(i + 1).drop_last() =~= peers@.take(i as int));
        let p = &peers[i];
        if text_eq(p.current_project.as_str(), project) {
            let ghost before = out@;
            out.push(
                ObservedPeerOutput {
                    agent_id: p.agent_id.clone(),
                    current_branch: p.current_branch.clone(),
                    intent_branch: match &p.intent_branch {
                        Some(b) => Some(b.clone()),
                        None => None,
                    },
                },
            );
            assert(out@.map_values(|o: ObservedPeerOutput| output_view(o)) =~= before.map_values(
                |o: ObservedPeerOutput| output_view(o),
            ).push(observed_view(*p)));
            assert(in_project(peers@.take(i + 1), project@).map_values(|p: MeshPeer| observed_view(p))
                =~= in_project(peers@.take(i as int), project@).map_values(
                |p: MeshPeer| observed_view(p),
            ).push(observed_view(*p)));
        }
        i += 1;
    }
    assert(peers@.take(peers@.len() as int) =~= peers@);
    out
}

/// The texts of `vals`, sorted and without duplicates.
pub fn sorted_unique(vals: &Vec<String>) -> (res: Vec<String>)
    ensures
        strictly_sorted(texts(res@)),
        texts(res@).to_set() == texts(vals@).to_set(),
{
    let mut out: Vec<String> = Vec::new();
    let mut i: usize = 0;
    assert(texts(out@).to_set() =~= texts(vals@.take(0)).to_set());
    while i < vals.len()
        invariant
            i <= vals@.len(),
            strictly_sorted(texts(out@)),
            texts(out@).to_set() == texts(vals@.take(i as int)).to_set(),
        decreases vals@.len() - i,
    {
        insert_sorted_unique(&mut out, vals[i].clone());
        assert(texts(vals@.take(i + 1)) =~= texts(vals@.take(i as int)).push(vals@[i as int]@));
        proof {
            lemma_push_to_set(texts(vals@.take(i as int)), vals@[i as int]@);
        }
        i += 1;
    }
    assert(vals@.take(vals@.len() as int) =~= vals@);
    out
}

/// The ids of the peers whose current branch is `b`, in order.
pub open spec fn ids_on_branch(peers: Seq<MeshPeer>, b: Seq<char>) -> Seq<Seq<char>>
    decreases peers.len(),
{
    if peers.len() == 0 {
        Seq::empty()
    } else if peers.last().current_branch@ == b {
        ids_on_branch(peers.drop_last(), b).push(peers.last().agent_id@)
    } else {
        ids_on_branch(peers.drop_last(), b)
    }
}

/// `p` announces a claim on `b`.
pub open spec fn claims_branch(p: MeshPeer, b: Seq<char>) -> bool {
    p.intent_branch matches Some(x) && x@ == b
}

/// The ids of the peers claiming `b`, in order.
pub open spec fn ids_claiming(peers: Seq<MeshPeer>, b: Seq<char>) -> Seq<Seq<char>>
    decreases peers.len(),
{
    if peers.len() == 0 {
        Seq::empty()
    } else if peers.last().intent_branch matches Some(x) && x@ == b {
        ids_claiming(peers.drop_last(), b).push(peers.last().agent_id@)
    } else {
        ids_claiming(peers.drop_last(), b)
    }
}

/// The branches the peers claim, in order.
pub open spec fn claimed_branches(peers: Seq<MeshPeer>) -> Seq<Seq<char>>
    decreases peers.len(),
{
    if peers.len() == 0 {
        Seq::empty()
    } else if peers.last().intent_branch is Some {
        claimed_branches(peers.drop_last()).push(peers.last().intent_branch->0@)
    } else {
        claimed_branches(peers.drop_last())
    }
}

/// The branches shown as occupied: the local branch and every peer's branch.
pub open spec fn occupied_branch_set(local_branch: Seq<char>, peers: Seq<MeshPeer>) -> Set<Seq<char>> {
    peers.map_values(|p: MeshPeer| p.current_branch@).to_set().insert(local_branch)
}

/// The agents shown on branch `b`: the peers on it, and the local agent when
/// `b` is the local branch.
pub open spec fn occupants_shown(
    local_agent: Seq<char>,
    local_branch: Seq<char>,
    peers: Seq<MeshPeer>,
    b: Seq<char>,
) -> Set<Seq<char>> {
    if b == local_branch {
        ids_on_branch(peers, b).to_set().insert(local_agent)
    } else {
        ids_on_branch(peers, b).to_set()
    }
}

/// The branches shown as claimed: every peer's claimed branch, and the
/// branch of the local claim in flight.
pub open spec fn claimed_branch_set(local_claim: Option<Seq<char>>, peers: Seq<MeshPeer>) -> Set<
    Seq<char>,
> {
    match local_claim {
        Some(c) => claimed_branches(peers).to_set().insert(c),
        None => claimed_branches(peers).to_set(),
    }
}

/// The agents shown claiming `b`: the peers claiming it, and the local agent
/// when its claim in flight is for `b`.
pub open spec fn claimants_shown(
    local_agent: Seq<char>,
    local_claim: Option<Seq<char>>,
    peers: Seq<MeshPeer>,
    b: Seq<char>,
) -> Set<Seq<char>> {
    if local_claim == Some(b) {
        ids_claiming(peers, b).to_set().insert(local_agent)
    } else {
        ids_claiming(peers, b).to_set()
    }
}

fn ids_on_branch_exec(peers: &[MeshPeer], b: &str) -> (res: Vec<String>)
    ensures
        texts(res@) == ids_on_branch(peers@, b@),
{
    let mut out: Vec<String> = Vec::new();
    let mut i: usize = 0;
    while i < peers.len()
        invariant
            i <= peers@.len(),
            texts(out@) == ids_on_branch(peers@.take(i as int), b@),
        decreases peers@.len() - i,
    {
        assert(peers@.take(i + 1).drop_last() =~= peers@.take(i as int));
        if text_eq(peers[i].current_branch.as_str(), b) {
            out.push(peers[i].agent_id.clone());
            assert(texts(out@) =~= ids_on_branch(peers@.take(i + 1), b@));
        }
        i += 1;
    }
    assert(peers@.take(peers@.len() as int) =~= peers@);
    out
}

fn ids_claiming_exec(peers: &[MeshPeer], b: &str) -> (res: Vec<String>)
    ensures
        texts(res@) == ids_claiming(peers@, b@),
{
    let mut out: Vec<String> = Vec::new();
    let mut i: usize = 0;
    while i < peers.len()
        invariant
            i <= peers@.len(),
            texts(out@) == ids_claiming(peers@.take(i as int), b@),
        decreases peers@.len() - i,
    {
        assert(peers@.take(i + 1).drop_last() =~= peers@.take(i as int));
        let claims = match &peers[i].intent_branch {
            Some(x) => text_eq(x.as_str(), b),
            None => false,
        };
        if claims {
            out.push(peers[i].agent_id.clone());
            assert(texts(out@) =~= ids_claiming(peers@.take(i + 1), b@));
        }
        i += 1;
    }
    assert(peers@.take(peers@.len() as int) =~= peers@);
    out
}

proof fn lemma_push_to_set(a: Seq<Seq<char>>, x: Seq<char>)
    ensures
        a.push(x).to_set() == a.to_set().insert(x),
{
    a.lemma_push_to_set_commute(x);
}

/// `res` lists the occupied branches of the status report: each branch shown
/// once, in order, with the agents on it sorted and without duplicates.
pub open spec fn occupied_summaries_shown(
    res: Seq<OccupiedBranchSummary>,
    local_agent: Seq<char>,
    local_branch: Seq<char>,
    peers: Seq<MeshPeer>,
) -> bool {
    &&& strictly_sorted(res.map_values(|o: OccupiedBranchSummary| o.branch@))
    &&& res.map_values(|o: OccupiedBranchSummary| o.branch@).to_set() == occupied_branch_set(
        local_branch,
        peers,
    )
    &&& forall|i: int|
        0 <= i < res.len() ==> strictly_sorted(texts(#[trigger] res[i].occupied_by@)) && texts(
            res[i].occupied_by@,
        ).to_set() == occupants_shown(local_agent, local_branch, peers, res[i].branch@)
}

/// `res` lists the claims of the status report: each claimed branch once,
/// in order, with its claimants sorted and without duplicates, and the
/// least of them as the winner.
pub open spec fn claim_summaries_shown(
    res: Seq<ActiveClaimSummary>,
    local_agent: Seq<char>,
    local_claim: Option<Seq<char>>,
    peers: Seq<MeshPeer>,
) -> bool {
    &&& strictly_sorted(res.map_values(|o: ActiveClaimSummary| o.branch@))
    &&& res.map_values(|o: ActiveClaimSummary| o.branch@).to_set() == claimed_branch_set(
        local_claim,
        peers,
    )
    &&& forall|i: int|
        0 <= i < res.len() ==> {
            let c = #[trigger] res[i];
            let shown = claimants_shown(local_agent, local_claim, peers, c.branch@);
            &&& strictly_sorted(texts(c.claimants@))
            &&& texts(c.claimants@).to_set() == shown
            &&& c.claimants@.len() > 0
            &&& c.claim_winner@ == c.claimants@[0]@
            &&& is_least(c.claim_winner@, shown)
        }
}

/// The branches of the project with the agents on each: the local branch
/// (with the local agent) and every peer's branch, sorted, each with its
/// agents sorted and without duplicates.
pub fn occupied_branch_summaries(local_agent_id: &str, local_branch: &str, peers: &[MeshPeer]) -> (res:
    Vec<OccupiedBranchSummary>)
    ensures
        occupied_summaries_shown(res@, local_agent_id@, local_branch@, peers@),
{
    let mut all: Vec<String> = Vec::new();
    all.push(owned(local_branch));
    let mut i: usize = 0;
    while i < peers.len()
        invariant
            i <= peers@.len(),
            texts(all@) == seq![local_branch@] + peers@.take(i as int).map_values(
                |p: MeshPeer| p.current_branch@,
            ),
        decreases peers@.len() - i,
    {
        let ghost before = texts(all@);
        all.push(peers[i].current_branch.clone());
        assert(peers@.take(i + 1).map_values(|p: MeshPeer| p.current_branch@) =~= peers@.take(
            i as int,
        ).map_values(|p: MeshPeer| p.current_branch@).push(peers@[i as int].current_branch@));
        assert(texts(all@) =~= before.push(peers@[i as int].current_branch@));
        assert(texts(all@) =~= seq![local_branch@] + peers@.take(i + 1).map_values(
            |p: MeshPeer| p.current_branch@,
        ));
        i += 1;
    }
    assert(peers@.take(peers@.len() as int) =~= peers@);
    let ghost cb = peers@.map_values(|p: MeshPeer| p.current_branch@);
    assert(texts(all@).to_set() =~= cb.to_set().insert(local_branch@)) by {
        assert(texts(all@) =~= seq![local_branch@] + cb);
        vstd::seq_lib::seq_to_set_distributes_over_add(seq![local_branch@], cb);
        assert(seq![local_branch@].to_set() =~= set![local_branch@]) by {
            assert(seq![local_branch@][0] == local_branch@);
        }
    }
    let branches = sorted_unique(&all);
    let mut out: Vec<OccupiedBranchSummary> = Vec::new();
    let mut k: usize = 0;
    while k < branches.len()
        invariant
            k <= branches@.len(),
            strictly_sorted(texts(branches@)),
            out@.map_values(|o: OccupiedBranchSummary| o.branch@) == texts(branches@).take(k as int),
            forall|i: int|
                0 <= i < out@.len() ==> strictly_sorted(texts(#[trigger] out@[i].occupied_by@))
                    && texts(out@[i].occupied_by@).to_set() == occupants_shown(
                    local_agent_id@,
                    local_branch@,
                    peers@,
                    out@[i].branch@,
                ),
        decreases branches@.len() - k,
    {
        let b = &branches[k];
        let mut ids = ids_on_branch_exec(peers, b.as_str());
        let ghost on = texts(ids@);
        if text_eq(b.as_str(), local_branch) {
            ids.push(owned(local_agent_id));
            assert(texts(ids@) =~= on.push(local_agent_id@));
            proof {
                lemma_push_to_set(on, local_agent_id@);
            }
        }
        let occupied_by = sorted_unique(&ids);
        let ghost before = out@;
        out.push(OccupiedBranchSummary { branch: b.clone(), occupied_by });
        assert(texts(branches@).take(k + 1) =~= texts(branches@).take(k as int).push(b@));
        assert(out@.map_values(|o: OccupiedBranchSummary| o.branch@) =~= before.map_values(
            |o: OccupiedBranchSummary| o.branch@,
        ).push(b@));
        assert forall|i: int|
            0 <= i < out@.len() implies strictly_sorted(texts(#[trigger] out@[i].occupied_by@))
            && texts(out@[i].occupied_by@).to_set() == occupants_shown(
            local_agent_id@,
            local_branch@,
            peers@,
            out@[i].branch@,
        ) by {
            if i < before.len() {
                assert(out@[i] == before[i]);
            }
        }
        k += 1;
    }
    assert(texts(branches@).take(branches@.len() as int) =~= texts(branches@));
    out
}

/// The branches claimed in the project with their claimants: every peer's
/// claimed branch and the branch of the local claim in flight (with the
/// local agent), sorted; each with its claimants sorted and without
/// duplicates, and the first of them as the winner.
pub fn active_claim_summaries(
    local_agent_id: &str,
    local_claim_state: Option<&LocalClaimState>,
    peers: &[MeshPeer],
) -> (res: Vec<ActiveClaimSummary>)
    ensures
        claim_summaries_shown(
            res@,
            local_agent_id@,
            match local_claim_state {
                Some(c) => Some(c.intent_branch@),
                None => None,
            },
            peers@,
        ),
{
    let ghost local_claim: Option<Seq<char>> = match local_claim_state {
        Some(c) => Some(c.intent_branch@),
        None => None,
    };
    let mut all: Vec<String> = Vec::new();
    match local_claim_state {
        Some(c) => {
            all.push(c.intent_branch.clone());
        },
        None => {},
    }
    let ghost start = texts(all@);
    let mut i: usize = 0;
    while i < peers.len()
        invariant
            i <= peers@.len(),
            texts(all@) == start + claimed_branches(peers@.take(i as int)),
        decreases peers@.len() - i,
    {
        assert(peers@.take(i + 1).drop_last() =~= peers@.take(i as int));
        assert(peers@.take(i + 1).last() == peers@[i as int]);
        let ghost before = texts(all@);
        match &peers[i].intent_branch {
            Some(x) => {
                all.push(x.clone());
                assert(texts(all@) =~= before.push(x@));
                assert(claimed_branches(peers@.take(i + 1)) == claimed_branches(
                    peers@.take(i as int),
                ).push(x@));
                assert(texts(all@) =~= start + claimed_branches(peers@.take(i + 1)));
            },
            None => {},
        }
        i += 1;
    }
    assert(peers@.take(peers@.len() as int) =~= peers@);
    let ghost cb = claimed_branches(peers@);
    assert(texts(all@).to_set() =~= claimed_branch_set(local_claim, peers@)) by {
        assert forall|y: Seq<char>| texts(all@).contains(y) <==> claimed_branch_set(
            local_claim,
            peers@,
        ).contains(y) by {
            if texts(all@).contains(y) {
                let j = choose|j: int| 0 <= j < texts(all@).len() && texts(all@)[j] == y;
                if j >= start.len() {
                    assert(cb[j - start.len()] == y);
                }
            }
            if cb.contains(y) {
                let j = choose|j: int| 0 <= j < cb.len() && cb[j] == y;
                assert(texts(all@)[j + start.len()] == y);
            }
            if local_claim == Some(y) {
                assert(texts(all@)[0] == y);
            }
        }
    }
    let branches = sorted_unique(&all);
    let mut out: Vec<ActiveClaimSummary> = Vec::new();
    let mut k: usize = 0;
    while k < branches.len()
        invariant
            k <= branches@.len(),
            strictly_sorted(texts(branches@)),
            texts(branches@).to_set() == claimed_branch_set(local_claim, peers@),
            local_claim == (match local_claim_state {
                Some(c) => Some(c.intent_branch@),
                None => None,
            }),
            out@.map_values(|o: ActiveClaimSummary| o.branch@) == texts(branches@).take(k as int),
            forall|i: int|
                0 <= i < out@.len() ==> {
                    let c = #[trigger] out@[i];
                    let shown = claimants_shown(local_agent_id@, local_claim, peers@, c.branch@);
                    &&& strictly_sorted(texts(c.claimants@))
                    &&& texts(c.claimants@).to_set() == shown
                    &&& c.claimants@.len() > 0
                    &&& c.claim_winner@ == c.claimants@[0]@
                    &&& is_least(c.claim_winner@, shown)
                },
        decreases branches@.len() - k,
    {
        let b = &branches[k];
        let mut ids = ids_claiming_exec(peers, b.as_str());
        let ghost on = texts(ids@);
        let local_claims_b = match local_claim_state {
            Some(c) => text_eq(c.intent_branch.as_str(), b.as_str()),
            None => false,
        };
        if local_claims_b {
            ids.push(owned(local_agent_id));
            assert(texts(ids@) =~= on.push(local_agent_id@));
            proof {
                lemma_push_to_set(on, local_agent_id@);
            }
        }
        let ghost shown = claimants_shown(local_agent_id@, local_claim, peers@, b@);
        proof {
            if !local_claims_b {
                if let Some(c) = local_claim_state {
                    assert(c.intent_branch@ != b@);
                }
                assert(local_claim != Some(b@));
                assert(texts(ids@) == ids_claiming(peers@, b@));
            }
        }
        assert(texts(ids@).to_set() == shown);
        let claimants = sorted_unique(&ids);
        proof {
            assert(texts(branches@).to_set().contains(b@)) by {
                assert(texts(branches@)[k as int] == b@);
            }
            lemma_shown_claimants_nonempty(local_agent_id@, local_claim, peers@, b@);
            let w = choose|w: Seq<char>| shown.contains(w);
            assert(texts(claimants@).to_set().contains(w));
            assert(claimants@.len() > 0);
        }
        let claim_winner = claimants[0].clone();
        proof {
            let t = texts(claimants@);
            assert(t.to_set().contains(t[0]));
            assert forall|y: Seq<char>| #[trigger] shown.contains(y) implies lex_le(t[0], y) by {
                assert(t.to_set().contains(y));
                let j = choose|j: int| 0 <= j < t.len() && t[j] == y;
                if j > 0 {
                    assert(crate::text::lex_lt(t[0], t[j]));
                } else {
                    lemma_lex_le_refl(y);
                }
            }
        }
        let ghost before = out@;
        out.push(ActiveClaimSummary { branch: b.clone(), claimants, claim_winner });
        assert(texts(branches@).take(k + 1) =~= texts(branches@).take(k as int).push(b@));
        assert(out@.map_values(|o: ActiveClaimSummary| o.branch@) =~= before.map_values(
            |o: ActiveClaimSummary| o.branch@,
        ).push(b@));
        assert forall|i: int| 0 <= i < out@.len() implies {
            let c = #[trigger] out@[i];
            let shown = claimants_shown(local_agent_id@, local_claim, peers@, c.branch@);
            &&& strictly_sorted(texts(c.claimants@))
            &&& texts(c.claimants@).to_set() == shown
            &&& c.claimants@.len() > 0
            &&& c.claim_winner@ == c.claimants@[0]@
            &&& is_least(c.claim_winner@, shown)
        } by {
            if i < before.len() {
                assert(out@[i] == before[i]);
            }
        }
        k += 1;
    }
    assert(texts(branches@).take(branches@.len() as int) =~= texts(branches@));
    out
}

proof fn lemma_claimed_branch_has_claimant(peers: Seq<MeshPeer>, b: Seq<char>)
    requires
        claimed_branches(peers).to_set().contains(b),
    ensures
        ids_claiming(peers, b).len() > 0,
    decreases peers.len(),
{
    if peers.len() > 0 {
        let rest = claimed_branches(peers.drop_last());
        if !(peers.last().intent_branch matches Some(x) && x@ == b) {
            if peers.last().intent_branch is Some {
                lemma_push_to_set(rest, peers.last().intent_branch->0@);
            }
            lemma_claimed_branch_has_claimant(peers.drop_last(), b);
        }
    }
}

proof fn lemma_shown_claimants_nonempty(
    local: Seq<char>,
    local_claim: Option<Seq<char>>,
    peers: Seq<MeshPeer>,
    b: Seq<char>,
)
    requires
        claimed_branch_set(local_claim, peers).contains(b),
    ensures
        exists|w: Seq<char>| claimants_shown(local, local_claim, peers, b).contains(w),
{
    if local_claim == Some(b) {
        assert(claimants_shown(local, local_claim, peers, b).contains(local));
    } else {
        if let Some(c) = local_claim {
            assert(claimed_branches(peers).to_set().insert(c).contains(b));
        }
        assert(claimed_branches(peers).to_set().contains(b));
        lemma_claimed_branch_has_claimant(peers, b);
        let ids = ids_claiming(peers, b);
        assert(ids.contains(ids[0]));
        assert(ids.to_set().contains(ids[0]));
        assert(claimants_shown(local, local_claim, peers, b).contains(ids[0]));
    }
}

/// `label` followed by `value`.
pub fn labeled(label: &str, value: &str) -> (res: String)
    ensures
        res@ == label@ + value@,
{
    let mut out = to_chars(label);
    append_str(&mut out, value);
    from_chars(&out)
}

/// `label` followed by `n` in decimal.
pub fn labeled_number(label: &str, n: u64) -> (res: String)
    ensures
        res@ == label@ + decimal(n as nat),
{
    let mut out = to_chars(label);
    push_decimal(&mut out, n as u128);
    from_chars(&out)
}

/// The message of a checkout onto the requested branch.
pub open spec fn clear_message() -> Seq<char> {
    "Target branch is clear on the mesh. Checked out requested branch."@
}

/// The message of a diverted checkout.
pub open spec fn diverted_message() -> Seq<char> {
    "Target branch is currently locked. Checked out sub-branch to prevent race conditions."@
}

/// The message of a forced checkout.
pub open spec fn forced_message() -> Seq<char> {
    "Bypassed mesh collision checks and checked out the requested branch."@
}

/// The trace steps that close a checkout decision.
pub open spec fn closing_trace(
    peers: Seq<MeshPeer>,
    project: Seq<char>,
    requested: Seq<char>,
    local: Seq<char>,
) -> Seq<Seq<char>> {
    let no_claims = claimant_ids(peers, project, requested, local) == Set::<Seq<char>>::empty();
    match spec_collision(peers, project, requested, local) {
        None => (if no_claims {
            seq!["mesh_clear"@]
        } else {
            seq!["claim_winner:"@ + spec_claim_winner(peers, project, requested, local)]
        }) + seq!["decision:checked_out"@],
        Some(by) => seq![
            (if has_occupant(peers, project, requested, local) {
                "active_occupier:"@
            } else {
                "claim_winner:"@
            }) + by,
            "decision:diverted:"@ + diverted_branch(requested, local),
        ],
    }
}

/// Every checkout decided on the mesh closes its trace with the decision:
/// the last step starts with `decision:`.
pub proof fn checkout_trace_closes_with_the_decision(
    peers: Seq<MeshPeer>,
    project: Seq<char>,
    requested: Seq<char>,
    local: Seq<char>,
)
    ensures
        closing_trace(peers, project, requested, local).len() > 0,
        crate::text::starts_with(closing_trace(peers, project, requested, local).last(), "decision:"@),
{
    reveal_strlit("decision:");
    reveal_strlit("decision:checked_out");
    reveal_strlit("decision:diverted:");
    let t = closing_trace(peers, project, requested, local);
    let d = "decision:"@;
    assert(t.last().subrange(0, d.len() as int) =~= d);
}

/// What a checkout decides from one mesh snapshot.
#[derive(Debug)]
pub struct CheckoutDecision {
    pub status: CheckoutStatus,
    pub decision_basis: DecisionBasis,
    pub occupied_by: Option<String>,
    pub observed_claims: Vec<String>,
    pub observed_peers: Vec<ObservedPeerOutput>,
    pub claim_winner: Option<String>,
    pub actual_branch: String,
    pub message: String,
    pub closing_events: Vec<String>,
}

/// The checkout decision for `requested` from the mesh snapshot `peers`:
/// check out the requested branch when it is clear, or the agent's diverted
/// branch when another agent occupies it or wins its claim arbitration;
/// with the claims and peers that were seen and the closing trace steps.
pub fn decide_checkout(peers: &[MeshPeer], project: &str, requested: &str, local_agent_id: &str) -> (res:
    CheckoutDecision)
    ensures
        strictly_sorted(texts(res.observed_claims@)),
        texts(res.observed_claims@).to_set() == claimant_ids(
            peers@,
            project@,
            requested@,
            local_agent_id@,
        ),
        res.observed_peers@.map_values(|o: ObservedPeerOutput| output_view(o)) == in_project(
            peers@,
            project@,
        ).map_values(|p: MeshPeer| observed_view(p)),
        res.claim_winner.deep_view() == (if claimant_ids(
            peers@,
            project@,
            requested@,
            local_agent_id@,
        ) == Set::<Seq<char>>::empty() {
            None
        } else {
            Some(spec_claim_winner(peers@, project@, requested@, local_agent_id@))
        }),
        texts(res.closing_events@) == closing_trace(peers@, project@, requested@, local_agent_id@),
        match spec_collision(peers@, project@, requested@, local_agent_id@) {
            None => {
                &&& res.status == CheckoutStatus::CheckedOut
                &&& res.occupied_by is None
                &&& res.actual_branch@ == requested@
                &&& res.decision_basis == (if claimant_ids(
                    peers@,
                    project@,
                    requested@,
                    local_agent_id@,
                ) == Set::<Seq<char>>::empty() {
                    DecisionBasis::MeshClear
                } else {
                    DecisionBasis::ClaimArbitrationWon
                })
                &&& res.message@ == clear_message()
            },
            Some(by) => {
                &&& res.status == CheckoutStatus::Diverted
                &&& res.occupied_by.deep_view() == Some(by)
                &&& res.actual_branch@ == diverted_branch(requested@, local_agent_id@)
                &&& res.decision_basis == (if has_occupant(
                    peers@,
                    project@,
                    requested@,
                    local_agent_id@,
                ) {
                    DecisionBasis::BranchOccupied
                } else {
                    DecisionBasis::ClaimArbitrationLost
                })
                &&& res.message@ == diverted_message()
            },
        },
{
    let ghost ids = claimant_ids(peers@, project@, requested@, local_agent_id@);
    let observed_claims = observed_claimants(peers, project, requested, local_agent_id);
    let observed_peers = observed_peer_outputs(peers, project);
    let active_occupier = active_branch_occupier(peers, project, requested, local_agent_id);
    let no_claims = observed_claims.len() == 0;
    proof {
        let t = texts(observed_claims@);
        if no_claims {
            assert(t.to_set() =~= Set::<Seq<char>>::empty());
        } else {
            assert(t.to_set().contains(t[0]));
            assert(ids != Set::<Seq<char>>::empty());
        }
    }
    let winner = if no_claims {
        None
    } else {
        claim_winner(peers, project, requested, local_agent_id)
    };
    let mut closing_events: Vec<String> = Vec::new();
    match detect_collision(peers, project, requested, local_agent_id) {
        CollisionResult::Clear => {
            if no_claims {
                closing_events.push(owned("mesh_clear"));
            } else {
                let w = match &winner {
                    Some(w) => w.clone(),
                    None => owned(local_agent_id),
                };
                closing_events.push(labeled("claim_winner:", w.as_str()));
            }
            closing_events.push(owned("decision:checked_out"));
            assert(texts(closing_events@) =~= closing_trace(
                peers@,
                project@,
                requested@,
                local_agent_id@,
            ));
            CheckoutDecision {
                status: CheckoutStatus::CheckedOut,
                decision_basis: if no_claims {
                    DecisionBasis::MeshClear
                } else {
                    DecisionBasis::ClaimArbitrationWon
                },
                occupied_by: None,
                observed_claims,
                observed_peers,
                claim_winner: winner,
                actual_branch: owned(requested),
                message: owned(
                    "Target branch is clear on the mesh. Checked out requested branch.",
                ),
                closing_events,
            }
        },
        CollisionResult::Occupied { by } => {
            let actual_branch = diverted_branch_name(requested, local_agent_id);
            if active_occupier.is_some() {
                closing_events.push(labeled("active_occupier:", by.as_str()));
            } else {
                closing_events.push(labeled("claim_winner:", by.as_str()));
            }
            closing_events.push(labeled("decision:diverted:", actual_branch.as_str()));
            assert(texts(closing_events@) =~= closing_trace(
                peers@,
                project@,
                requested@,
                local_agent_id@,
            ));
            CheckoutDecision {
                status: CheckoutStatus::Diverted,
                decision_basis: if active_occupier.is_some() {
                    DecisionBasis::BranchOccupied
                } else {
                    DecisionBasis::ClaimArbitrationLost
                },
                occupied_by: Some(by),
                observed_claims,
                observed_peers,
                claim_winner: winner,
                actual_branch,
                message: owned(
                    "Target branch is currently locked. Checked out sub-branch to prevent race conditions.",
                ),
                closing_events,
            }
        },
    }
}

/// The trace steps of publishing a claim and waiting for it to settle.
pub fn claim_trace_events(requested: &str, claim_settle_ms: u64, settle_completed: bool) -> (res:
    Vec<String>)
    ensures
        texts(res@) == seq!["published_claim:"@ + requested@, "claim_settle_ms:"@ + decimal(claim_settle_ms as nat)]
            + (if settle_completed {
            seq!["claim_settle_complete"@]
        } else {
            Seq::empty()
        }),
{
    let mut out: Vec<String> = Vec::new();
    out.push(labeled("published_claim:", requested));
    out.push(labeled_number("claim_settle_ms:", claim_settle_ms));
    if settle_completed {
        out.push(owned("claim_settle_complete"));
    }
    assert(texts(out@) =~= seq!["published_claim:"@ + requested@, "claim_settle_ms:"@ + decimal(claim_settle_ms as nat)]
        + (if settle_completed {
        seq!["claim_settle_complete"@]
    } else {
        Seq::empty()
    }));
    out
}

/// The trace steps of reading the mesh after a claim.
pub fn mesh_read_events(peer_count: usize, read_attempts: usize) -> (res: Vec<String>)
    ensures
        texts(res@) == seq![
            "observed_peer_count:"@ + decimal(peer_count as nat),
            "mesh_read_attempts:"@ + decimal(read_attempts as nat),
        ],
{
    let mut out: Vec<String> = Vec::new();
    out.push(labeled_number("observed_peer_count:", peer_count as u64));
    out.push(labeled_number("mesh_read_attempts:", read_attempts as u64));
    assert(texts(out@) =~= seq![
        "observed_peer_count:"@ + decimal(peer_count as nat),
        "mesh_read_attempts:"@ + decimal(read_attempts as nat),
    ]);
    out
}

/// The events of trace entries.
pub open spec fn entry_events(entries: Seq<DecisionTraceEntry>) -> Seq<Seq<char>> {
    entries.map_values(|e: DecisionTraceEntry| e.event@)
}

/// The offsets of trace entries.
pub open spec fn entry_times(entries: Seq<DecisionTraceEntry>) -> Seq<u64> {
    entries.map_values(|e: DecisionTraceEntry| e.at_ms)
}

/// Offsets that never go down.
pub open spec fn nondecreasing(t: Seq<u64>) -> bool {
    forall|i: int, j: int| 0 <= i <= j < t.len() ==> #[trigger] t[i] <= #[trigger] t[j]
}

/// The trace entries of `events`, each stamped with the offset recorded for
/// the step at the same place.
pub fn stamped_entries(events: &Vec<String>, recorded: &Vec<DecisionTraceEntry>) -> (res: Vec<
    DecisionTraceEntry,
>)
    requires
        recorded@.len() == events@.len(),
    ensures
        entry_events(res@) == texts(events@),
        entry_times(res@) == entry_times(recorded@),
        nondecreasing(entry_times(recorded@)) ==> nondecreasing(entry_times(res@)),
{
    let mut out: Vec<DecisionTraceEntry> = Vec::new();
    let mut i: usize = 0;
    while i < events.len()
        invariant
            i <= events@.len(),
            recorded@.len() == events@.len(),
            out@.len() == i,
            entry_events(out@) == texts(events@).take(i as int),
            entry_times(out@) == entry_times(recorded@).take(i as int),
        decreases events@.len() - i,
    {
        let ghost before = out@;
        let event = events[i].clone();
        assert(event@ == events@[i as int]@);
        out.push(DecisionTraceEntry { event, at_ms: recorded[i].at_ms });
        assert(out@[i as int].event@ == texts(events@)[i as int]);
        assert(entry_events(out@) =~= entry_events(before).push(texts(events@)[i as int]));
        assert(entry_events(out@) =~= texts(events@).take(i + 1));
        assert(entry_times(out@) =~= entry_times(recorded@).take(i + 1));
        i += 1;
    }
    assert(texts(events@).take(i as int) =~= texts(events@));
    assert(entry_times(recorded@).take(i as int) =~= entry_times(recorded@));
    out
}

/// How a run of `camp update --branch` after a checkout went.
#[derive(Debug)]
pub enum CampUpdateRun {
    /// `camp` is not installed.
    NotInstalled,
    /// `camp` could not be started.
    NotStarted { detail: String },
    /// `camp` ran and exited.
    Exited { success: bool, exit_code: Option<i32>, stderr: String },
}

/// What a checkout report says of its mesh sync.
#[derive(Debug)]
pub struct CampUpdateReport {
    pub status: CampUpdateStatus,
    pub exit_code: Option<i32>,
    pub stderr: Option<String>,
}

/// The mesh-sync summary of a checkout: skipped when `camp` is missing;
/// failed when it could not start (with the reason) or exited unsuccessfully;
/// succeeded otherwise; with the exit code and any error output of the run.
pub fn camp_update_report(run: CampUpdateRun) -> (res: CampUpdateReport)
    ensures
        match run {
            CampUpdateRun::NotInstalled => res.status == CampUpdateStatus::Skipped
                && res.exit_code is None && res.stderr is None,
            CampUpdateRun::NotStarted { detail } => res.status == CampUpdateStatus::Failed
                && res.exit_code is None && res.stderr == Some(detail),
            CampUpdateRun::Exited { success, exit_code, stderr } => {
                &&& res.status == (if success {
                    CampUpdateStatus::Succeeded
                } else {
                    CampUpdateStatus::Failed
                })
                &&& res.exit_code == exit_code
                &&& res.stderr == (if stderr@.len() == 0 {
                    None
                } else {
                    Some(stderr)
                })
            },
        },
{
    match run {
        CampUpdateRun::NotInstalled => CampUpdateReport {
            status: CampUpdateStatus::Skipped,
            exit_code: None,
            stderr: None,
        },
        CampUpdateRun::NotStarted { detail } => CampUpdateReport {
            status: CampUpdateStatus::Failed,
            exit_code: None,
            stderr: Some(detail),
        },
        CampUpdateRun::Exited { success, exit_code, stderr } => CampUpdateReport {
            status: if success {
                CampUpdateStatus::Succeeded
            } else {
                CampUpdateStatus::Failed
            },
            exit_code,
            stderr: if to_chars(stderr.as_str()).len() == 0 {
                None
            } else {
                Some(stderr)
            },
        },
    }
}

/// The report of a checkout decided on the mesh after `mesh_read_attempts`
/// reads: the decision; the trace of publishing the claim, reading the mesh
/// and deciding, in that order, with each step stamped with the offset
/// recorded for it; the number of reads and the backoffs slept between
/// them; and how the mesh sync went.
pub fn checkout_output(
    decision: CheckoutDecision,
    requested: &str,
    claim_events: Vec<String>,
    read_events: Vec<String>,
    recorded: Vec<DecisionTraceEntry>,
    mesh_read_attempts: usize,
    camp_update: CampUpdateReport,
) -> (res: CheckoutOutput)
    requires
        1 <= mesh_read_attempts <= CLAIM_DISCOVERY_RETRIES,
        recorded@.len() == claim_events@.len() + read_events@.len()
            + decision.closing_events@.len(),
    ensures
        res.status == decision.status,
        res.requested_branch@ == requested@,
        res.occupied_by == decision.occupied_by,
        res.decision_basis == decision.decision_basis,
        res.observed_claims == decision.observed_claims,
        res.observed_peers == decision.observed_peers,
        res.claim_winner == decision.claim_winner,
        res.mesh_read_attempts == Some(mesh_read_attempts),
        res.mesh_read_backoff_ms@ == Seq::new(
            (mesh_read_attempts - 1) as nat,
            |i: int| backoff_ms(i),
        ),
        texts(res.decision_trace@) == texts(claim_events@) + texts(read_events@) + texts(
            decision.closing_events@,
        ),
        entry_events(res.decision_trace_entries@) == texts(res.decision_trace@),
        entry_times(res.decision_trace_entries@) == entry_times(recorded@),
        nondecreasing(entry_times(recorded@)) ==> nondecreasing(
            entry_times(res.decision_trace_entries@),
        ),
        res.camp_update_status == camp_update.status,
        res.camp_update_exit_code == camp_update.exit_code,
        res.camp_update_stderr == camp_update.stderr,
        res.actual_branch == decision.actual_branch,
        res.message == decision.message,
{
    let mut decision_trace = claim_events;
    let mut rest = read_events;
    let ghost claim_part = texts(decision_trace@);
    let ghost read_part = texts(rest@);
    let ghost closing_part = texts(decision.closing_events@);
    decision_trace.append(&mut rest);
    assert(texts(decision_trace@) =~= claim_part + read_part);
    let mut closing = decision.closing_events;
    decision_trace.append(&mut closing);
    assert(texts(decision_trace@) =~= claim_part + read_part + closing_part);
    let decision_trace_entries = stamped_entries(&decision_trace, &recorded);
    let mesh_read_backoff_ms = backoff_schedule(mesh_read_attempts);
    assert(mesh_read_backoff_ms@ =~= Seq::new(
        (mesh_read_attempts - 1) as nat,
        |i: int| backoff_ms(i),
    ));
    CheckoutOutput {
        status: decision.status,
        requested_branch: owned(requested),
        occupied_by: decision.occupied_by,
        decision_basis: decision.decision_basis,
        observed_claims: decision.observed_claims,
        observed_peers: decision.observed_peers,
        claim_winner: decision.claim_winner,
        mesh_read_attempts: Some(mesh_read_attempts),
        mesh_read_backoff_ms,
        decision_trace,
        decision_trace_entries,
        camp_update_status: camp_update.status,
        camp_update_exit_code: camp_update.exit_code,
        camp_update_stderr: camp_update.stderr,
        actual_branch: decision.actual_branch,
        message: decision.message,
    }
}

/// The trace steps of a forced checkout.
pub fn forced_trace_events() -> (res: Vec<String>)
    ensures
        texts(res@) == seq!["force_bypass"@, "decision:checked_out"@],
{
    let mut out: Vec<String> = Vec::new();
    out.push(owned("force_bypass"));
    out.push(owned("decision:checked_out"));
    assert(texts(out@) =~= seq!["force_bypass"@, "decision:checked_out"@]);
    out
}

/// The report of a checkout that bypassed the mesh: the requested branch is
/// checked out, nothing was observed, the trace says so with each step
/// stamped with the offset recorded for it, and the mesh sync is reported.
pub fn forced_checkout_output(
    requested: &str,
    recorded: Vec<DecisionTraceEntry>,
    camp_update: CampUpdateReport,
) -> (res: CheckoutOutput)
    requires
        recorded@.len() == 2,
    ensures
        res.status == CheckoutStatus::Forced,
        res.decision_basis == DecisionBasis::ForceBypass,
        res.requested_branch@ == requested@,
        res.actual_branch@ == requested@,
        res.occupied_by is None,
        res.observed_claims@.len() == 0,
        res.observed_peers@.len() == 0,
        res.claim_winner is None,
        res.mesh_read_attempts is None,
        res.mesh_read_backoff_ms@.len() == 0,
        texts(res.decision_trace@) == seq!["force_bypass"@, "decision:checked_out"@],
        entry_events(res.decision_trace_entries@) == texts(res.decision_trace@),
        entry_times(res.decision_trace_entries@) == entry_times(recorded@),
        nondecreasing(entry_times(recorded@)) ==> nondecreasing(
            entry_times(res.decision_trace_entries@),
        ),
        res.camp_update_status == camp_update.status,
        res.camp_update_exit_code == camp_update.exit_code,
        res.camp_update_stderr == camp_update.stderr,
        res.message@ == forced_message(),
{
    let decision_trace = forced_trace_events();
    assert(texts(decision_trace@).len() == decision_trace@.len());
    let decision_trace_entries = stamped_entries(&decision_trace, &recorded);
    CheckoutOutput {
        status: CheckoutStatus::Forced,
        requested_branch: owned(requested),
        occupied_by: None,
        decision_basis: DecisionBasis::ForceBypass,
        observed_claims: Vec::new(),
        observed_peers: Vec::new(),
        claim_winner: None,
        mesh_read_attempts: None,
        mesh_read_backoff_ms: Vec::new(),
        decision_trace,
        decision_trace_entries,
        camp_update_status: camp_update.status,
        camp_update_exit_code: camp_update.exit_code,
        camp_update_stderr: camp_update.stderr,
        actual_branch: owned(requested),
        message: owned("Bypassed mesh collision checks and checked out the requested branch."),
    }
}

/// Whether a local probe answered yes, no, or could not tell.
#[derive(Debug, Clone, Copy, PartialEq, Eq, Structural)]
pub enum Probe {
    Yes,
    No,
    Failed,
}

/// The local CAMP status from local probes only: `not_found` when `camp` is
/// not on the `PATH`; `running` when it is and a `camp` process is running;
/// `unknown` otherwise (a probe failed, or no process was seen).
pub fn camp_status(binary_on_path: Probe, process_running: Probe) -> (res: CampStatus)
    ensures
        res == (if binary_on_path == Probe::No {
            CampStatus::NotFound
        } else if binary_on_path == Probe::Yes && process_running == Probe::Yes {
            CampStatus::Running
        } else {
            CampStatus::Unknown
        }),
{
    match (binary_on_path, process_running) {
        (Probe::No, _) => CampStatus::NotFound,
        (Probe::Yes, Probe::Yes) => CampStatus::Running,
        _ => CampStatus::Unknown,
    }
}

/// The commit guard: a commit on `branch` may go ahead only when the mesh
/// shows the branch clear for the local agent; otherwise the refusal.
pub fn commit_guard(peers: &[MeshPeer], project: &str, branch: &str, local_agent_id: &str) -> (res:
    Result<(), String>)
    ensures
        res is Ok <==> spec_collision(peers@, project@, branch@, local_agent_id@) is None,
        res matches Err(m) ==> m@ == "refusing to commit on contested branch `"@ + branch@
            + "`; occupied by `"@ + spec_collision(peers@, project@, branch@, local_agent_id@)->0
            + "`"@,
{
    match detect_collision(peers, project, branch, local_agent_id) {
        CollisionResult::Clear => Ok(()),
        CollisionResult::Occupied { by } => {
            let mut out = to_chars("refusing to commit on contested branch `");
            append_str(&mut out, branch);
            append_str(&mut out, "`; occupied by `");
            append_str(&mut out, by.as_str());
            append_str(&mut out, "`");
            Err(from_chars(&out))
        },
    }
}

/// The report of `init`.
pub fn init_output(agent_id: String, project: String, hook_path: String) -> (res: InitOutput)
    ensures
        res.status@ == "initialized"@,
        res.agent_id == agent_id,
        res.project == project,
        res.hook_path == hook_path,
        res.message@ == "Installed garc post-checkout hook and synchronized CAMP branch metadata."@,
{
    InitOutput {
        status: "initialized",
        agent_id,
        project,
        hook_path,
        message: owned("Installed garc post-checkout hook and synchronized CAMP branch metadata."),
    }
}

/// The command `up` delegates to.
pub fn delegated_up_command(config_path: &str) -> (res: String)
    ensures
        res@ == "camp up --config "@ + config_path@,
{
    labeled("camp up --config ", config_path)
}

/// The report of `up`.
pub fn up_output(agent_id: String, project: String, branch: String, config_path: &str) -> (res:
    UpOutput)
    ensures
        res.status@ == "delegating"@,
        res.agent_id == agent_id,
        res.project == project,
        res.branch == branch,
        res.delegated_command@ == "camp up --config "@ + config_path@,
        res.message@ == "Validated repo state and delegating mesh presence to `camp up`."@,
{
    UpOutput {
        status: "delegating",
        agent_id,
        project,
        branch,
        delegated_command: delegated_up_command(config_path),
        message: owned("Validated repo state and delegating mesh presence to `camp up`."),
    }
}

/// The report of a commit that went ahead.
pub fn commit_output(branch: String, git_exit_code: i32, stdout: String, stderr: String) -> (res:
    CommitOutput)
    ensures
        res.status == CommitStatus::Committed,
        res.branch == branch,
        res.git_exit_code == git_exit_code,
        res.stdout == stdout,
        res.stderr == stderr,
        res.message@ == "Mesh clear. Executed git commit."@,
{
    CommitOutput {
        status: CommitStatus::Committed,
        branch,
        git_exit_code,
        stdout,
        stderr,
        message: owned("Mesh clear. Executed git commit."),
    }
}

/// The report of `status`: the peers of the project, the branches they and
/// the local agent occupy, and the claims in flight.
pub fn status_output(
    agent_id: String,
    project: String,
    local_branch: String,
    peers: Vec<MeshPeer>,
    local_claim_state: Option<&LocalClaimState>,
    camp_status: CampStatus,
) -> (res: StatusOutput)
    ensures
        res.status@ == "ok"@,
        res.camp_status == camp_status,
        res.agent_id == agent_id,
        res.project == project,
        res.local_branch == local_branch,
        res.peers == peers,
        occupied_summaries_shown(res.occupied_branches@, agent_id@, local_branch@, peers@),
        claim_summaries_shown(
            res.active_claims@,
            agent_id@,
            match local_claim_state {
                Some(c) => Some(c.intent_branch@),
                None => None,
            },
            peers@,
        ),
{
    let occupied_branches = occupied_branch_summaries(
        agent_id.as_str(),
        local_branch.as_str(),
        peers.as_slice(),
    );
    let active_claims = active_claim_summaries(agent_id.as_str(), local_claim_state, peers.as_slice());
    StatusOutput {
        status: "ok",
        agent_id,
        project,
        local_branch,
        peers,
        occupied_branches,
        active_claims,
        camp_status,
    }
}

/// The report of a failed command.
pub fn error_output(message: String) -> (res: ErrorOutput)
    ensures
        res.status@ == "error"@,
        res.message == message,
{
    ErrorOutput { status: "error", message }
}

/// Whether `trace` has anything to show.
pub fn trace_status(has_latest: bool, history_len: usize) -> (res: TraceStatus)
    ensures
        res == (if has_latest || history_len > 0 {
            TraceStatus::Found
        } else {
            TraceStatus::Empty
        }),
{
    if has_latest || history_len > 0 {
        TraceStatus::Found
    } else {
        TraceStatus::Empty
    }
}

/// How many of the `available` past traces (newest first) `trace` shows:
/// none unless the history is asked for, and at most `limit` when given.
pub fn trace_history_count(available: usize, history_requested: bool, limit: Option<usize>) -> (res:
    usize)
    ensures
        !history_requested ==> res == 0,
        history_requested ==> res == (match limit {
            Some(n) => if n < available {
                n
            } else {
                available
            },
            None => available,
        }),
{
    if !history_requested {
        0
    } else {
        match limit {
            Some(n) => if n < available {
                n
            } else {
                available
            },
            None => available,
        }
    }
}

/// The claim winner that `status` reports for the branch the local agent is
/// claiming is the winner the checkout arbitration computes, whenever the
/// peers shown are those of the project.
pub proof fn status_and_checkout_agree_on_claim_winner(
    peers: Seq<MeshPeer>,
    project: Seq<char>,
    local: Seq<char>,
    branch: Seq<char>,
)
    requires
        forall|i: int| 0 <= i < peers.len() ==> (#[trigger] peers[i]).current_project@ == project,
    ensures
        least(claimants_shown(local, Some(branch), peers, branch)) == spec_claim_winner(
            peers,
            project,
            branch,
            local,
        ),
{
    lemma_ids_claiming_members(peers, branch);
    assert(claimants_shown(local, Some(branch), peers, branch) =~= claimant_ids(
        peers,
        project,
        branch,
        local,
    ).insert(local)) by {
        assert forall|id: Seq<char>| #[trigger]
            claimants_shown(local, Some(branch), peers, branch).contains(id) implies claimant_ids(
            peers,
            project,
            branch,
            local,
        ).insert(local).contains(id) by {
            if id != local {
                let i = choose|i: int|
                    0 <= i < peers.len() && #[trigger] claims_branch(peers[i], branch) && peers[i].agent_id@ == id;
                assert(crate::engine::claims(peers[i], project, branch, local));
            }
        }
        assert forall|id: Seq<char>| #[trigger]
            claimant_ids(peers, project, branch, local).insert(local).contains(id) implies claimants_shown(
            local,
            Some(branch),
            peers,
            branch,
        ).contains(id) by {
            if id != local {
                let i = choose|i: int|
                    0 <= i < peers.len() && #[trigger] crate::engine::claims(
                        peers[i],
                        project,
                        branch,
                        local,
                    ) && peers[i].agent_id@ == id;
                assert(claims_branch(peers[i], branch));
            }
        }
    }
}

/// The ids claiming `b` are exactly those of the peers whose claim is `b`.
proof fn lemma_ids_claiming_members(peers: Seq<MeshPeer>, b: Seq<char>)
    ensures
        forall|id: Seq<char>|
            #[trigger] ids_claiming(peers, b).to_set().contains(id) <==> exists|i: int|
                0 <= i < peers.len() && #[trigger] claims_branch(peers[i], b)
                    && peers[i].agent_id@ == id,
    decreases peers.len(),
{
    if peers.len() > 0 {
        let rest = peers.drop_last();
        lemma_ids_claiming_members(rest, b);
        let last = peers.last();
        if claims_branch(last, b) {
            lemma_push_to_set(ids_claiming(rest, b), last.agent_id@);
        }
        assert forall|id: Seq<char>|
            #[trigger] ids_claiming(peers, b).to_set().contains(id) <==> exists|i: int|
                0 <= i < peers.len() && #[trigger] claims_branch(peers[i], b)
                    && peers[i].agent_id@ == id by {
            if ids_claiming(rest, b).to_set().contains(id) {
                let i = choose|i: int|
                    0 <= i < rest.len() && #[trigger] claims_branch(rest[i], b)
                        && rest[i].agent_id@ == id;
                assert(peers[i] == rest[i]);
            }
            if exists|i: int|
                0 <= i < peers.len() && #[trigger] claims_branch(peers[i], b)
                    && peers[i].agent_id@ == id {
                let i = choose|i: int|
                    0 <= i < peers.len() && #[trigger] claims_branch(peers[i], b) && peers[i].agent_id@ == id;
                if i < rest.len() {
                    assert(peers[i] == rest[i]);
                }
            }
        }
    }
}


proof fn lemma_ids_on_branch_members(peers: Seq<MeshPeer>, b: Seq<char>)
    ensures
        forall|id: Seq<char>|
            #[trigger] ids_on_branch(peers, b).to_set().contains(id) <==> exists|i: int|
                0 <= i < peers.len() && (#[trigger] peers[i]).current_branch@ == b
                    && peers[i].agent_id@ == id,
    decreases peers.len(),
{
    if peers.len() > 0 {
        let rest = peers.drop_last();
        lemma_ids_on_branch_members(rest, b);
        let last = peers.last();
        if last.current_branch@ == b {
            lemma_push_to_set(ids_on_branch(rest, b), last.agent_id@);
        }
        assert forall|id: Seq<char>|
            #[trigger] ids_on_branch(peers, b).to_set().contains(id) <==> exists|i: int|
                0 <= i < peers.len() && (#[trigger] peers[i]).current_branch@ == b
                    && peers[i].agent_id@ == id by {
            if ids_on_branch(rest, b).to_set().contains(id) {
                let i = choose|i: int|
                    0 <= i < rest.len() && (#[trigger] rest[i]).current_branch@ == b
                        && rest[i].agent_id@ == id;
                assert(peers[i] == rest[i]);
            }
            if exists|i: int|
                0 <= i < peers.len() && (#[trigger] peers[i]).current_branch@ == b
                    && peers[i].agent_id@ == id {
                let i = choose|i: int|
                    0 <= i < peers.len() && (#[trigger] peers[i]).current_branch@ == b
                        && peers[i].agent_id@ == id;
                if i < rest.len() {
                    assert(rest[i] == peers[i]);
                }
            }
        }
    }
}

/// The status report shows an agent on branch `b` exactly when it is the
/// local agent and `b` is the local branch, or some peer with that id is
/// currently on `b`; a claim on `b` does not count.
pub proof fn occupants_are_the_agents_on_the_branch(
    local_agent: Seq<char>,
    local_branch: Seq<char>,
    peers: Seq<MeshPeer>,
    b: Seq<char>,
    id: Seq<char>,
)
    ensures
        occupants_shown(local_agent, local_branch, peers, b).contains(id) <==> ((b == local_branch
            && id == local_agent) || exists|i: int|
            0 <= i < peers.len() && (#[trigger] peers[i]).current_branch@ == b
                && peers[i].agent_id@ == id),
{
    lemma_ids_on_branch_members(peers, b);
}

/// The status report shows an agent claiming branch `b` exactly when it is
/// the local agent with its claim in flight on `b`, or some peer with that
/// id announces a claim on `b`; being on `b` does not count.
pub proof fn claimants_are_the_agents_claiming_the_branch(
    local_agent: Seq<char>,
    local_claim: Option<Seq<char>>,
    peers: Seq<MeshPeer>,
    b: Seq<char>,
    id: Seq<char>,
)
    ensures
        claimants_shown(local_agent, local_claim, peers, b).contains(id) <==> ((local_claim
            == Some(b) && id == local_agent) || exists|i: int|
            0 <= i < peers.len() && ((#[trigger] peers[i]).intent_branch matches Some(x) && x@ == b)
                && peers[i].agent_id@ == id),
{
    lemma_ids_claiming_members(peers, b);
    assert forall|i: int| 0 <= i < peers.len() implies claims_branch(#[trigger] peers[i], b) == (
    peers[i].intent_branch matches Some(x) && x@ == b) by {}
}

/// The peers of a project are exactly the peers announcing that project,
/// in the order they were seen: every listed peer belongs to it, and no
/// peer of it is left out or reordered.
pub proof fn project_peers_are_the_peers_of_the_project(peers: Seq<MeshPeer>, project: Seq<char>)
    ensures
        in_project(peers, project) == peers.filter(|q: MeshPeer| q.current_project@ == project),
        forall|i: int|
            0 <= i < in_project(peers, project).len() ==> (#[trigger] in_project(
                peers,
                project,
            )[i]).current_project@ == project,
    decreases peers.len(),
{
    reveal(Seq::filter);
    if peers.len() > 0 {
        project_peers_are_the_peers_of_the_project(peers.drop_last(), project);
    }
    let f = peers.filter(|q: MeshPeer| q.current_project@ == project);
    assert(in_project(peers, project) == f);
    assert forall|i: int| 0 <= i < f.len() implies (#[trigger] f[i]).current_project@ == project by {
        peers.lemma_filter_pred(|q: MeshPeer| q.current_project@ == project, i);
    }
}

/// In the occupied-branch list of the status report, an agent is listed
/// under a branch exactly when it is the local agent and the branch is the
/// local branch, or some peer with that id is currently on that branch; a
/// peer that only claims the branch is not listed under it.
pub proof fn status_lists_exactly_the_agents_on_each_branch(
    res: Seq<OccupiedBranchSummary>,
    local_agent: Seq<char>,
    local_branch: Seq<char>,
    peers: Seq<MeshPeer>,
    i: int,
    id: Seq<char>,
)
    requires
        occupied_summaries_shown(res, local_agent, local_branch, peers),
        0 <= i < res.len(),
    ensures
        texts(res[i].occupied_by@).contains(id) <==> ((res[i].branch@ == local_branch && id
            == local_agent) || exists|k: int|
            0 <= k < peers.len() && (#[trigger] peers[k]).current_branch@ == res[i].branch@
                && peers[k].agent_id@ == id),
{
    let shown = texts(res[i].occupied_by@);
    assert(shown.to_set() == occupants_shown(local_agent, local_branch, peers, res[i].branch@));
    occupants_are_the_agents_on_the_branch(local_agent, local_branch, peers, res[i].branch@, id);
    assert(shown.to_set().contains(id) <==> shown.contains(id));
}

} // verus!
