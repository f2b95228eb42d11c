//! The human-readable reports of `init`, `checkout` and `status`, line by
//! line.
use vstd::prelude::*;

use crate::mesh::MeshPeer;
use crate::output::{
    ActiveClaimSummary, CheckoutOutput, DecisionBasis, InitOutput, ObservedPeerOutput,
    OccupiedBranchSummary, StatusOutput,
};
use crate::commands::labeled;
use crate::text::{append_str, from_chars, owned, to_chars};

verus! {

/// The texts of a list of strings.
pub open spec fn views(v: Seq<String>) -> Seq<Seq<char>> {
    v.map_values(|s: String| s@)
}

/// `items` separated by `sep`.
pub open spec fn joined(items: Seq<Seq<char>>, sep: Seq<char>) -> Seq<char>
    decreases items.len(),
{
    if items.len() == 0 {
        Seq::empty()
    } else if items.len() == 1 {
        items[0]
    } else {
        joined(items.drop_last(), sep) + sep + items.last()
    }
}

/// Joins `items` with `sep` between neighbours.
pub fn join_texts(items: &Vec<String>, sep: &str) -> (res: String)
    ensures
        res@ == joined(views(items@), sep@),
{
    if items.len() == 0 {
        assert(views(items@).len() == 0);
        return String::new();
    }
    let mut out = to_chars(items[0].as_str());
    let mut i: usize = 1;
    assert(views(items@).take(1) =~= seq![items@[0]@]);
    while i < items.len()
        invariant
            1 <= i <= items@.len(),
            out@ == joined(views(items@).take(i as int), sep@),
        decreases items@.len() - i,
    {
        append_str(&mut out, sep);
        append_str(&mut out, items[i].as_str());
        proof {
            let t = views(items@).take(i + 1);
            assert(t.drop_last() =~= views(items@).take(i as int));
            assert(t.last() == items@[i as int]@);
        }
        i += 1;
    }
    assert(views(items@).take(i as int) =~= views(items@));
    from_chars(&out)
}

/// The name a decision basis goes by in reports.
pub open spec fn basis_name(b: DecisionBasis) -> Seq<char> {
    match b {
        DecisionBasis::MeshClear => "mesh_clear"@,
        DecisionBasis::BranchOccupied => "branch_occupied"@,
        DecisionBasis::ClaimArbitrationWon => "claim_arbitration_won"@,
        DecisionBasis::ClaimArbitrationLost => "claim_arbitration_lost"@,
        DecisionBasis::ForceBypass => "force_bypass"@,
    }
}

/// The name of a decision basis.
pub fn basis_name_str(b: DecisionBasis) -> (res: &'static str)
    ensures
        res@ == basis_name(b),
{
    match b {
        DecisionBasis::MeshClear => "mesh_clear",
        DecisionBasis::BranchOccupied => "branch_occupied",
        DecisionBasis::ClaimArbitrationWon => "claim_arbitration_won",
        DecisionBasis::ClaimArbitrationLost => "claim_arbitration_lost",
        DecisionBasis::ForceBypass => "force_bypass",
    }
}

/// The line of a peer in a checkout report.
pub open spec fn observed_peer_line(p: ObservedPeerOutput) -> Seq<char> {
    match p.intent_branch {
        Some(intent) => "- "@ + p.agent_id@ + " on "@ + p.current_branch@ + " claiming "@
            + intent@,
        None => "- "@ + p.agent_id@ + " on "@ + p.current_branch@,
    }
}

fn observed_peer_text(p: &ObservedPeerOutput) -> (res: String)
    ensures
        res@ == observed_peer_line(*p),
{
    let mut out = to_chars("- ");
    append_str(&mut out, p.agent_id.as_str());
    append_str(&mut out, " on ");
    append_str(&mut out, p.current_branch.as_str());
    match &p.intent_branch {
        Some(intent) => {
            append_str(&mut out, " claiming ");
            append_str(&mut out, intent.as_str());
        },
        None => {},
    }
    from_chars(&out)
}

/// The lines of a human-readable checkout report.
pub open spec fn checkout_report(o: CheckoutOutput) -> Seq<Seq<char>> {
    seq![
        o.message@,
        "requested branch: "@ + o.requested_branch@,
        "decision basis: "@ + basis_name(o.decision_basis),
        "actual branch: "@ + o.actual_branch@,
    ] + match o.occupied_by {
        Some(by) => seq!["occupied by: "@ + by@],
        None => Seq::empty(),
    } + if o.observed_claims@.len() > 0 {
        seq!["observed claims: "@ + joined(views(o.observed_claims@), ", "@)]
    } else {
        Seq::empty()
    } + if o.observed_peers@.len() > 0 {
        seq!["observed peers:"@] + o.observed_peers@.map_values(
            |p: ObservedPeerOutput| observed_peer_line(p),
        )
    } else {
        Seq::empty()
    } + match o.claim_winner {
        Some(w) => seq!["claim winner: "@ + w@],
        None => Seq::empty(),
    } + if o.decision_trace@.len() > 0 {
        seq!["decision trace:"@] + o.decision_trace@.map_values(|s: String| "- "@ + s@)
    } else {
        Seq::empty()
    }
}

/// The human-readable report of a checkout, one entry per line.
pub fn checkout_lines(o: &CheckoutOutput) -> (res: Vec<String>)
    ensures
        views(res@) == checkout_report(*o),
{
    let mut lines: Vec<String> = Vec::new();
    lines.push(o.message.clone());
    lines.push(labeled("requested branch: ", o.requested_branch.as_str()));
    lines.push(labeled("decision basis: ", basis_name_str(o.decision_basis)));
    lines.push(labeled("actual branch: ", o.actual_branch.as_str()));
    let ghost mut expected: Seq<Seq<char>> = seq![
        o.message@,
        "requested branch: "@ + o.requested_branch@,
        "decision basis: "@ + basis_name(o.decision_basis),
        "actual branch: "@ + o.actual_branch@,
    ];
    assert(views(lines@) =~= expected);
    match &o.occupied_by {
        Some(by) => {
            lines.push(labeled("occupied by: ", by.as_str()));
            proof {
                expected = expected + seq!["occupied by: "@ + by@];
            }
        },
        None => {},
    }
    assert(views(lines@) =~= expected);
    if o.observed_claims.len() > 0 {
        let claims = join_texts(&o.observed_claims, ", ");
        lines.push(labeled("observed claims: ", claims.as_str()));
        proof {
            expected = expected + seq!["observed claims: "@ + joined(views(o.observed_claims@), ", "@)];
        }
    }
    assert(views(lines@) =~= expected);
    if o.observed_peers.len() > 0 {
        lines.push(owned("observed peers:"));
        proof {
            expected = expected + seq!["observed peers:"@];
        }
        let ghost base = expected;
        let ghost n = lines@.len();
        let mut i: usize = 0;
        while i < o.observed_peers.len()
            invariant
                i <= o.observed_peers@.len(),
                views(lines@) == base + o.observed_peers@.take(i as int).map_values(
                    |p: ObservedPeerOutput| observed_peer_line(p),
                ),
            decreases o.observed_peers@.len() - i,
        {
            lines.push(observed_peer_text(&o.observed_peers[i]));
            proof {
                assert(o.observed_peers@.take(i + 1).map_values(
                    |p: ObservedPeerOutput| observed_peer_line(p),
                ) =~= o.observed_peers@.take(i as int).map_values(
                    |p: ObservedPeerOutput| observed_peer_line(p),
                ).push(observed_peer_line(o.observed_peers@[i as int])));
                assert(views(lines@) =~= (base + o.observed_peers@.take(i as int).map_values(
                    |p: ObservedPeerOutput| observed_peer_line(p),
                )).push(observed_peer_line(o.observed_peers@[i as int])));
            }
            i += 1;
        }
        proof {
            assert(o.observed_peers@.take(i as int) =~= o.observed_peers@);
            expected = base + o.observed_peers@.map_values(
                |p: ObservedPeerOutput| observed_peer_line(p),
            );
        }
    }
    assert(views(lines@) =~= expected);
    match &o.claim_winner {
        Some(w) => {
            lines.push(labeled("claim winner: ", w.as_str()));
            proof {
                expected = expected + seq!["claim winner: "@ + w@];
            }
        },
        None => {},
    }
    assert(views(lines@) =~= expected);
    if o.decision_trace.len() > 0 {
        lines.push(owned("decision trace:"));
        proof {
            expected = expected + seq!["decision trace:"@];
        }
        let ghost base = expected;
        let mut i: usize = 0;
        while i < o.decision_trace.len()
            invariant
                i <= o.decision_trace@.len(),
                views(lines@) == base + o.decision_trace@.take(i as int).map_values(
                    |s: String| "- "@ + s@,
                ),
            decreases o.decision_trace@.len() - i,
        {
            lines.push(labeled("- ", o.decision_trace[i].as_str()));
            proof {
                assert(o.decision_trace@.take(i + 1).map_values(|s: String| "- "@ + s@)
                    =~= o.decision_trace@.take(i as int).map_values(|s: String| "- "@ + s@).push(
                    "- "@ + o.decision_trace@[i as int]@,
                ));
                assert(views(lines@) =~= (base + o.decision_trace@.take(i as int).map_values(
                    |s: String| "- "@ + s@,
                )).push("- "@ + o.decision_trace@[i as int]@));
            }
            i += 1;
        }
        proof {
            assert(o.decision_trace@.take(i as int) =~= o.decision_trace@);
            expected = base + o.decision_trace@.map_values(|s: String| "- "@ + s@);
        }
    }
    assert(views(lines@) =~= expected);
    assert(expected =~= checkout_report(*o));
    lines
}



/// The line of a peer in a status report.
pub open spec fn status_peer_line(p: MeshPeer) -> Seq<char> {
    match p.intent_branch {
        Some(intent) => "- "@ + p.agent_id@ + " on "@ + p.current_branch@ + " ("@
            + p.current_project@ + ") claiming "@ + intent@,
        None => "- "@ + p.agent_id@ + " on "@ + p.current_branch@ + " ("@ + p.current_project@
            + ")"@,
    }
}

fn status_peer_text(p: &MeshPeer) -> (res: String)
    ensures
        res@ == status_peer_line(*p),
{
    let mut out = to_chars("- ");
    append_str(&mut out, p.agent_id.as_str());
    append_str(&mut out, " on ");
    append_str(&mut out, p.current_branch.as_str());
    append_str(&mut out, " (");
    append_str(&mut out, p.current_project.as_str());
    match &p.intent_branch {
        Some(intent) => {
            append_str(&mut out, ") claiming ");
            append_str(&mut out, intent.as_str());
        },
        None => {
            append_str(&mut out, ")");
        },
    }
    from_chars(&out)
}

/// The line of an occupied branch in a status report.
pub open spec fn occupied_line(b: OccupiedBranchSummary) -> Seq<char> {
    "- "@ + b.branch@ + ": "@ + joined(views(b.occupied_by@), ", "@)
}

fn occupied_text(b: &OccupiedBranchSummary) -> (res: String)
    ensures
        res@ == occupied_line(*b),
{
    let mut out = to_chars("- ");
    append_str(&mut out, b.branch.as_str());
    append_str(&mut out, ": ");
    let agents = join_texts(&b.occupied_by, ", ");
    append_str(&mut out, agents.as_str());
    from_chars(&out)
}

/// The line of an active claim in a status report.
pub open spec fn claim_line(c: ActiveClaimSummary) -> Seq<char> {
    "- "@ + c.branch@ + ": "@ + joined(views(c.claimants@), ", "@) + " (winner: "@
        + c.claim_winner@ + ")"@
}

fn claim_text(c: &ActiveClaimSummary) -> (res: String)
    ensures
        res@ == claim_line(*c),
{
    let mut out = to_chars("- ");
    append_str(&mut out, c.branch.as_str());
    append_str(&mut out, ": ");
    let agents = join_texts(&c.claimants, ", ");
    append_str(&mut out, agents.as_str());
    append_str(&mut out, " (winner: ");
    append_str(&mut out, c.claim_winner.as_str());
    append_str(&mut out, ")");
    from_chars(&out)
}

/// The lines of a human-readable status report.
pub open spec fn status_report(o: StatusOutput) -> Seq<Seq<char>> {
    seq![
        "project: "@ + o.project@,
        "local agent: "@ + o.agent_id@,
        "local branch: "@ + o.local_branch@,
    ] + if o.peers@.len() == 0 {
        seq!["mesh peers: none discovered"@]
    } else {
        seq!["mesh peers:"@] + o.peers@.map_values(|p: MeshPeer| status_peer_line(p))
    } + if o.occupied_branches@.len() > 0 {
        seq!["occupied branches:"@] + o.occupied_branches@.map_values(
            |b: OccupiedBranchSummary| occupied_line(b),
        )
    } else {
        Seq::empty()
    } + if o.active_claims@.len() > 0 {
        seq!["active claims:"@] + o.active_claims@.map_values(
            |c: ActiveClaimSummary| claim_line(c),
        )
    } else {
        Seq::empty()
    }
}

/// The human-readable report of `status`, one entry per line.
pub fn status_lines(o: &StatusOutput) -> (res: Vec<String>)
    ensures
        views(res@) == status_report(*o),
{
    let mut lines: Vec<String> = Vec::new();
    lines.push(labeled("project: ", o.project.as_str()));
    lines.push(labeled("local agent: ", o.agent_id.as_str()));
    lines.push(labeled("local branch: ", o.local_branch.as_str()));
    let ghost mut expected: Seq<Seq<char>> = seq![
        "project: "@ + o.project@,
        "local agent: "@ + o.agent_id@,
        "local branch: "@ + o.local_branch@,
    ];
    assert(views(lines@) =~= expected);
    if o.peers.len() == 0 {
        lines.push(owned("mesh peers: none discovered"));
        proof {
            expected = expected + seq!["mesh peers: none discovered"@];
        }
    } else {
        lines.push(owned("mesh peers:"));
        proof {
            expected = expected + seq!["mesh peers:"@];
        }
        let ghost base = expected;
        let mut i: usize = 0;
        while i < o.peers.len()
            invariant
                i <= o.peers@.len(),
                views(lines@) == base + o.peers@.take(i as int).map_values(
                    |p: MeshPeer| status_peer_line(p),
                ),
            decreases o.peers@.len() - i,
        {
            lines.push(status_peer_text(&o.peers[i]));
            proof {
                assert(o.peers@.take(i + 1).map_values(|p: MeshPeer| status_peer_line(p))
                    =~= o.peers@.take(i as int).map_values(|p: MeshPeer| status_peer_line(p)).push(
                    status_peer_line(o.peers@[i as int]),
                ));
                assert(views(lines@) =~= (base + o.peers@.take(i as int).map_values(
                    |p: MeshPeer| status_peer_line(p),
                )).push(status_peer_line(o.peers@[i as int])));
            }
            i += 1;
        }
        proof {
            assert(o.peers@.take(i as int) =~= o.peers@);
            expected = base + o.peers@.map_values(|p: MeshPeer| status_peer_line(p));
        }
    }
    assert(views(lines@) =~= expected);
    if o.occupied_branches.len() > 0 {
        lines.push(owned("occupied branches:"));
        proof {
            expected = expected + seq!["occupied branches:"@];
        }
        let ghost base = expected;
        let mut i: usize = 0;
        while i < o.occupied_branches.len()
            invariant
                i <= o.occupied_branches@.len(),
                views(lines@) == base + o.occupied_branches@.take(i as int).map_values(
                    |b: OccupiedBranchSummary| occupied_line(b),
                ),
            decreases o.occupied_branches@.len() - i,
        {
            lines.push(occupied_text(&o.occupied_branches[i]));
            proof {
                assert(o.occupied_branches@.take(i + 1).map_values(
                    |b: OccupiedBranchSummary| occupied_line(b),
                ) =~= o.occupied_branches@.take(i as int).map_values(
                    |b: OccupiedBranchSummary| occupied_line(b),
                ).push(occupied_line(o.occupied_branches@[i as int])));
                assert(views(lines@) =~= (base + o.occupied_branches@.take(i as int).map_values(
                    |b: OccupiedBranchSummary| occupied_line(b),
                )).push(occupied_line(o.occupied_branches@[i as int])));
            }
            i += 1;
        }
        proof {
            assert(o.occupied_branches@.take(i as int) =~= o.occupied_branches@);
            expected = base + o.occupied_branches@.map_values(
                |b: OccupiedBranchSummary| occupied_line(b),
            );
        }
    }
    assert(views(lines@) =~= expected);
    if o.active_claims.len() > 0 {
        lines.push(owned("active claims:"));
        proof {
            expected = expected + seq!["active claims:"@];
        }
        let ghost base = expected;
        let mut i: usize = 0;
        while i < o.active_claims.len()
            invariant
                i <= o.active_claims@.len(),
                views(lines@) == base + o.active_claims@.take(i as int).map_values(
                    |c: ActiveClaimSummary| claim_line(c),
                ),
            decreases o.active_claims@.len() - i,
        {
            lines.push(claim_text(&o.active_claims[i]));
            proof {
                assert(o.active_claims@.take(i + 1).map_values(
                    |c: ActiveClaimSummary| claim_line(c),
                ) =~= o.active_claims@.take(i as int).map_values(
                    |c: ActiveClaimSummary| claim_line(c),
                ).push(claim_line(o.active_claims@[i as int])));
                assert(views(lines@) =~= (base + o.active_claims@.take(i as int).map_values(
                    |c: ActiveClaimSummary| claim_line(c),
                )).push(claim_line(o.active_claims@[i as int])));
            }
            i += 1;
        }
        proof {
            assert(o.active_claims@.take(i as int) =~= o.active_claims@);
            expected = base + o.active_claims@.map_values(|c: ActiveClaimSummary| claim_line(c));
        }
    }
    assert(views(lines@) =~= expected);
    assert(expected =~= status_report(*o));
    lines
}

/// The lines of a human-readable init report.
pub open spec fn init_report(o: InitOutput) -> Seq<Seq<char>> {
    seq![
        o.message@,
        "agent id: "@ + o.agent_id@,
        "project: "@ + o.project@,
        "hook: "@ + o.hook_path@,
    ]
}

/// The human-readable report of `init`, one entry per line.
pub fn init_lines(o: &InitOutput) -> (res: Vec<String>)
    ensures
        views(res@) == init_report(*o),
{
    let mut lines: Vec<String> = Vec::new();
    lines.push(o.message.clone());
    lines.push(labeled("agent id: ", o.agent_id.as_str()));
    lines.push(labeled("project: ", o.project.as_str()));
    lines.push(labeled("hook: ", o.hook_path.as_str()));
    assert(views(lines@) =~= init_report(*o));
    lines
}


/// A checkout report opens with the message, the requested branch, the
/// decision basis and the actual branch, in that order; it holds the line
/// `occupied by: <agent>` whenever an occupier is reported, the line
/// `observed claims: ...` whenever claims were observed, one line per
/// observed peer, and the line `claim winner: <agent>` whenever a claim
/// winner is reported, whatever the other fields hold; it has no other
/// lines but the headed list of peers and the headed decision trace.
pub proof fn checkout_report_shows_every_reported_fact(o: CheckoutOutput)
    ensures
        checkout_report(o).len() >= 4,
        checkout_report(o)[0] == o.message@,
        checkout_report(o)[1] == "requested branch: "@ + o.requested_branch@,
        checkout_report(o)[2] == "decision basis: "@ + basis_name(o.decision_basis),
        checkout_report(o)[3] == "actual branch: "@ + o.actual_branch@,
        o.occupied_by matches Some(by) ==> checkout_report(o).contains("occupied by: "@ + by@),
        o.observed_claims@.len() > 0 ==> checkout_report(o).contains(
            "observed claims: "@ + joined(views(o.observed_claims@), ", "@),
        ),
        forall|k: int|
            0 <= k < o.observed_peers@.len() ==> checkout_report(o).contains(
                observed_peer_line(#[trigger] o.observed_peers@[k]),
            ),
        o.claim_winner matches Some(w) ==> checkout_report(o).contains("claim winner: "@ + w@),
        checkout_report(o).len() == 4 + (if o.occupied_by is Some { 1int } else { 0int })
            + (if o.observed_claims@.len() > 0 { 1int } else { 0int })
            + (if o.observed_peers@.len() > 0 { o.observed_peers@.len() + 1int } else { 0int })
            + (if o.claim_winner is Some { 1int } else { 0int })
            + (if o.decision_trace@.len() > 0 { o.decision_trace@.len() + 1int } else { 0int }),
{
    let r = checkout_report(o);
    let head: Seq<Seq<char>> = seq![
        o.message@,
        "requested branch: "@ + o.requested_branch@,
        "decision basis: "@ + basis_name(o.decision_basis),
        "actual branch: "@ + o.actual_branch@,
    ];
    let occ: Seq<Seq<char>> = match o.occupied_by {
        Some(by) => seq!["occupied by: "@ + by@],
        None => Seq::empty(),
    };
    let claims: Seq<Seq<char>> = if o.observed_claims@.len() > 0 {
        seq!["observed claims: "@ + joined(views(o.observed_claims@), ", "@)]
    } else {
        Seq::empty()
    };
    let peer_lines = o.observed_peers@.map_values(|p: ObservedPeerOutput| observed_peer_line(p));
    let peers: Seq<Seq<char>> = if o.observed_peers@.len() > 0 {
        seq!["observed peers:"@] + peer_lines
    } else {
        Seq::empty()
    };
    let win: Seq<Seq<char>> = match o.claim_winner {
        Some(w) => seq!["claim winner: "@ + w@],
        None => Seq::empty(),
    };
    let trace: Seq<Seq<char>> = if o.decision_trace@.len() > 0 {
        seq!["decision trace:"@] + o.decision_trace@.map_values(|t: String| "- "@ + t@)
    } else {
        Seq::empty()
    };
    assert(r =~= head + occ + claims + peers + win + trace);
    let n1 = head.len() as int;
    let n2 = n1 + occ.len();
    let n3 = n2 + claims.len();
    let n4 = n3 + peers.len();
    if let Some(by) = o.occupied_by {
        assert(r[n1] == occ[0]);
    }
    if o.observed_claims@.len() > 0 {
        assert(r[n2] == claims[0]);
    }
    assert forall|k: int|
        0 <= k < o.observed_peers@.len() implies r.contains(
        observed_peer_line(#[trigger] o.observed_peers@[k]),
    ) by {
        assert(peers[k + 1] == peer_lines[k]);
        assert(r[n3 + k + 1] == peers[k + 1]);
    }
    if let Some(w) = o.claim_winner {
        assert(r[n4] == win[0]);
    }
}

/// A status report opens with the project, the local agent and the local
/// branch; it holds one line per discovered peer (or says that none was
/// discovered), one line per occupied branch and one line per active claim
/// with its winner, each list under its heading, and nothing else.
pub proof fn status_report_shows_every_entry(o: StatusOutput)
    ensures
        status_report(o)[0] == "project: "@ + o.project@,
        status_report(o)[1] == "local agent: "@ + o.agent_id@,
        status_report(o)[2] == "local branch: "@ + o.local_branch@,
        o.peers@.len() == 0 ==> status_report(o)[3] == "mesh peers: none discovered"@,
        forall|k: int|
            0 <= k < o.peers@.len() ==> status_report(o).contains(
                status_peer_line(#[trigger] o.peers@[k]),
            ),
        forall|k: int|
            0 <= k < o.occupied_branches@.len() ==> status_report(o).contains(
                occupied_line(#[trigger] o.occupied_branches@[k]),
            ),
        forall|k: int|
            0 <= k < o.active_claims@.len() ==> status_report(o).contains(
                claim_line(#[trigger] o.active_claims@[k]),
            ),
        status_report(o).len() == 4 + o.peers@.len()
            + (if o.occupied_branches@.len() > 0 { o.occupied_branches@.len() + 1int } else { 0int })
            + (if o.active_claims@.len() > 0 { o.active_claims@.len() + 1int } else { 0int }),
{
    let r = status_report(o);
    let head: Seq<Seq<char>> = seq![
        "project: "@ + o.project@,
        "local agent: "@ + o.agent_id@,
        "local branch: "@ + o.local_branch@,
    ];
    let peer_lines = o.peers@.map_values(|p: MeshPeer| status_peer_line(p));
    let peers: Seq<Seq<char>> = if o.peers@.len() == 0 {
        seq!["mesh peers: none discovered"@]
    } else {
        seq!["mesh peers:"@] + peer_lines
    };
    let occ_lines = o.occupied_branches@.map_values(|b: OccupiedBranchSummary| occupied_line(b));
    let occ: Seq<Seq<char>> = if o.occupied_branches@.len() > 0 {
        seq!["occupied branches:"@] + occ_lines
    } else {
        Seq::empty()
    };
    let claim_lines = o.active_claims@.map_values(|c: ActiveClaimSummary| claim_line(c));
    let claims: Seq<Seq<char>> = if o.active_claims@.len() > 0 {
        seq!["active claims:"@] + claim_lines
    } else {
        Seq::empty()
    };
    assert(r =~= head + peers + occ + claims);
    let n1 = head.len() as int;
    let n2 = n1 + peers.len();
    let n3 = n2 + occ.len();
    assert(r[n1] == peers[0]);
    assert forall|k: int|
        0 <= k < o.peers@.len() implies r.contains(status_peer_line(#[trigger] o.peers@[k])) by {
        assert(peers[k + 1] == peer_lines[k]);
        assert(r[n1 + k + 1] == peers[k + 1]);
    }
    assert forall|k: int|
        0 <= k < o.occupied_branches@.len() implies r.contains(
        occupied_line(#[trigger] o.occupied_branches@[k]),
    ) by {
        assert(occ[k + 1] == occ_lines[k]);
        assert(r[n2 + k + 1] == occ[k + 1]);
    }
    assert forall|k: int|
        0 <= k < o.active_claims@.len() implies r.contains(
        claim_line(#[trigger] o.active_claims@[k]),
    ) by {
        assert(claims[k + 1] == claim_lines[k]);
        assert(r[n3 + k + 1] == claims[k + 1]);
    }
}

} // verus!
