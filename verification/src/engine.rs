//! The collision engine: who occupies a branch, who claims it, who wins the
//! claim arbitration, and the resulting checkout decision.
use vstd::prelude::*;

use crate::mesh::MeshPeer;
use crate::text::{
    append_chars, ascii_lower, ascii_lower_char, from_chars, is_ascii_alnum,
    is_ascii_alnum_char, lemma_lex_le_antisym, lemma_lex_le_refl, lemma_lex_le_total,
    lemma_lex_le_trans, lemma_strip_ends, lemma_strip_noop, lemma_strip_subrange, lex_le,
    lex_lt, owned, slice_chars, strip, strip_bounds, text_eq, text_le, to_chars, Strip,
};

verus! {

/// The outcome of collision detection for a requested branch.
#[derive(Debug, PartialEq, Eq)]
pub enum CollisionResult {
    Clear,
    Occupied { by: String },
}

/// `Clear` as `None`, `Occupied { by }` as the occupier's id.
pub open spec fn collision_view(r: CollisionResult) -> Option<Seq<char>> {
    match r {
        CollisionResult::Clear => None,
        CollisionResult::Occupied { by } => Some(by@),
    }
}

/// The texts of a sequence of strings.
pub open spec fn texts(v: Seq<String>) -> Seq<Seq<char>> {
    v.map_values(|s: String| s@)
}

/// `p` is another agent of `project` whose current branch is `branch`.
pub open spec fn occupies(p: MeshPeer, project: Seq<char>, branch: Seq<char>, local: Seq<char>) -> bool {
    &&& p.current_project@ == project
    &&& p.current_branch@ == branch
    &&& p.agent_id@ != local
}

/// `p` is another agent of `project` announcing an in-flight claim on `branch`.
pub open spec fn claims(p: MeshPeer, project: Seq<char>, branch: Seq<char>, local: Seq<char>) -> bool {
    &&& p.current_project@ == project
    &&& p.agent_id@ != local
    &&& p.intent_branch matches Some(b) && b@ == branch
}

/// The ids of the agents that occupy `branch`.
pub open spec fn occupant_ids(
    peers: Seq<MeshPeer>,
    project: Seq<char>,
    branch: Seq<char>,
    local: Seq<char>,
) -> Set<Seq<char>> {
    Set::new(
        |id: Seq<char>|
            exists|i: int|
                0 <= i < peers.len() && #[trigger] occupies(peers[i], project, branch, local)
                    && peers[i].agent_id@ == id,
    )
}

/// The ids of the agents that claim `branch`.
pub open spec fn claimant_ids(
    peers: Seq<MeshPeer>,
    project: Seq<char>,
    branch: Seq<char>,
    local: Seq<char>,
) -> Set<Seq<char>> {
    Set::new(
        |id: Seq<char>|
            exists|i: int|
                0 <= i < peers.len() && #[trigger] claims(peers[i], project, branch, local)
                    && peers[i].agent_id@ == id,
    )
}

/// Some agent occupies `branch`.
pub open spec fn has_occupant(
    peers: Seq<MeshPeer>,
    project: Seq<char>,
    branch: Seq<char>,
    local: Seq<char>,
) -> bool {
    exists|i: int| 0 <= i < peers.len() && #[trigger] occupies(peers[i], project, branch, local)
}

/// `x` belongs to `s` and comes first in lexicographic order among its members.
pub open spec fn is_least(x: Seq<char>, s: Set<Seq<char>>) -> bool {
    s.contains(x) && forall|y: Seq<char>| #[trigger] s.contains(y) ==> lex_le(x, y)
}

/// The lexicographically least member of `s`.
pub open spec fn least(s: Set<Seq<char>>) -> Seq<char> {
    choose|x: Seq<char>| is_least(x, s)
}

/// The active occupier reported for `branch`: the least occupant id, if any.
pub open spec fn spec_occupier(
    peers: Seq<MeshPeer>,
    project: Seq<char>,
    branch: Seq<char>,
    local: Seq<char>,
) -> Option<Seq<char>> {
    if has_occupant(peers, project, branch, local) {
        Some(least(occupant_ids(peers, project, branch, local)))
    } else {
        None
    }
}

/// The winner of the claim arbitration: the least id among the claimants and
/// the local agent itself.
pub open spec fn spec_claim_winner(
    peers: Seq<MeshPeer>,
    project: Seq<char>,
    branch: Seq<char>,
    local: Seq<char>,
) -> Seq<char> {
    least(claimant_ids(peers, project, branch, local).insert(local))
}

/// The checkout decision: `Some(by)` when the branch is taken by `by`,
/// `None` when the local agent may check it out.  Active occupancy comes
/// first; otherwise the branch is taken exactly when someone else wins the
/// claim arbitration.
pub open spec fn spec_collision(
    peers: Seq<MeshPeer>,
    project: Seq<char>,
    branch: Seq<char>,
    local: Seq<char>,
) -> Option<Seq<char>> {
    if has_occupant(peers, project, branch, local) {
        Some(least(occupant_ids(peers, project, branch, local)))
    } else if spec_claim_winner(peers, project, branch, local) != local {
        Some(spec_claim_winner(peers, project, branch, local))
    } else {
        None
    }
}

/// Strictly increasing in lexicographic order (hence free of duplicates).
pub open spec fn strictly_sorted(s: Seq<Seq<char>>) -> bool {
    forall|i: int, j: int| 0 <= i < j < s.len() ==> lex_lt(#[trigger] s[i], #[trigger] s[j])
}

pub proof fn lemma_least_is(x: Seq<char>, s: Set<Seq<char>>)
    requires
        is_least(x, s),
    ensures
        least(s) == x,
{
    let y = least(s);
    assert(is_least(y, s));
    lemma_lex_le_antisym(x, y);
}

pub proof fn lemma_lex_lt_trans(a: Seq<char>, b: Seq<char>, c: Seq<char>)
    requires
        lex_lt(a, b),
        lex_le(b, c),
    ensures
        lex_lt(a, c),
{
    lemma_lex_le_trans(a, b, c);
    if a == c {
        lemma_lex_le_antisym(b, c);
    }
}

/// Not `a <= b` means `b < a`.
pub proof fn lemma_not_le_is_gt(a: Seq<char>, b: Seq<char>)
    requires
        !lex_le(a, b),
    ensures
        lex_lt(b, a),
{
    lemma_lex_le_total(a, b);
    if a == b {
        lemma_lex_le_refl(a);
    }
}

fn peer_occupies(p: &MeshPeer, project: &str, branch: &str, local: &str) -> (r: bool)
    ensures
        r == occupies(*p, project@, branch@, local@),
{
    text_eq(p.current_project.as_str(), project) && text_eq(p.current_branch.as_str(), branch)
        && !text_eq(p.agent_id.as_str(), local)
}

fn peer_claims(p: &MeshPeer, project: &str, branch: &str, local: &str) -> (r: bool)
    ensures
        r == claims(*p, project@, branch@, local@),
{
    if !text_eq(p.current_project.as_str(), project) || text_eq(p.agent_id.as_str(), local) {
        return false;
    }
    match &p.intent_branch {
        Some(b) => text_eq(b.as_str(), branch),
        None => false,
    }
}

/// The active occupier of `branch`: among the other agents of `project`
/// whose current branch is `branch`, the one with the least id.
pub fn active_branch_occupier(
    peers: &[MeshPeer],
    project: &str,
    branch: &str,
    local_agent_id: &str,
) -> (res: Option<String>)
    ensures
        res.deep_view() == spec_occupier(peers@, project@, branch@, local_agent_id@),
{
    let ghost ids = occupant_ids(peers@, project@, branch@, local_agent_id@);
    let mut best: Option<String> = None;
    let mut i: usize = 0;
    while i < peers.len()
        invariant
            i <= peers@.len(),
            ids == occupant_ids(peers@, project@, branch@, local_agent_id@),
            best is None <==> !(exists|j: int|
                0 <= j < i && #[trigger] occupies(peers@[j], project@, branch@, local_agent_id@)),
            best matches Some(m) ==> ids.contains(m@) && (forall|j: int|
                0 <= j < i && #[trigger] occupies(peers@[j], project@, branch@, local_agent_id@)
                    ==> lex_le(m@, peers@[j].agent_id@)),
        decreases peers@.len() - i,
    {
        let p = &peers[i];
        if peer_occupies(p, project, branch, local_agent_id) {
            assert(ids.contains(p.agent_id@));
            let replace = match &best {
                None => true,
                Some(m) => !text_le(m.as_str(), p.agent_id.as_str()),
            };
            if replace {
                proof {
                    lemma_lex_le_refl(p.agent_id@);
                    let ghost bo = best;
                    if let Some(m) = bo {
                        lemma_not_le_is_gt(m@, p.agent_id@);
                        assert forall|j: int|
                            0 <= j < i + 1 && #[trigger] occupies(
                                peers@[j],
                                project@,
                                branch@,
                                local_agent_id@,
                            ) implies lex_le(p.agent_id@, peers@[j].agent_id@) by {
                            if j < i {
                                lemma_lex_le_trans(p.agent_id@, m@, peers@[j].agent_id@);
                            }
                        }
                    }
                }
                best = Some(p.agent_id.clone());
            }
        }
        i += 1;
    }
    proof {
        let ghost bo = best;
        if let Some(m) = bo {
            assert forall|y: Seq<char>| #[trigger] ids.contains(y) implies lex_le(m@, y) by {
                let j = choose|j: int|
                    0 <= j < peers@.len() && #[trigger] occupies(
                        peers@[j],
                        project@,
                        branch@,
                        local_agent_id@,
                    ) && peers@[j].agent_id@ == y;
            }
            lemma_least_is(m@, ids);
        }
    }
    best
}

/// Inserts `x` into a strictly sorted list of ids, unless it is already there.
pub fn insert_sorted_unique(v: &mut Vec<String>, x: String)
    requires
        strictly_sorted(texts(old(v)@)),
    ensures
        strictly_sorted(texts(final(v)@)),
        texts(final(v)@).to_set() == texts(old(v)@).to_set().insert(x@),
{
    let ghost s = texts(v@);
    let mut k: usize = 0;
    while k < v.len() && !text_le(x.as_str(), v[k].as_str())
        invariant
            k <= v@.len(),
            s == texts(v@),
            strictly_sorted(s),
            forall|j: int| 0 <= j < k ==> lex_lt(#[trigger] s[j], x@),
        decreases v@.len() - k,
    {
        proof {
            lemma_not_le_is_gt(x@, v@[k as int]@);
        }
        k += 1;
    }
    if k < v.len() && text_eq(v[k].as_str(), x.as_str()) {
        assert(s.contains(x@) ==> s.to_set().insert(x@) =~= s.to_set());
        assert(s[k as int] == x@);
        assert(s.to_set().insert(x@) =~= s.to_set());
        return;
    }
    proof {
        if k < v@.len() {
            assert(lex_le(x@, s[k as int]));
            assert(lex_lt(x@, s[k as int]));
            assert forall|m: int| k <= m < s.len() implies lex_lt(x@, #[trigger] s[m]) by {
                if m > k {
                    assert(lex_lt(s[k as int], s[m]));
                    lemma_lex_lt_trans(x@, s[k as int], s[m]);
                }
            }
        }
    }
    v.insert(k, x);
    proof {
        let n = texts(v@);
        assert(n =~= s.insert(k as int, x@));
        assert forall|i: int, j: int| 0 <= i < j < n.len() implies lex_lt(
            #[trigger] n[i],
            #[trigger] n[j],
        ) by {
            if j < k {
            } else if j == k {
            } else if i < k {
                assert(lex_lt(x@, s[j - 1]));
                lemma_lex_lt_trans(n[i], x@, n[j]);
            } else if i == k {
                assert(lex_lt(x@, s[j - 1]));
            } else {
            }
        }
        assert forall|a: Seq<char>| n.to_set().contains(a) <==> s.to_set().insert(x@).contains(a) by {
            if n.contains(a) {
                let i = choose|i: int| 0 <= i < n.len() && n[i] == a;
                if i < k {
                    assert(s[i] == a);
                } else if i > k {
                    assert(s[i - 1] == a);
                }
            }
            if s.contains(a) {
                let i = choose|i: int| 0 <= i < s.len() && s[i] == a;
                if i < k {
                    assert(n[i] == a);
                } else {
                    assert(n[i + 1] == a);
                }
            }
            if a == x@ {
                assert(n[k as int] == a);
            }
        }
        assert(n.to_set() =~= s.to_set().insert(x@));
    }
}

/// The agents of `project`, other than the local one, that announce an
/// in-flight claim on `branch`: their ids, sorted and without duplicates.
pub fn observed_claimants(
    peers: &[MeshPeer],
    project: &str,
    branch: &str,
    local_agent_id: &str,
) -> (res: Vec<String>)
    ensures
        strictly_sorted(texts(res@)),
        texts(res@).to_set() == claimant_ids(peers@, project@, branch@, local_agent_id@),
{
    let mut out: Vec<String> = Vec::new();
    let mut i: usize = 0;
    assert(texts(out@).to_set() =~= Set::empty());
    assert(claimant_ids(peers@.subrange(0, 0), project@, branch@, local_agent_id@) =~= Set::empty());
    while i < peers.len()
        invariant
            i <= peers@.len(),
            strictly_sorted(texts(out@)),
            texts(out@).to_set() == claimant_ids(
                peers@.subrange(0, i as int),
                project@,
                branch@,
                local_agent_id@,
            ),
        decreases peers@.len() - i,
    {
        let ghost before = claimant_ids(
            peers@.subrange(0, i as int),
            project@,
            branch@,
            local_agent_id@,
        );
        let ghost after = claimant_ids(
            peers@.subrange(0, i + 1),
            project@,
            branch@,
            local_agent_id@,
        );
        let p = &peers[i];
        if peer_claims(p, project, branch, local_agent_id) {
            insert_sorted_unique(&mut out, p.agent_id.clone());
            assert forall|a: Seq<char>| after.contains(a) <==> before.insert(p.agent_id@).contains(
                a,
            ) by {
                if after.contains(a) {
                    let j = choose|j: int|
                        0 <= j < i + 1 && #[trigger] claims(
                            peers@.subrange(0, i + 1)[j],
                            project@,
                            branch@,
                            local_agent_id@,
                        ) && peers@.subrange(0, i + 1)[j].agent_id@ == a;
                    if j < i {
                        assert(peers@.subrange(0, i as int)[j] == peers@.subrange(0, i + 1)[j]);
                    }
                }
                if before.contains(a) {
                    let j = choose|j: int|
                        0 <= j < i && #[trigger] claims(
                            peers@.subrange(0, i as int)[j],
                            project@,
                            branch@,
                            local_agent_id@,
                        ) && peers@.subrange(0, i as int)[j].agent_id@ == a;
                    assert(peers@.subrange(0, i as int)[j] == peers@.subrange(0, i + 1)[j]);
                }
                if a == p.agent_id@ {
                    assert(peers@.subrange(0, i + 1)[i as int] == peers@[i as int]);
                }
            }
            assert(after =~= before.insert(p.agent_id@));
        } else {
            assert forall|a: Seq<char>| after.contains(a) <==> before.contains(a) by {
                if after.contains(a) {
                    let j = choose|j: int|
                        0 <= j < i + 1 && #[trigger] claims(
                            peers@.subrange(0, i + 1)[j],
                            project@,
                            branch@,
                            local_agent_id@,
                        ) && peers@.subrange(0, i + 1)[j].agent_id@ == a;
                    assert(peers@.subrange(0, i + 1)[i as int] == peers@[i as int]);
                    assert(peers@.subrange(0, i as int)[j] == peers@.subrange(0, i + 1)[j]);
                }
                if before.contains(a) {
                    let j = choose|j: int|
                        0 <= j < i && #[trigger] claims(
                            peers@.subrange(0, i as int)[j],
                            project@,
                            branch@,
                            local_agent_id@,
                        ) && peers@.subrange(0, i as int)[j].agent_id@ == a;
                    assert(peers@.subrange(0, i as int)[j] == peers@.subrange(0, i + 1)[j]);
                }
            }
            assert(after =~= before);
        }
        i += 1;
    }
    assert(peers@.subrange(0, peers@.len() as int) =~= peers@);
    out
}

/// The winner of the claim arbitration for `branch`: the least id among the
/// observed claimants and the local agent.  Always present.
pub fn claim_winner(
    peers: &[MeshPeer],
    project: &str,
    branch: &str,
    local_agent_id: &str,
) -> (res: Option<String>)
    ensures
        res.deep_view() == Some(spec_claim_winner(peers@, project@, branch@, local_agent_id@)),
{
    let claimants = observed_claimants(peers, project, branch, local_agent_id);
    let ghost all = claimant_ids(peers@, project@, branch@, local_agent_id@).insert(
        local_agent_id@,
    );
    let ghost c = texts(claimants@);
    let mut best = owned(local_agent_id);
    if claimants.len() > 0 && !text_le(local_agent_id, claimants[0].as_str()) {
        proof {
            lemma_not_le_is_gt(local_agent_id@, c[0]);
        }
        best = claimants[0].clone();
    }
    proof {
        lemma_lex_le_refl(best@);
        assert(c.contains(c[0]) || c.len() == 0);
        assert(all.contains(best@)) by {
            if best@ != local_agent_id@ {
                assert(c.to_set().contains(c[0]));
            }
        }
        assert forall|y: Seq<char>| #[trigger] all.contains(y) implies lex_le(best@, y) by {
            if y != local_agent_id@ {
                assert(c.to_set().contains(y));
                let j = choose|j: int| 0 <= j < c.len() && c[j] == y;
                if j > 0 {
                    assert(lex_lt(c[0], c[j]));
                } else {
                    lemma_lex_le_refl(y);
                }
                lemma_lex_le_trans(best@, c[0], y);
            }
        }
        lemma_least_is(best@, all);
    }
    Some(best)
}

/// The checkout decision for `branch`: occupied by the active occupier if
/// there is one, otherwise occupied by the claim winner when that is another
/// agent, otherwise clear.
pub fn detect_collision(
    peers: &[MeshPeer],
    project: &str,
    branch: &str,
    local_agent_id: &str,
) -> (res: CollisionResult)
    ensures
        collision_view(res) == spec_collision(peers@, project@, branch@, local_agent_id@),
{
    if let Some(by) = active_branch_occupier(peers, project, branch, local_agent_id) {
        return CollisionResult::Occupied { by };
    }
    let winner = claim_winner(peers, project, branch, local_agent_id);
    match winner {
        Some(agent_id) => {
            if !text_eq(agent_id.as_str(), local_agent_id) {
                CollisionResult::Occupied { by: agent_id }
            } else {
                CollisionResult::Clear
            }
        },
        None => CollisionResult::Clear,
    }
}

/// The ids of the announcements in `peers`.
pub open spec fn announced_ids(peers: Seq<MeshPeer>) -> Set<Seq<char>> {
    peers.map_values(|p: MeshPeer| p.agent_id@).to_set()
}

proof fn lemma_ids_finite(peers: Seq<MeshPeer>, project: Seq<char>, branch: Seq<char>, local: Seq<char>)
    ensures
        occupant_ids(peers, project, branch, local).finite(),
        claimant_ids(peers, project, branch, local).finite(),
{
    let all = announced_ids(peers);
    vstd::seq_lib::seq_to_set_is_finite(peers.map_values(|p: MeshPeer| p.agent_id@));
    assert(occupant_ids(peers, project, branch, local).subset_of(all)) by {
        assert forall|id: Seq<char>| #[trigger]
            occupant_ids(peers, project, branch, local).contains(id) implies all.contains(id) by {
            let i = choose|i: int|
                0 <= i < peers.len() && #[trigger] occupies(peers[i], project, branch, local)
                    && peers[i].agent_id@ == id;
            assert(peers.map_values(|p: MeshPeer| p.agent_id@)[i] == id);
        }
    }
    assert(claimant_ids(peers, project, branch, local).subset_of(all)) by {
        assert forall|id: Seq<char>| #[trigger]
            claimant_ids(peers, project, branch, local).contains(id) implies all.contains(id) by {
            let i = choose|i: int|
                0 <= i < peers.len() && #[trigger] claims(peers[i], project, branch, local)
                    && peers[i].agent_id@ == id;
            assert(peers.map_values(|p: MeshPeer| p.agent_id@)[i] == id);
        }
    }
    vstd::set_lib::lemma_set_subset_finite(all, occupant_ids(peers, project, branch, local));
    vstd::set_lib::lemma_set_subset_finite(all, claimant_ids(peers, project, branch, local));
}

/// Every finite set of ids with a member has a least member.
pub proof fn lemma_least_exists(s: Set<Seq<char>>, x: Seq<char>)
    requires
        s.finite(),
        s.contains(x),
    ensures
        is_least(least(s), s),
    decreases s.len(),
{
    let r = s.remove(x);
    if exists|y: Seq<char>| r.contains(y) {
        let y = choose|y: Seq<char>| r.contains(y);
        lemma_least_exists(r, y);
        let ry = least(r);
        if lex_le(x, ry) {
            assert forall|z: Seq<char>| #[trigger] s.contains(z) implies lex_le(x, z) by {
                if z == x {
                    lemma_lex_le_refl(x);
                } else {
                    assert(r.contains(z));
                    lemma_lex_le_trans(x, ry, z);
                }
            }
            lemma_least_is(x, s);
        } else {
            lemma_not_le_is_gt(x, ry);
            assert forall|z: Seq<char>| #[trigger] s.contains(z) implies lex_le(ry, z) by {
                if z != x {
                    assert(r.contains(z));
                }
            }
            lemma_least_is(ry, s);
        }
    } else {
        assert forall|z: Seq<char>| #[trigger] s.contains(z) implies lex_le(x, z) by {
            if z != x {
                assert(r.contains(z));
            }
            lemma_lex_le_refl(x);
        }
        lemma_least_is(x, s);
    }
}

/// The claim winner is a member of the claimants and the local agent, and no
/// member comes before it.
pub proof fn lemma_claim_winner_is_least(
    peers: Seq<MeshPeer>,
    project: Seq<char>,
    branch: Seq<char>,
    local: Seq<char>,
)
    ensures
        is_least(
            spec_claim_winner(peers, project, branch, local),
            claimant_ids(peers, project, branch, local).insert(local),
        ),
{
    lemma_ids_finite(peers, project, branch, local);
    lemma_least_exists(claimant_ids(peers, project, branch, local).insert(local), local);
}

/// The local agent is cleared for `branch` exactly when no other agent of the
/// project is on it and the local id comes strictly before every claimant's id.
pub proof fn clear_iff_local_agent_wins(
    peers: Seq<MeshPeer>,
    project: Seq<char>,
    branch: Seq<char>,
    local: Seq<char>,
)
    ensures
        spec_collision(peers, project, branch, local) is None <==> (!has_occupant(
            peers,
            project,
            branch,
            local,
        ) && forall|c: Seq<char>| #[trigger]
            claimant_ids(peers, project, branch, local).contains(c) ==> lex_lt(local, c)),
{
    lemma_claim_winner_is_least(peers, project, branch, local);
    let all = claimant_ids(peers, project, branch, local).insert(local);
    let w = spec_claim_winner(peers, project, branch, local);
    if !has_occupant(peers, project, branch, local) {
        if w == local {
            assert forall|c: Seq<char>| #[trigger]
                claimant_ids(peers, project, branch, local).contains(c) implies lex_lt(local, c) by {
                assert(all.contains(c));
                let i = choose|i: int|
                    0 <= i < peers.len() && #[trigger] claims(peers[i], project, branch, local)
                        && peers[i].agent_id@ == c;
            }
        } else {
            assert(claimant_ids(peers, project, branch, local).contains(w));
            assert(all.contains(local));
            if lex_lt(local, w) {
                lemma_lex_le_antisym(local, w);
            }
        }
    }
}

/// Whenever another agent of the project is on `branch`, the local agent is
/// diverted, and the reported occupier is the least such agent, whatever
/// claims are in flight.
pub proof fn active_occupancy_takes_precedence(
    peers: Seq<MeshPeer>,
    project: Seq<char>,
    branch: Seq<char>,
    local: Seq<char>,
    i: int,
)
    requires
        0 <= i < peers.len(),
        occupies(peers[i], project, branch, local),
    ensures
        spec_collision(peers, project, branch, local) is Some,
        is_least(
            spec_collision(peers, project, branch, local)->0,
            occupant_ids(peers, project, branch, local),
        ),
{
    lemma_ids_finite(peers, project, branch, local);
    assert(occupant_ids(peers, project, branch, local).contains(peers[i].agent_id@));
    lemma_least_exists(occupant_ids(peers, project, branch, local), peers[i].agent_id@);
}

/// Claim arbitration admits at most one agent: two distinct agents that each
/// see the other's claim on the same branch of the same project are never
/// both cleared to check it out.
pub proof fn claim_arbitration_admits_one_agent(
    peers_a: Seq<MeshPeer>,
    peers_b: Seq<MeshPeer>,
    project: Seq<char>,
    branch: Seq<char>,
    a: Seq<char>,
    b: Seq<char>,
    i: int,
    j: int,
)
    requires
        0 <= i < peers_a.len(),
        0 <= j < peers_b.len(),
        claims(peers_a[i], project, branch, a),
        peers_a[i].agent_id@ == b,
        claims(peers_b[j], project, branch, b),
        peers_b[j].agent_id@ == a,
    ensures
        !(spec_collision(peers_a, project, branch, a) is None && spec_collision(
            peers_b,
            project,
            branch,
            b,
        ) is None),
{
    clear_iff_local_agent_wins(peers_a, project, branch, a);
    clear_iff_local_agent_wins(peers_b, project, branch, b);
    assert(claimant_ids(peers_a, project, branch, a).contains(b));
    assert(claimant_ids(peers_b, project, branch, b).contains(a));
    if spec_collision(peers_a, project, branch, a) is None && spec_collision(
        peers_b,
        project,
        branch,
        b,
    ) is None {
        lemma_lex_le_antisym(a, b);
    }
}

/// Announcements from other projects, and the local agent's own
/// announcements, have no effect on the decision.
pub proof fn foreign_and_own_announcements_are_ignored(
    peers: Seq<MeshPeer>,
    p: MeshPeer,
    project: Seq<char>,
    branch: Seq<char>,
    local: Seq<char>,
)
    requires
        p.current_project@ != project || p.agent_id@ == local,
    ensures
        spec_collision(peers.push(p), project, branch, local) == spec_collision(
            peers,
            project,
            branch,
            local,
        ),
{
    let q = peers.push(p);
    assert(occupant_ids(q, project, branch, local) =~= occupant_ids(peers, project, branch, local))
        by {
        assert forall|id: Seq<char>|
            #[trigger] occupant_ids(q, project, branch, local).contains(id) implies occupant_ids(
            peers,
            project,
            branch,
            local,
        ).contains(id) by {
            let k = choose|k: int|
                0 <= k < q.len() && #[trigger] occupies(q[k], project, branch, local)
                    && q[k].agent_id@ == id;
            assert(q[k] == peers[k]);
        }
        assert forall|id: Seq<char>|
            #[trigger] occupant_ids(peers, project, branch, local).contains(id) implies occupant_ids(
            q,
            project,
            branch,
            local,
        ).contains(id) by {
            let k = choose|k: int|
                0 <= k < peers.len() && #[trigger] occupies(peers[k], project, branch, local)
                    && peers[k].agent_id@ == id;
            assert(q[k] == peers[k]);
        }
    }
    assert(claimant_ids(q, project, branch, local) =~= claimant_ids(peers, project, branch, local))
        by {
        assert forall|id: Seq<char>|
            #[trigger] claimant_ids(q, project, branch, local).contains(id) implies claimant_ids(
            peers,
            project,
            branch,
            local,
        ).contains(id) by {
            let k = choose|k: int|
                0 <= k < q.len() && #[trigger] claims(q[k], project, branch, local) && q[k].agent_id@
                    == id;
            assert(q[k] == peers[k]);
        }
        assert forall|id: Seq<char>|
            #[trigger] claimant_ids(peers, project, branch, local).contains(id) implies claimant_ids(
            q,
            project,
            branch,
            local,
        ).contains(id) by {
            let k = choose|k: int|
                0 <= k < peers.len() && #[trigger] claims(peers[k], project, branch, local)
                    && peers[k].agent_id@ == id;
            assert(q[k] == peers[k]);
        }
    }
    if has_occupant(q, project, branch, local) {
        let k = choose|k: int| 0 <= k < q.len() && #[trigger] occupies(q[k], project, branch, local);
        assert(q[k] == peers[k]);
    }
    if has_occupant(peers, project, branch, local) {
        let k = choose|k: int|
            0 <= k < peers.len() && #[trigger] occupies(peers[k], project, branch, local);
        assert(q[k] == peers[k]);
    }
}

/// The decision depends only on which announcements are present, not on
/// their order or repetition.
pub proof fn decision_depends_only_on_the_set_of_announcements(
    peers1: Seq<MeshPeer>,
    peers2: Seq<MeshPeer>,
    project: Seq<char>,
    branch: Seq<char>,
    local: Seq<char>,
)
    requires
        peers1.to_set() == peers2.to_set(),
    ensures
        spec_collision(peers1, project, branch, local) == spec_collision(
            peers2,
            project,
            branch,
            local,
        ),
{
    lemma_same_set_same_ids(peers1, peers2, project, branch, local);
    lemma_same_set_same_ids(peers2, peers1, project, branch, local);
    assert(occupant_ids(peers1, project, branch, local) =~= occupant_ids(
        peers2,
        project,
        branch,
        local,
    ));
    assert(claimant_ids(peers1, project, branch, local) =~= claimant_ids(
        peers2,
        project,
        branch,
        local,
    ));
}

/// The same agent state: identity, project, current branch and claim; the
/// announcement's name and port aside.
pub open spec fn same_agent_state(p: MeshPeer, q: MeshPeer) -> bool {
    &&& p.agent_id@ == q.agent_id@
    &&& p.current_project@ == q.current_project@
    &&& p.current_branch@ == q.current_branch@
    &&& p.intent_branch.deep_view() == q.intent_branch.deep_view()
}

/// The decision rests on the announced agent state alone: how the
/// announcements are named (a steady-state record or a claim record) and
/// which port they carry make no difference.
pub proof fn announcement_names_and_ports_do_not_matter(
    peers1: Seq<MeshPeer>,
    peers2: Seq<MeshPeer>,
    project: Seq<char>,
    branch: Seq<char>,
    local: Seq<char>,
)
    requires
        peers1.len() == peers2.len(),
        forall|i: int| 0 <= i < peers1.len() ==> same_agent_state(#[trigger] peers1[i], peers2[i]),
    ensures
        spec_collision(peers1, project, branch, local) == spec_collision(
            peers2,
            project,
            branch,
            local,
        ),
{
    assert forall|i: int| 0 <= i < peers1.len() implies (occupies(
        peers1[i],
        project,
        branch,
        local,
    ) == occupies(peers2[i], project, branch, local)) && (claims(
        peers1[i],
        project,
        branch,
        local,
    ) == claims(peers2[i], project, branch, local)) by {
        assert(same_agent_state(peers1[i], peers2[i]));
        match (peers1[i].intent_branch, peers2[i].intent_branch) {
            (Some(x), Some(y)) => {
                assert(x@ == y@);
            },
            _ => {},
        }
    }
    assert(occupant_ids(peers1, project, branch, local) =~= occupant_ids(
        peers2,
        project,
        branch,
        local,
    ));
    assert(claimant_ids(peers1, project, branch, local) =~= claimant_ids(
        peers2,
        project,
        branch,
        local,
    ));
    if has_occupant(peers1, project, branch, local) {
        let k = choose|k: int|
            0 <= k < peers1.len() && #[trigger] occupies(peers1[k], project, branch, local);
        assert(occupies(peers2[k], project, branch, local));
    }
    if has_occupant(peers2, project, branch, local) {
        let k = choose|k: int|
            0 <= k < peers2.len() && #[trigger] occupies(peers2[k], project, branch, local);
        assert(occupies(peers1[k], project, branch, local));
    }
}

proof fn lemma_same_set_same_ids(
    peers1: Seq<MeshPeer>,
    peers2: Seq<MeshPeer>,
    project: Seq<char>,
    branch: Seq<char>,
    local: Seq<char>,
)
    requires
        peers1.to_set() == peers2.to_set(),
    ensures
        occupant_ids(peers1, project, branch, local).subset_of(
            occupant_ids(peers2, project, branch, local),
        ),
        claimant_ids(peers1, project, branch, local).subset_of(
            claimant_ids(peers2, project, branch, local),
        ),
        has_occupant(peers1, project, branch, local) ==> has_occupant(
            peers2,
            project,
            branch,
            local,
        ),
{
    assert forall|id: Seq<char>| #[trigger]
        occupant_ids(peers1, project, branch, local).contains(id) implies occupant_ids(
        peers2,
        project,
        branch,
        local,
    ).contains(id) by {
        let k = choose|k: int|
            0 <= k < peers1.len() && #[trigger] occupies(peers1[k], project, branch, local)
                && peers1[k].agent_id@ == id;
        assert(peers1.to_set().contains(peers1[k]));
        assert(peers2.contains(peers1[k]));
        let m = choose|m: int| 0 <= m < peers2.len() && peers2[m] == peers1[k];
        assert(occupies(peers2[m], project, branch, local));
    }
    assert forall|id: Seq<char>| #[trigger]
        claimant_ids(peers1, project, branch, local).contains(id) implies claimant_ids(
        peers2,
        project,
        branch,
        local,
    ).contains(id) by {
        let k = choose|k: int|
            0 <= k < peers1.len() && #[trigger] claims(peers1[k], project, branch, local)
                && peers1[k].agent_id@ == id;
        assert(peers1.to_set().contains(peers1[k]));
        assert(peers2.contains(peers1[k]));
        let m = choose|m: int| 0 <= m < peers2.len() && peers2[m] == peers1[k];
        assert(claims(peers2[m], project, branch, local));
    }
    if has_occupant(peers1, project, branch, local) {
        let k = choose|k: int|
            0 <= k < peers1.len() && #[trigger] occupies(peers1[k], project, branch, local);
        assert(peers1.to_set().contains(peers1[k]));
        assert(peers2.contains(peers1[k]));
        let m = choose|m: int| 0 <= m < peers2.len() && peers2[m] == peers1[k];
        assert(occupies(peers2[m], project, branch, local));
    }
}

/// Characters kept as they are (up to case) in a branch-name component.
pub open spec fn branch_char_allowed(c: char) -> bool {
    is_ascii_alnum(c) || c == '-' || c == '_' || c == '.'
}

/// Left-to-right pass of the branch sanitizer: allowed characters are kept
/// in lower case, and each run of other characters becomes a single `'-'`.
/// The flag tells whether the last character emitted stands for such a run.
pub open spec fn branch_pass(s: Seq<char>) -> (Seq<char>, bool)
    decreases s.len(),
{
    if s.len() == 0 {
        (Seq::empty(), false)
    } else {
        let (acc, prev) = branch_pass(s.drop_last());
        let c = s.last();
        if branch_char_allowed(c) {
            (acc.push(ascii_lower(c)), false)
        } else if !prev {
            (acc.push('-'), true)
        } else {
            (acc, true)
        }
    }
}

/// The fallback component for an id that leaves nothing usable.
pub open spec fn agent_text() -> Seq<char> {
    seq!['a', 'g', 'e', 'n', 't']
}

/// The sanitized branch component of `s`: the pass above, with leading and
/// trailing dashes removed, or `agent` when nothing remains.
pub open spec fn sanitized_branch_component(s: Seq<char>) -> Seq<char> {
    let t = strip(branch_pass(s).0, Strip::Dashes);
    if t.len() == 0 {
        agent_text()
    } else {
        t
    }
}

/// The diverted branch for `requested` and `agent`: `<requested>--<component>`.
pub open spec fn diverted_branch(requested: Seq<char>, agent: Seq<char>) -> Seq<char> {
    requested + seq!['-', '-'] + sanitized_branch_component(agent)
}

/// A character that can stand in a sanitized component.
pub open spec fn clean_branch_char(c: char) -> bool {
    branch_char_allowed(c) && ascii_lower(c) == c
}

fn branch_char_allowed_exec(c: char) -> (r: bool)
    ensures
        r == branch_char_allowed(c),
{
    is_ascii_alnum_char(c) || c == '-' || c == '_' || c == '.'
}

fn agent_chars() -> (v: Vec<char>)
    ensures
        v@ == agent_text(),
{
    let v = to_chars("agent");
    proof {
        reveal_strlit("agent");
    }
    assert(v@ =~= agent_text());
    v
}

/// Makes an agent id safe to use as a branch-name component: ASCII letters
/// and digits, `-`, `_` and `.` are kept (letters in lower case), each run of
/// other characters becomes one `-`, leading and trailing dashes are removed,
/// and an id that leaves nothing becomes `agent`.
pub fn sanitize_branch_component(value: &str) -> (res: String)
    ensures
        res@ == sanitized_branch_component(value@),
{
    let chars = to_chars(value);
    let mut out: Vec<char> = Vec::new();
    let mut previous_was_dash = false;
    let mut i: usize = 0;
    assert(chars@.take(0) =~= Seq::<char>::empty());
    while i < chars.len()
        invariant
            i <= chars@.len(),
            (out@, previous_was_dash) == branch_pass(chars@.take(i as int)),
        decreases chars@.len() - i,
    {
        let c = chars[i];
        assert(chars@.take(i + 1).drop_last() =~= chars@.take(i as int));
        assert(chars@.take(i + 1).last() == c);
        if branch_char_allowed_exec(c) {
            out.push(ascii_lower_char(c));
            previous_was_dash = false;
        } else if !previous_was_dash {
            out.push('-');
            previous_was_dash = true;
        }
        i += 1;
    }
    assert(chars@.take(chars@.len() as int) =~= chars@);
    let (lo, hi) = strip_bounds(&out, &Strip::Dashes);
    if lo == hi {
        from_chars(&agent_chars())
    } else {
        from_chars(&slice_chars(&out, lo, hi))
    }
}

/// The branch an agent is diverted to when `requested_branch` is taken:
/// `<requested_branch>--<sanitized agent id>`.
pub fn diverted_branch_name(requested_branch: &str, local_agent_id: &str) -> (res: String)
    ensures
        res@ == diverted_branch(requested_branch@, local_agent_id@),
{
    let mut out = to_chars(requested_branch);
    out.push('-');
    out.push('-');
    let suffix = to_chars(sanitize_branch_component(local_agent_id).as_str());
    append_chars(&mut out, &suffix);
    assert(out@ =~= diverted_branch(requested_branch@, local_agent_id@));
    from_chars(&out)
}

proof fn lemma_branch_pass_clean(s: Seq<char>)
    ensures
        forall|j: int| 0 <= j < branch_pass(s).0.len() ==> clean_branch_char(
            #[trigger] branch_pass(s).0[j],
        ),
    decreases s.len(),
{
    if s.len() > 0 {
        lemma_branch_pass_clean(s.drop_last());
        let (acc, prev) = branch_pass(s.drop_last());
        let c = s.last();
        let out = branch_pass(s).0;
        if branch_char_allowed(c) {
            let l = ascii_lower(c);
            if 65 <= c as u32 <= 90 {
                assert(l as u32 == c as u32 + 32);
            }
            assert(clean_branch_char(l));
            assert(out == acc.push(l));
        }
        assert forall|j: int| 0 <= j < out.len() implies clean_branch_char(#[trigger] out[j]) by {
            if j < acc.len() {
                assert(out[j] == acc[j]);
            }
        }
    }
}

proof fn lemma_branch_pass_of_clean(s: Seq<char>)
    requires
        forall|j: int| 0 <= j < s.len() ==> clean_branch_char(#[trigger] s[j]),
    ensures
        branch_pass(s) == (s, false),
    decreases s.len(),
{
    if s.len() > 0 {
        assert forall|j: int| 0 <= j < s.drop_last().len() implies clean_branch_char(
            #[trigger] s.drop_last()[j],
        ) by {
            assert(s.drop_last()[j] == s[j]);
        }
        lemma_branch_pass_of_clean(s.drop_last());
        assert(clean_branch_char(s[s.len() - 1]));
        assert(s.drop_last().push(s.last()) =~= s);
    }
}

/// What a sanitized component looks like: not empty, made only of lower-case
/// ASCII letters, digits, `-`, `_` and `.`, and neither starting nor ending
/// with `-`.
pub proof fn sanitized_component_is_ref_safe(s: Seq<char>)
    ensures
        sanitized_branch_component(s).len() > 0,
        forall|j: int|
            0 <= j < sanitized_branch_component(s).len() ==> clean_branch_char(
                #[trigger] sanitized_branch_component(s)[j],
            ),
        sanitized_branch_component(s)[0] != '-',
        sanitized_branch_component(s).last() != '-',
{
    let p = branch_pass(s).0;
    let t = strip(p, Strip::Dashes);
    lemma_branch_pass_clean(s);
    lemma_strip_ends(p, Strip::Dashes);
    lemma_strip_subrange(p, Strip::Dashes);
    if t.len() > 0 {
        let (lo, hi) = choose|lo: int, hi: int|
            0 <= lo <= hi <= p.len() && t == p.subrange(lo, hi);
        assert forall|j: int| 0 <= j < t.len() implies clean_branch_char(#[trigger] t[j]) by {
            assert(t[j] == p[lo + j]);
        }
    }
}

/// Sanitizing a sanitized component changes nothing.
pub proof fn sanitize_branch_component_is_idempotent(s: Seq<char>)
    ensures
        sanitized_branch_component(sanitized_branch_component(s)) == sanitized_branch_component(
            s,
        ),
{
    let t = sanitized_branch_component(s);
    sanitized_component_is_ref_safe(s);
    lemma_branch_pass_of_clean(t);
    lemma_strip_noop(t, Strip::Dashes);
}

/// The diverted branch always differs from the requested one, keeps it as a
/// prefix followed by `--`, and differs between agents whose ids sanitize
/// differently.
pub proof fn diverted_branch_is_distinct(
    requested: Seq<char>,
    agent: Seq<char>,
    other_agent: Seq<char>,
)
    ensures
        diverted_branch(requested, agent) != requested,
        diverted_branch(requested, agent).subrange(0, requested.len() + 2int) == requested + seq![
            '-',
            '-',
        ],
        sanitized_branch_component(agent) != sanitized_branch_component(other_agent)
            ==> diverted_branch(requested, agent) != diverted_branch(requested, other_agent),
{
    let d = diverted_branch(requested, agent);
    sanitized_component_is_ref_safe(agent);
    assert(d.len() > requested.len());
    assert(d.subrange(0, requested.len() + 2int) =~= requested + seq!['-', '-']);
    let e = diverted_branch(requested, other_agent);
    if sanitized_branch_component(agent) != sanitized_branch_component(other_agent) && d == e {
        let n: int = requested.len() + 2int;
        assert(d.subrange(n, d.len() as int) =~= sanitized_branch_component(agent));
        assert(e.subrange(n, e.len() as int) =~= sanitized_branch_component(other_agent));
    }
}


/// A character outside ASCII letters, digits, `-`, `_` and `.`.
pub open spec fn outside_ref_charset(c: char) -> bool {
    !((48 <= c as u32 <= 57) || (65 <= c as u32 <= 90) || (97 <= c as u32 <= 122) || c == '-'
        || c == '_' || c == '.')
}

proof fn lemma_pass_collapses(x: Seq<char>, c1: char, c2: char, y: Seq<char>)
    requires
        outside_ref_charset(c1),
        outside_ref_charset(c2),
    ensures
        branch_pass(x + seq![c1, c2] + y) == branch_pass(x + seq![c1] + y),
    decreases y.len(),
{
    if y.len() == 0 {
        assert(x + seq![c1, c2] + y =~= (x + seq![c1]).push(c2));
        assert(x + seq![c1] + y =~= x.push(c1));
        assert((x + seq![c1]).push(c2).drop_last() =~= x.push(c1));
        assert(x.push(c1).drop_last() =~= x);
    } else {
        lemma_pass_collapses(x, c1, c2, y.drop_last());
        assert((x + seq![c1, c2] + y).drop_last() =~= x + seq![c1, c2] + y.drop_last());
        assert((x + seq![c1] + y).drop_last() =~= x + seq![c1] + y.drop_last());
        assert((x + seq![c1, c2] + y).last() == y.last());
        assert((x + seq![c1] + y).last() == y.last());
    }
}

/// Each run of characters outside the ref-safe set becomes a single `-`:
/// doubling a character of such a run changes nothing in the sanitized
/// component, so `Coder 01 / QA` and `Coder 01/QA` give the same component.
pub proof fn a_run_of_unsafe_characters_becomes_one_dash(
    x: Seq<char>,
    c1: char,
    c2: char,
    y: Seq<char>,
)
    requires
        outside_ref_charset(c1),
        outside_ref_charset(c2),
    ensures
        sanitized_branch_component(x + seq![c1, c2] + y) == sanitized_branch_component(
            x + seq![c1] + y,
        ),
{
    lemma_pass_collapses(x, c1, c2, y);
}

/// Lower-case ASCII letters of `s`, every other character unchanged.
pub open spec fn lowered(s: Seq<char>) -> Seq<char> {
    s.map_values(|c: char| ascii_lower(c))
}

proof fn lemma_pass_keeps_allowed(x: Seq<char>, y: Seq<char>)
    requires
        forall|j: int| 0 <= j < y.len() ==> !outside_ref_charset(#[trigger] y[j]),
    ensures
        branch_pass(x + y).0 == branch_pass(x).0 + lowered(y),
        y.len() > 0 ==> !branch_pass(x + y).1,
    decreases y.len(),
{
    if y.len() == 0 {
        assert(x + y =~= x);
        assert(lowered(y) =~= Seq::<char>::empty());
        assert(branch_pass(x).0 + lowered(y) =~= branch_pass(x).0);
    } else {
        let z = y.drop_last();
        assert forall|j: int| 0 <= j < z.len() implies !outside_ref_charset(#[trigger] z[j]) by {
            assert(z[j] == y[j]);
        }
        lemma_pass_keeps_allowed(x, z);
        assert((x + y).drop_last() =~= x + z);
        assert((x + y).last() == y.last());
        assert(!outside_ref_charset(y[y.len() - 1]));
        assert(branch_char_allowed(y.last()));
        assert(lowered(y) =~= lowered(z).push(ascii_lower(y.last())));
        assert(branch_pass(x + y).0 =~= branch_pass(x).0 + lowered(y));
    }
}

/// A character outside the ref-safe set between two runs of ref-safe
/// characters becomes exactly one `-`, and the runs are kept in lower case:
/// the sanitized component of `a`, that character and `b` is `a`, `-` and
/// `b` lowered, so `Coder` and `QA` around a space give `coder-qa`.
pub proof fn unsafe_characters_between_safe_ones_become_one_dash(
    a: Seq<char>,
    c: char,
    b: Seq<char>,
)
    requires
        a.len() > 0,
        b.len() > 0,
        a[0] != '-',
        b.last() != '-',
        forall|j: int| 0 <= j < a.len() ==> !outside_ref_charset(#[trigger] a[j]),
        forall|j: int| 0 <= j < b.len() ==> !outside_ref_charset(#[trigger] b[j]),
        outside_ref_charset(c),
    ensures
        sanitized_branch_component(a + seq![c] + b) == lowered(a) + seq!['-'] + lowered(b),
{
    let e = Seq::<char>::empty();
    lemma_pass_keeps_allowed(e, a);
    assert(e + a =~= a);
    assert(branch_pass(e).0 + lowered(a) =~= lowered(a));
    let ac = a + seq![c];
    assert(ac.drop_last() =~= a);
    assert(ac.last() == c);
    assert(branch_pass(ac) == (lowered(a).push('-'), true));
    lemma_pass_keeps_allowed(ac, b);
    let p = branch_pass(a + seq![c] + b).0;
    assert(p =~= lowered(a) + seq!['-'] + lowered(b));
    assert(p[0] == ascii_lower(a[0]));
    assert(p.last() == ascii_lower(b.last()));
    lemma_strip_noop(p, Strip::Dashes);
}

} // verus!
