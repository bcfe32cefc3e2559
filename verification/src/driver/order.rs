//! Deterministic caller-owned ordering of pending work: who is woken, in what
//! order, who is stalled, and who takes a broadcast nobody else fits.

use vstd::prelude::*;

use crate::completion::{all_ids, history_pending, CompletionEpisodeState, EpisodeModel, ParticipantModel};
use crate::driver::state::{open_assignment, open_at, owed_turn, pending_has, DriverModel, DriverState};
use crate::keyed::key_index;
use crate::keyed::lemma_key_index;
use crate::text::str_eq;
use crate::types::id_views;

verus! {

/// The ids of `c`, in order, that `keep` admits, skipping any already in
/// `pre` or already taken.
pub open spec fn fresh_ids(pre: Seq<Seq<char>>, c: Seq<Seq<char>>, keep: spec_fn(Seq<char>) -> bool) -> Seq<Seq<char>>
    decreases c.len(),
{
    if c.len() == 0 {
        seq![]
    } else {
        let r = fresh_ids(pre, c.drop_last(), keep);
        let x = c.last();
        if keep(x) && !pre.contains(x) && !r.contains(x) {
            r.push(x)
        } else {
            r
        }
    }
}

/// Admits every id.
pub open spec fn any_id() -> spec_fn(Seq<char>) -> bool {
    |id: Seq<char>| true
}

/// Admits the ids of participants that still owe work.
pub open spec fn pending_keep(ps: Seq<ParticipantModel>) -> spec_fn(Seq<char>) -> bool {
    |id: Seq<char>| pending_has(ps, id)
}

/// Admits the pending seats owed a turn.
pub open spec fn wake_keep(s: DriverModel) -> spec_fn(Seq<char>) -> bool {
    |id: Seq<char>| pending_has(s.episode.participants, id) && owed_turn(s, id)
}

/// Admits the ids in `ids`.
pub open spec fn member_keep(ids: Seq<Seq<char>>) -> spec_fn(Seq<char>) -> bool {
    |id: Seq<char>| ids.contains(id)
}

/// Pending seats owed a turn, in accepted order then participant order;
/// none once the episode is complete.
pub open spec fn wake_order(s: DriverModel, complete: bool) -> Seq<Seq<char>> {
    if complete {
        seq![]
    } else {
        fresh_ids(seq![], s.pending_order + all_ids(s.episode.participants), wake_keep(s))
    }
}

/// The accepted order with settled seats and repeats dropped.
pub open spec fn pruned_order(order: Seq<Seq<char>>, ps: Seq<ParticipantModel>) -> Seq<Seq<char>> {
    fresh_ids(seq![], order, pending_keep(ps))
}

/// The participants in `ps` that owe work and are not owed a turn.
pub open spec fn stalled_among(s: DriverModel, ps: Seq<ParticipantModel>) -> Seq<Seq<char>>
    decreases ps.len(),
{
    if ps.len() == 0 {
        seq![]
    } else {
        let r = stalled_among(s, ps.drop_last());
        if history_pending(ps.last().assignments) && !owed_turn(s, ps.last().agent_id) {
            r.push(ps.last().agent_id)
        } else {
            r
        }
    }
}

/// Pending seats nothing will wake.
pub open spec fn stalled_spec(s: DriverModel) -> Seq<Seq<char>> {
    stalled_among(s, s.episode.participants)
}

/// Every participant once, accepted order first: the ring a broadcast
/// fallback is taken from.
pub open spec fn fallback_ring(e: EpisodeModel, order: Seq<Seq<char>>) -> Seq<Seq<char>> {
    fresh_ids(seq![], order + all_ids(e.participants), member_keep(all_ids(e.participants)))
}

/// The seat after `author` on the ring, when the author is on it with
/// somebody else.
pub open spec fn fallback_spec(e: EpisodeModel, order: Seq<Seq<char>>, author: Seq<char>) -> Option<Seq<char>> {
    let ring = fallback_ring(e, order);
    if ring.contains(author) && ring.len() > 1 {
        Some(ring[(key_index(ring, author) + 1) % (ring.len() as int)])
    } else {
        None
    }
}

/// Whether `id` is among `v`.
pub fn contains_id(v: &Vec<String>, id: &str) -> (r: bool)
    ensures
        r == id_views(v@).contains(id@),
{
    let mut i: usize = 0;
    while i < v.len()
        invariant
            i <= v@.len(),
            forall|k: int| 0 <= k < i ==> (#[trigger] v@[k])@ != id@,
        decreases v@.len() - i,
    {
        if str_eq(v[i].as_str(), id) {
            assert(id_views(v@)[i as int] == id@);
            return true;
        }
        i = i + 1;
    }
    proof {
        if id_views(v@).contains(id@) {
            let k = choose|k: int| 0 <= k < id_views(v@).len() && id_views(v@)[k] == id@;
            assert(v@[k]@ == id@);
        }
    }
    false
}

/// Whether some participant named `id` still owes work.
pub fn has_pending(episode: &CompletionEpisodeState, id: &str) -> (r: bool)
    ensures
        r == pending_has(episode@.participants, id@),
{
    let ghost ps = episode@.participants;
    let mut i: usize = 0;
    while i < episode.participants.len()
        invariant
            i <= episode.participants@.len(),
            ps == episode@.participants,
            forall|k: int| 0 <= k < i ==> !((#[trigger] ps[k]).agent_id == id@ && history_pending(ps[k].assignments)),
        decreases episode.participants@.len() - i,
    {
        assert(ps[i as int] == episode.participants@[i as int]@);
        if str_eq(episode.participants[i].agent_id.as_str(), id) && episode.participants[i].is_pending() {
            return true;
        }
        i = i + 1;
    }
    false
}

/// Owed a turn on the assignment it holds. A host that never reports
/// delivery keeps every pending seat owed.
pub fn owed_a_turn(state: &DriverState, agent_id: &str) -> (r: bool)
    requires
        state.wf(),
    ensures
        r == owed_turn(state@, agent_id@),
{
    let assigned_at = match open_assignment(&state.episode, agent_id) {
        Some(at) => at,
        None => {
            return false;
        },
    };
    let ran = match state.seen.ran_for.get(agent_id) {
        Some(at) => at.0 == assigned_at.0,
        None => false,
    };
    let behind = match state.seen.delivered_through.get(agent_id) {
        Some(through) => through.0 < state.freshness_floor.0,
        None => true,
    };
    !ran || behind
}

/// Append to `order` each recipient it does not already hold, once.
pub fn extend_pending_order(order: &mut Vec<String>, recipients: &[String])
    ensures
        id_views(final(order)@) == id_views(old(order)@) + fresh_ids(
            id_views(old(order)@),
            id_views(recipients@),
            any_id(),
        ),
{
    let ghost pre = id_views(order@);
    let ghost c = id_views(recipients@);
    let mut added: Vec<String> = Vec::new();
    let mut i: usize = 0;
    while i < recipients.len()
        invariant
            i <= recipients@.len(),
            pre == id_views(order@),
            c == id_views(recipients@),
            id_views(added@) == fresh_ids(pre, c.subrange(0, i as int), any_id()),
        decreases recipients@.len() - i,
    {
        assert(c.subrange(0, i + 1).drop_last() =~= c.subrange(0, i as int));
        assert(c.subrange(0, i + 1).last() == recipients@[i as int]@);
        let id = recipients[i].as_str();
        if !contains_id(order, id) && !contains_id(&added, id) {
            let ghost before = id_views(added@);
            added.push(recipients[i].clone());
            assert(id_views(added@) =~= before.push(id@));
        }
        i = i + 1;
    }
    assert(c.subrange(0, i as int) =~= c);
    let ghost mid = id_views(added@);
    let mut j: usize = 0;
    while j < added.len()
        invariant
            j <= added@.len(),
            id_views(order@) == pre + mid.subrange(0, j as int),
            mid == id_views(added@),
        decreases added@.len() - j,
    {
        let ghost before = id_views(order@);
        order.push(added[j].clone());
        assert(id_views(order@) =~= before.push(mid[j as int]));
        assert(mid.subrange(0, j + 1) =~= mid.subrange(0, j as int).push(mid[j as int]));
        j = j + 1;
    }
    assert(mid.subrange(0, j as int) =~= mid);
}

/// Drop from the accepted order every seat that no longer owes work, and
/// every repeat.
pub fn prune_pending_order(state: &mut DriverState)
    requires
        old(state).wf(),
    ensures
        final(state).wf(),
        final(state)@ == (DriverModel {
            pending_order: pruned_order(old(state)@.pending_order, old(state)@.episode.participants),
            ..old(state)@
        }),
{
    let ghost c = state@.pending_order;
    let ghost ps = state@.episode.participants;
    let mut kept: Vec<String> = Vec::new();
    let mut i: usize = 0;
    while i < state.pending_order.len()
        invariant
            i <= state.pending_order@.len(),
            c == id_views(state.pending_order@),
            ps == state@.episode.participants,
            id_views(kept@) == fresh_ids(seq![], c.subrange(0, i as int), pending_keep(ps)),
        decreases state.pending_order@.len() - i,
    {
        assert(c.subrange(0, i + 1).drop_last() =~= c.subrange(0, i as int));
        assert(c.subrange(0, i + 1).last() == state.pending_order@[i as int]@);
        let id = state.pending_order[i].as_str();
        if has_pending(&state.episode, id) && !contains_id(&kept, id) {
            let ghost before = id_views(kept@);
            kept.push(state.pending_order[i].clone());
            assert(id_views(kept@) =~= before.push(id@));
        }
        i = i + 1;
    }
    assert(c.subrange(0, i as int) =~= c);
    state.pending_order = kept;
}

/// Pending seats owed a turn, in accepted order then participant order.
/// A settled seat that was asked something is not woken here.
pub fn pending_ids_in_order(state: &DriverState, complete: bool) -> (r: Vec<String>)
    requires
        state.wf(),
    ensures
        id_views(r@) == wake_order(state@, complete),
{
    if complete {
        let r: Vec<String> = Vec::new();
        assert(id_views(r@) =~= Seq::<Seq<char>>::empty());
        return r;
    }
    let ghost s = state@;
    let ghost c = s.pending_order + all_ids(s.episode.participants);
    let n1 = state.pending_order.len();
    let mut ordered: Vec<String> = Vec::new();
    let mut i: usize = 0;
    while i < n1
        invariant
            state.wf(),
            s == state@,
            c == s.pending_order + all_ids(s.episode.participants),
            n1 == state.pending_order@.len(),
            i <= n1,
            id_views(ordered@) == fresh_ids(seq![], c.subrange(0, i as int), wake_keep(s)),
        decreases n1 - i,
    {
        assert(c.subrange(0, i + 1).drop_last() =~= c.subrange(0, i as int));
        let id: &str = state.pending_order[i].as_str();
        assert(c.subrange(0, i + 1).last() == id@);
        if has_pending(&state.episode, id) && owed_a_turn(state, id) && !contains_id(&ordered, id) {
            let ghost before = id_views(ordered@);
            ordered.push(String::from_str(id));
            assert(id_views(ordered@) =~= before.push(id@));
        }
        i = i + 1;
    }
    let mut j: usize = 0;
    while j < state.episode.participants.len()
        invariant
            state.wf(),
            s == state@,
            c == s.pending_order + all_ids(s.episode.participants),
            n1 == state.pending_order@.len(),
            j <= state.episode.participants@.len(),
            id_views(ordered@) == fresh_ids(seq![], c.subrange(0, n1 + j), wake_keep(s)),
        decreases state.episode.participants@.len() - j,
    {
        assert(c.subrange(0, n1 + j + 1).drop_last() =~= c.subrange(0, n1 + j));
        assert(s.episode.participants[j as int] == state.episode.participants@[j as int]@);
        let id: &str = state.episode.participants[j].agent_id.as_str();
        assert(c.subrange(0, n1 + j + 1).last() == id@);
        if has_pending(&state.episode, id) && owed_a_turn(state, id) && !contains_id(&ordered, id) {
            let ghost before = id_views(ordered@);
            ordered.push(String::from_str(id));
            assert(id_views(ordered@) =~= before.push(id@));
        }
        j = j + 1;
    }
    assert(c.subrange(0, n1 + j) =~= c);
    ordered
}

/// Pending seats that are not owed a turn: they ran for what they hold and
/// have been shown everything committed.
pub fn stalled_ids(state: &DriverState) -> (r: Vec<String>)
    requires
        state.wf(),
    ensures
        id_views(r@) == stalled_spec(state@),
{
    let ghost s = state@;
    let ghost ps = s.episode.participants;
    let mut out: Vec<String> = Vec::new();
    let mut i: usize = 0;
    while i < state.episode.participants.len()
        invariant
            state.wf(),
            s == state@,
            ps == s.episode.participants,
            i <= ps.len(),
            id_views(out@) == stalled_among(s, ps.subrange(0, i as int)),
        decreases ps.len() - i,
    {
        assert(ps.subrange(0, i + 1).drop_last() =~= ps.subrange(0, i as int));
        let p = &state.episode.participants[i];
        assert(ps[i as int] == p@);
        assert(ps.subrange(0, i + 1).last() == p@);
        if p.is_pending() && !owed_a_turn(state, p.agent_id.as_str()) {
            let ghost before = id_views(out@);
            out.push(p.agent_id.clone());
            assert(id_views(out@) =~= before.push(p@.agent_id));
        }
        i = i + 1;
    }
    assert(ps.subrange(0, i as int) =~= ps);
    out
}

impl DriverState {
    /// Pending seats nothing will ever wake: they ran for what they hold and
    /// have been shown everything.
    pub fn stalled(&self) -> (r: Vec<String>)
        requires
            self.wf(),
        ensures
            id_views(r@) == stalled_spec(self@),
    {
        stalled_ids(self)
    }
}

/// Who takes a broadcast the router places with nobody: the next seat after
/// the author on the ring of participants, accepted order first.
pub fn broadcast_fallback(episode: &CompletionEpisodeState, pending_order: &Vec<String>, author_id: &str) -> (r:
    Option<String>)
    ensures
        match r {
            Some(id) => fallback_spec(episode@, id_views(pending_order@), author_id@) == Some(id@),
            None => fallback_spec(episode@, id_views(pending_order@), author_id@) is None,
        },
{
    let ghost e = episode@;
    let ghost ids = all_ids(e.participants);
    let ghost c = id_views(pending_order@) + ids;
    let n1 = pending_order.len();
    let mut participants: Vec<String> = Vec::new();
    let mut j: usize = 0;
    while j < episode.participants.len()
        invariant
            j <= episode.participants@.len(),
            e == episode@,
            ids == all_ids(e.participants),
            id_views(participants@) == ids.subrange(0, j as int),
        decreases episode.participants@.len() - j,
    {
        let ghost before = id_views(participants@);
        participants.push(episode.participants[j].agent_id.clone());
        assert(e.participants[j as int] == episode.participants@[j as int]@);
        assert(id_views(participants@) =~= before.push(ids[j as int]));
        assert(ids.subrange(0, j + 1) =~= ids.subrange(0, j as int).push(ids[j as int]));
        j = j + 1;
    }
    assert(ids.subrange(0, j as int) =~= ids);
    let mut ring: Vec<String> = Vec::new();
    let mut i: usize = 0;
    while i < n1
        invariant
            e == episode@,
            ids == all_ids(e.participants),
            id_views(participants@) == ids,
            c == id_views(pending_order@) + ids,
            n1 == pending_order@.len(),
            i <= n1,
            id_views(ring@) == fresh_ids(seq![], c.subrange(0, i as int), member_keep(ids)),
        decreases n1 - i,
    {
        assert(c.subrange(0, i + 1).drop_last() =~= c.subrange(0, i as int));
        let id: &str = pending_order[i].as_str();
        assert(c.subrange(0, i + 1).last() == id@);
        if contains_id(&participants, id) && !contains_id(&ring, id) {
            let ghost before = id_views(ring@);
            ring.push(String::from_str(id));
            assert(id_views(ring@) =~= before.push(id@));
        }
        i = i + 1;
    }
    let mut j: usize = 0;
    while j < participants.len()
        invariant
            e == episode@,
            ids == all_ids(e.participants),
            id_views(participants@) == ids,
            c == id_views(pending_order@) + ids,
            n1 == pending_order@.len(),
            j <= participants@.len(),
            id_views(ring@) == fresh_ids(seq![], c.subrange(0, n1 + j), member_keep(ids)),
        decreases participants@.len() - j,
    {
        assert(c.subrange(0, n1 + j + 1).drop_last() =~= c.subrange(0, n1 + j));
        let id: &str = participants[j].as_str();
        assert(c.subrange(0, n1 + j + 1).last() == id@);
        if contains_id(&participants, id) && !contains_id(&ring, id) {
            let ghost before = id_views(ring@);
            ring.push(String::from_str(id));
            assert(id_views(ring@) =~= before.push(id@));
        }
        j = j + 1;
    }
    assert(c.subrange(0, n1 + j) =~= c);
    let ghost rv = id_views(ring@);
    let mut k: usize = 0;
    while k < ring.len()
        invariant
            k <= ring@.len(),
            rv == id_views(ring@),
            rv == fallback_ring(episode@, id_views(pending_order@)),
            forall|x: int| 0 <= x < k ==> (#[trigger] rv[x]) != author_id@,
        decreases ring@.len() - k,
    {
        if str_eq(ring[k].as_str(), author_id) {
            proof {
                lemma_key_index(rv, author_id@);
                assert(rv.contains(author_id@)) by {
                    assert(rv[k as int] == author_id@);
                }
                let p = crate::keyed::key_is(rv, author_id@);
                assert forall|x: int| 0 <= x < k implies !#[trigger] p(x) by {}
                crate::first::lemma_first_index_unique(p, rv.len() as int, k as int);
            }
            if ring.len() > 1 {
                let next = (k + 1) % ring.len();
                return Some(ring[next].clone());
            }
            return None;
        }
        k = k + 1;
    }
    proof {
        if rv.contains(author_id@) {
            let x = choose|x: int| 0 <= x < rv.len() && rv[x] == author_id@;
            assert(rv[x] != author_id@);
        }
    }
    None
}

} // verus!

verus! {

/// What `fresh_ids` takes: every id once, each from `c`, admitted by `keep`
/// and not in `pre`; and every such id of `c` is taken.
pub proof fn lemma_fresh_ids(pre: Seq<Seq<char>>, c: Seq<Seq<char>>, keep: spec_fn(Seq<char>) -> bool)
    ensures
        crate::text::distinct(fresh_ids(pre, c, keep)),
        forall|x: Seq<char>| #[trigger] fresh_ids(pre, c, keep).contains(x) <==> (c.contains(x) && keep(x) && !pre.contains(x)),
        fresh_ids(pre, c, keep).len() <= c.len(),
    decreases c.len(),
{
    if c.len() > 0 {
        lemma_fresh_ids(pre, c.drop_last(), keep);
        let r = fresh_ids(pre, c.drop_last(), keep);
        let x = c.last();
        assert forall|y: Seq<char>| #[trigger] fresh_ids(pre, c, keep).contains(y) <==> (c.contains(y) && keep(y) && !pre.contains(y)) by {
            if c.contains(y) && !c.drop_last().contains(y) {
                let k = choose|k: int| 0 <= k < c.len() && c[k] == y;
                if k < c.len() - 1 {
                    assert(c.drop_last()[k] == y);
                }
                assert(y == x);
            }
            if c.drop_last().contains(y) {
                let k = choose|k: int| 0 <= k < c.drop_last().len() && c.drop_last()[k] == y;
                assert(c[k] == y);
            }
            if keep(x) && !pre.contains(x) && !r.contains(x) {
                let r2 = r.push(x);
                if r2.contains(y) && y != x {
                    let k = choose|k: int| 0 <= k < r2.len() && r2[k] == y;
                    assert(r[k] == y);
                }
                if r.contains(y) {
                    let k = choose|k: int| 0 <= k < r.len() && r[k] == y;
                    assert(r2[k] == y);
                }
                if y == x {
                    assert(r2[r.len() as int] == y);
                }
            }
        }
        if keep(x) && !pre.contains(x) && !r.contains(x) {
            let r2 = r.push(x);
            assert forall|i: int, j: int| 0 <= i < j < r2.len() implies #[trigger] r2[i] != #[trigger] r2[j] by {
                if j == r.len() {
                    assert(r.contains(r[i]));
                } else {
                    assert(r[i] != r[j]);
                }
            }
        }
    }
}

} // verus!

verus! {

/// The broadcast ring read straight off its definition: the accepted order,
/// then every participant it leaves out, in episode order.
pub open spec fn accepted_ring(e: EpisodeModel, order: Seq<Seq<char>>) -> Seq<Seq<char>> {
    order + all_ids(e.participants).filter(|x: Seq<char>| !order.contains(x))
}

/// A list whose ids are all distinct and all admitted is taken whole.
proof fn lemma_fresh_whole(s: Seq<Seq<char>>, keep: spec_fn(Seq<char>) -> bool)
    requires
        crate::text::distinct(s),
        forall|i: int| 0 <= i < s.len() ==> #[trigger] keep(s[i]),
    ensures
        fresh_ids(seq![], s, keep) == s,
    decreases s.len(),
{
    if s.len() > 0 {
        lemma_fresh_whole(s.drop_last(), keep);
        assert(keep(s[s.len() - 1]));
        if s.drop_last().contains(s.last()) {
            let k = choose|k: int| 0 <= k < s.drop_last().len() && s.drop_last()[k] == s.last();
            assert(s[k] == s[s.len() - 1]);
        }
        assert(s.drop_last().push(s.last()) =~= s);
    }
}

/// The ring `fresh_ids` builds from the accepted order and the participants
/// is the accepted order followed by the participants it leaves out.
proof fn lemma_ring_is_accepted_first(order: Seq<Seq<char>>, ids: Seq<Seq<char>>, full: Seq<Seq<char>>)
    requires
        crate::text::distinct(order),
        crate::text::distinct(ids),
        forall|i: int| 0 <= i < order.len() ==> full.contains(#[trigger] order[i]),
        forall|i: int| 0 <= i < ids.len() ==> full.contains(#[trigger] ids[i]),
    ensures
        fresh_ids(seq![], order + ids, member_keep(full)) == order + ids.filter(|x: Seq<char>| !order.contains(x)),
    decreases ids.len(),
{
    let p = |x: Seq<char>| !order.contains(x);
    reveal(Seq::filter);
    if ids.len() == 0 {
        assert(order + ids =~= order);
        assert forall|i: int| 0 <= i < order.len() implies #[trigger] member_keep(full)(order[i]) by {}
        lemma_fresh_whole(order, member_keep(full));
        assert(ids.filter(p) =~= ids);
        assert(order + ids.filter(p) =~= order);
    } else {
        let x = ids.last();
        let c = order + ids;
        assert(c.drop_last() =~= order + ids.drop_last());
        assert(c.last() == x);
        assert forall|i: int, j: int| 0 <= i < j < ids.drop_last().len() implies #[trigger] ids.drop_last()[i]
            != #[trigger] ids.drop_last()[j] by {
            assert(ids[i] != ids[j]);
        }
        lemma_ring_is_accepted_first(order, ids.drop_last(), full);
        let r = order + ids.drop_last().filter(p);
        assert(full.contains(ids[ids.len() - 1]));
        assert(member_keep(full)(x));
        if order.contains(x) {
            let k = choose|k: int| 0 <= k < order.len() && order[k] == x;
            assert(r[k] == x);
            assert(r.contains(x));
            assert(ids.filter(p) == ids.drop_last().filter(p));
        } else {
            if r.contains(x) {
                let k = choose|k: int| 0 <= k < r.len() && r[k] == x;
                if k < order.len() {
                    assert(order[k] == x);
                } else {
                    let f = ids.drop_last().filter(p);
                    assert(f[k - order.len()] == x);
                    assert(f.contains(x));
                    ids.drop_last().lemma_filter_contains_rev(p, x);
                    let m = choose|m: int| 0 <= m < ids.drop_last().len() && ids.drop_last()[m] == x;
                    assert(ids[m] == ids[ids.len() - 1]);
                }
            }
            assert(ids.filter(p) == ids.drop_last().filter(p).push(x));
            assert(r.push(x) =~= order + ids.filter(p));
        }
    }
}

/// Who takes a broadcast nobody else fits: the seat after its author on the
/// ring that lists the accepted pending order first and then every other
/// participant in episode order; nobody when the author is not a
/// participant or has nobody beside it. So with participants `one, two,
/// three` and the accepted order `three, two`, the ring is `three, two, one`
/// and `two` hands its broadcast to `one`.
pub proof fn lemma_fallback_follows_accepted_order(e: EpisodeModel, order: Seq<Seq<char>>, author: Seq<char>)
    requires
        crate::text::distinct(all_ids(e.participants)),
        crate::text::distinct(order),
        forall|i: int| 0 <= i < order.len() ==> all_ids(e.participants).contains(#[trigger] order[i]),
    ensures
        crate::text::distinct(accepted_ring(e, order)),
        forall|x: Seq<char>| #[trigger] accepted_ring(e, order).contains(x) <==> all_ids(e.participants).contains(x),
        forall|i: int|
            0 <= i < accepted_ring(e, order).len() && accepted_ring(e, order).len() > 1 ==> fallback_spec(
                e,
                order,
                #[trigger] accepted_ring(e, order)[i],
            ) == Some(accepted_ring(e, order)[(i + 1) % (accepted_ring(e, order).len() as int)]),
        !all_ids(e.participants).contains(author) || accepted_ring(e, order).len() <= 1 ==> fallback_spec(
            e,
            order,
            author,
        ) is None,
{
    let ids = all_ids(e.participants);
    let ring = accepted_ring(e, order);
    lemma_ring_is_accepted_first(order, ids, ids);
    assert(fallback_ring(e, order) == ring);
    lemma_fresh_ids(seq![], order + ids, member_keep(ids));
    assert forall|x: Seq<char>| #[trigger] ring.contains(x) <==> ids.contains(x) by {
        if ids.contains(x) {
            let k = choose|k: int| 0 <= k < ids.len() && ids[k] == x;
            assert((order + ids)[order.len() + k] == x);
            assert((order + ids).contains(x));
        }
        if (order + ids).contains(x) {
            let k = choose|k: int| 0 <= k < (order + ids).len() && (order + ids)[k] == x;
            if k < order.len() {
                assert(order[k] == x);
            } else {
                assert(ids[k - order.len()] == x);
            }
        }
    }
    assert forall|i: int| 0 <= i < ring.len() && ring.len() > 1 implies fallback_spec(e, order, #[trigger] ring[i])
        == Some(ring[(i + 1) % (ring.len() as int)]) by {
        assert(ring.contains(ring[i]));
        crate::first::lemma_first_index_unique(crate::keyed::key_is(ring, ring[i]), ring.len() as int, i);
    }
}

/// Whatever the accepted order holds, a broadcast nobody else fits goes to
/// another participant, never back to its author; and there is one exactly
/// when the author is a participant with somebody beside it.
pub proof fn lemma_fallback_is_another_participant(e: EpisodeModel, order: Seq<Seq<char>>, author: Seq<char>)
    ensures
        fallback_spec(e, order, author) matches Some(x) ==> all_ids(e.participants).contains(x) && x != author,
        (fallback_spec(e, order, author) is Some) <==> (all_ids(e.participants).contains(author) && exists|i: int|
            0 <= i < e.participants.len() && (#[trigger] e.participants[i]).agent_id != author),
{
    let ids = all_ids(e.participants);
    let c = order + ids;
    let ring = fallback_ring(e, order);
    lemma_fresh_ids(seq![], c, member_keep(ids));
    assert forall|x: Seq<char>| #[trigger] ring.contains(x) <==> ids.contains(x) by {
        if ids.contains(x) {
            let k = choose|k: int| 0 <= k < ids.len() && ids[k] == x;
            assert(c[order.len() + k] == x);
            assert(c.contains(x));
        }
    }
    if ring.contains(author) && ring.len() > 1 {
        lemma_key_index(ring, author);
        crate::first::lemma_first_index(crate::keyed::key_is(ring, author), ring.len() as int);
        let k = key_index(ring, author);
        let n = (k + 1) % (ring.len() as int);
        assert(ring[k] == author);
        let len = ring.len() as int;
        assert(0 <= n < len && n != k) by (nonlinear_arith)
            requires
                0 <= k < len,
                len > 1,
                n == (k + 1) % len,
        ;
        assert(ring[n] != ring[k]);
        assert(ring.contains(ring[n]));
        let m = choose|m: int| 0 <= m < ids.len() && ids[m] == ring[n];
        assert(e.participants[m].agent_id != author);
    }
    if ids.contains(author) && exists|i: int| 0 <= i < e.participants.len() && (#[trigger] e.participants[i]).agent_id
        != author {
        let i = choose|i: int| 0 <= i < e.participants.len() && (#[trigger] e.participants[i]).agent_id != author;
        assert(ids[i] == e.participants[i].agent_id);
        assert(ring.contains(ids[i]));
        assert(ring.contains(author));
        if ring.len() <= 1 {
            let a = choose|a: int| 0 <= a < ring.len() && ring[a] == author;
            let b = choose|b: int| 0 <= b < ring.len() && ring[b] == ids[i];
            assert(a == 0 && b == 0);
        }
    }
}

} // verus!
