//! One owned desk graph and the handles bound to its seats.

use vstd::prelude::*;

use crate::error::Error;
use crate::first::{first_index, lemma_first_index, lemma_first_index_unique};
use crate::routing::{
    candidate_ids, candidate_views, copy_candidates, copy_opt, opt_view, plan_ids, route_ids,
    same_candidates, same_opt, ConversationKind, ConversationRef, Desk, DeskModel, MessageRoute,
    RouteCandidate, RoutingPlan, RoutingPolicy, RoutingRequest, RoutingSource, CandidateModel,
};
use crate::text::{
    distinct, is_blank, sort_distinct, str_eq, strictly_sorted, trim, trimmed, views,
};
use crate::types::{copy_ids, id_views, Sequence};

verus! {

/// What a hive needs from the handle it binds: the runtime's own id for it,
/// which may differ from the canonical hive id it stands behind.
pub trait BoundAgent: Sized {
    /// The runtime's own id for this handle.
    fn runtime_id(&self) -> &str;
}

/// An owned one-desk routing graph.
#[derive(Debug, PartialEq, Eq)]
pub struct HiveGraph {
    /// The one desk represented by this hive.
    pub desk: Desk,
    /// Routing candidates, one for every desk member.
    pub candidates: Vec<RouteCandidate>,
}

/// A graph as values.
pub struct HiveGraphModel {
    pub desk: DeskModel,
    pub candidates: Seq<CandidateModel>,
}

impl View for HiveGraph {
    type V = HiveGraphModel;

    open spec fn view(&self) -> HiveGraphModel {
        HiveGraphModel { desk: self.desk@, candidates: candidate_views(self.candidates@) }
    }
}

impl HiveGraph {
    /// Build an owned graph. Validation happens in [`OpenHumanHive::new`].
    pub fn new(desk: Desk, candidates: Vec<RouteCandidate>) -> (r: Self)
        ensures
            r.desk == desk,
            r.candidates == candidates,
    {
        HiveGraph { desk, candidates }
    }
}

/// One canonical hive id bound to a handle. The canonical id need not equal
/// the handle's runtime id.
#[derive(Debug)]
pub struct AgentBinding<A> {
    /// Canonical id used by the desk and routing graph.
    pub hive_agent_id: String,
    /// The host's handle for the seat.
    pub agent: A,
}

impl<A: BoundAgent> AgentBinding<A> {
    /// Bind a canonical hive id to an existing handle.
    pub fn new(hive_agent_id: String, agent: A) -> (r: Self)
        ensures
            r.hive_agent_id == hive_agent_id,
            r.agent == agent,
    {
        AgentBinding { hive_agent_id, agent }
    }

    /// The handle's runtime id, which may differ from the hive id.
    pub fn runtime_agent_id(&self) -> &str {
        self.agent.runtime_id()
    }
}

/// The ids of a list of bindings.
pub open spec fn binding_ids<A>(bs: Seq<AgentBinding<A>>) -> Seq<Seq<char>> {
    bs.map_values(|b: AgentBinding<A>| b.hive_agent_id@)
}

/// A canonical id that is blank, or that is the router's reserved `none`.
pub open spec fn canonical_bad(v: Seq<Seq<char>>, i: int) -> bool {
    is_blank(v[i]) || trimmed(v[i]) == "none"@
}

/// The first index holding a blank or reserved id, or the length.
pub open spec fn first_bad(v: Seq<Seq<char>>) -> int {
    first_index(bad_pred(v), v.len() as int)
}

/// `canonical_bad` as a predicate on indices.
pub open spec fn bad_pred(v: Seq<Seq<char>>) -> spec_fn(int) -> bool {
    |i: int| canonical_bad(v, i)
}

/// Whether the `i`th id repeats an earlier one.
pub open spec fn repeats_earlier(v: Seq<Seq<char>>, i: int) -> bool {
    exists|j: int| 0 <= j < i && v[j] == v[i]
}

/// The first index repeating an earlier id, or the length.
pub open spec fn first_repeat(v: Seq<Seq<char>>) -> int {
    first_index(repeat_pred(v), v.len() as int)
}

/// `repeats_earlier` as a predicate on indices.
pub open spec fn repeat_pred(v: Seq<Seq<char>>) -> spec_fn(int) -> bool {
    |i: int| repeats_earlier(v, i)
}

/// Ids of `p` that are not members, as a predicate on indices.
pub open spec fn outside_pred(members: Seq<Seq<char>>, p: Seq<Seq<char>>) -> spec_fn(int) -> bool {
    |i: int| !members.contains(p[i])
}

/// `dm_recipient_bad` as a predicate on indices.
pub open spec fn dm_bad_pred(members: Seq<Seq<char>>, v: Seq<Seq<char>>) -> spec_fn(int) -> bool {
    |i: int| dm_recipient_bad(members, v, i)
}

/// What checking one collection of canonical ids gives.
pub open spec fn ids_checked(collection: Seq<char>, v: Seq<Seq<char>>, r: Result<(), Error>) -> bool {
    let f = first_bad(v);
    if f < v.len() {
        if is_blank(v[f]) {
            r matches Err(Error::BlankCanonicalId { collection: c }) && c@ == collection
        } else {
            r matches Err(Error::ReservedCanonicalId { collection: c }) && c@ == collection
        }
    } else {
        r is Ok
    }
}

/// Refuse the first blank or reserved id of a collection.
pub fn validate_ids(collection: &str, ids: &Vec<String>) -> (r: Result<(), Error>)
    ensures
        ids_checked(collection@, id_views(ids@), r),
{
    let ghost v = id_views(ids@);
    let mut i: usize = 0;
    while i < ids.len()
        invariant
            i <= ids@.len(),
            v == id_views(ids@),
            forall|j: int| 0 <= j < i ==> !canonical_bad(v, j),
        decreases ids@.len() - i,
    {
        let id = trim(ids[i].as_str());
        assert(id@ == trimmed(v[i as int]));
        proof {
            assert forall|k: int| 0 <= k < i implies !#[trigger] bad_pred(v)(k) by {
                assert(!canonical_bad(v, k));
            }
        }
        if id.as_str().unicode_len() == 0 {
            proof {
                lemma_first_index_unique(bad_pred(v), v.len() as int, i as int);
            }
            return Err(Error::BlankCanonicalId { collection: String::from_str(collection) });
        }
        if str_eq(id.as_str(), "none") {
            proof {
                lemma_first_index_unique(bad_pred(v), v.len() as int, i as int);
            }
            return Err(Error::ReservedCanonicalId { collection: String::from_str(collection) });
        }
        i = i + 1;
    }
    proof {
        assert forall|k: int| 0 <= k < v.len() implies !#[trigger] bad_pred(v)(k) by {
            assert(!canonical_bad(v, k));
        }
        lemma_first_index_unique(bad_pred(v), v.len() as int, v.len() as int);
    }
    Ok(())
}

/// The index of the first id that repeats an earlier one, or the length.
pub fn first_repeat_index(ids: &Vec<String>) -> (r: usize)
    ensures
        r as int == first_repeat(id_views(ids@)),
{
    let ghost v = id_views(ids@);
    let mut i: usize = 0;
    while i < ids.len()
        invariant
            i <= ids@.len(),
            v == id_views(ids@),
            forall|j: int| 0 <= j < i ==> !repeats_earlier(v, j),
        decreases ids@.len() - i,
    {
        let mut j: usize = 0;
        while j < i
            invariant
                j <= i,
                i < ids@.len(),
                v == id_views(ids@),
                forall|k: int| 0 <= k < j ==> v[k] != v[i as int],
                forall|k: int| 0 <= k < i ==> !repeats_earlier(v, k),
            decreases i - j,
        {
            if ids[j] == ids[i] {
                proof {
                    assert(v[j as int] == v[i as int]);
                    assert(repeat_pred(v)(i as int));
                    assert forall|k: int| 0 <= k < i implies !#[trigger] repeat_pred(v)(k) by {
                        assert(!repeats_earlier(v, k));
                    }
                    lemma_first_index_unique(repeat_pred(v), v.len() as int, i as int);
                }
                return i;
            }
            j = j + 1;
        }
        i = i + 1;
    }
    proof {
        assert forall|k: int| 0 <= k < v.len() implies !#[trigger] repeat_pred(v)(k) by {
            assert(!repeats_earlier(v, k));
        }
        lemma_first_index_unique(repeat_pred(v), v.len() as int, v.len() as int);
    }
    ids.len()
}

/// `s` lists, in sorted order and once each, exactly the ids in `a` and
/// not in `b`.
pub open spec fn lists_difference(s: Seq<Seq<char>>, a: Seq<Seq<char>>, b: Seq<Seq<char>>) -> bool {
    &&& strictly_sorted(s)
    &&& forall|x: Seq<char>| s.contains(x) <==> (a.contains(x) && !b.contains(x))
}

/// The ids of `a` that `b` lacks, in `a`'s order.
pub open spec fn minus(a: Seq<Seq<char>>, b: Seq<Seq<char>>) -> Seq<Seq<char>>
    decreases a.len(),
{
    if a.len() == 0 {
        Seq::empty()
    } else if b.contains(a.last()) {
        minus(a.drop_last(), b)
    } else {
        minus(a.drop_last(), b).push(a.last())
    }
}

/// What is in `a` and not in `b`, without repeats when `a` has none.
pub proof fn lemma_minus(a: Seq<Seq<char>>, b: Seq<Seq<char>>)
    requires
        distinct(a),
    ensures
        distinct(minus(a, b)),
        forall|x: Seq<char>| minus(a, b).contains(x) <==> (a.contains(x) && !b.contains(x)),
    decreases a.len(),
{
    if a.len() > 0 {
        let r = minus(a.drop_last(), b);
        assert(distinct(a.drop_last()));
        lemma_minus(a.drop_last(), b);
        assert forall|x: Seq<char>| a.contains(x) <==> (a.drop_last().contains(x) || x == a.last()) by {
            if a.contains(x) {
                let i = choose|i: int| 0 <= i < a.len() && a[i] == x;
                if i < a.len() - 1 {
                    assert(a.drop_last()[i] == x);
                }
            }
            if a.drop_last().contains(x) {
                let i = choose|i: int| 0 <= i < a.drop_last().len() && a.drop_last()[i] == x;
                assert(a[i] == x);
            }
            if x == a.last() {
                assert(a[a.len() - 1] == x);
            }
        }
        if !b.contains(a.last()) {
            assert(!a.drop_last().contains(a.last())) by {
                if a.drop_last().contains(a.last()) {
                    let i = choose|i: int| 0 <= i < a.drop_last().len() && a.drop_last()[i] == a.last();
                    assert(a[i] == a[a.len() - 1]);
                }
            }
            assert forall|i: int, j: int| 0 <= i < j < r.push(a.last()).len() implies #[trigger] r.push(a.last())[i]
                != #[trigger] r.push(a.last())[j] by {
                if j == r.len() {
                    assert(r.contains(r[i]));
                }
            }
            assert forall|x: Seq<char>| r.push(a.last()).contains(x) <==> (r.contains(x) || x == a.last()) by {
                if r.push(a.last()).contains(x) {
                    let i = choose|i: int| 0 <= i < r.push(a.last()).len() && r.push(a.last())[i] == x;
                    if i < r.len() {
                        assert(r[i] == x);
                    }
                }
                if r.contains(x) {
                    let i = choose|i: int| 0 <= i < r.len() && r[i] == x;
                    assert(r.push(a.last())[i] == x);
                }
                if x == a.last() {
                    assert(r.push(a.last())[r.len() as int] == x);
                }
            }
        }
    }
}

/// The ids of `a` that `b` lacks, sorted.
fn difference(a: &Vec<String>, b: &Vec<String>) -> (r: Vec<String>)
    requires
        distinct(id_views(a@)),
    ensures
        lists_difference(views(r@), id_views(a@), id_views(b@)),
{
    let ghost av = id_views(a@);
    let ghost bv = id_views(b@);
    let mut out: Vec<String> = Vec::new();
    let mut i: usize = 0;
    while i < a.len()
        invariant
            i <= a@.len(),
            av == id_views(a@),
            bv == id_views(b@),
            views(out@) == minus(av.subrange(0, i as int), bv),
        decreases a@.len() - i,
    {
        let mut found = false;
        let mut j: usize = 0;
        while j < b.len()
            invariant
                j <= b@.len(),
                i < a@.len(),
                bv == id_views(b@),
                av == id_views(a@),
                found == (exists|k: int| 0 <= k < j && #[trigger] bv[k] == av[i as int]),
            decreases b@.len() - j,
        {
            if b[j] == a[i] {
                assert(bv[j as int] == av[i as int]);
                found = true;
            }
            proof {
                if !found {
                    assert forall|k: int| 0 <= k < j + 1 implies #[trigger] bv[k] != av[i as int] by {
                        if k == j {
                            assert(bv[k] == b@[k]@);
                        }
                    }
                }
            }
            j = j + 1;
        }
        let ghost before = views(out@);
        assert(av.subrange(0, i + 1).drop_last() =~= av.subrange(0, i as int));
        assert(av.subrange(0, i + 1).last() == av[i as int]);
        assert(found == bv.contains(av[i as int]));
        if !found {
            out.push(a[i].clone());
            assert(views(out@) =~= before.push(av[i as int]));
        }
        i = i + 1;
    }
    assert(av.subrange(0, a@.len() as int) =~= av);
    proof {
        lemma_minus(av, bv);
    }
    sort_distinct(out)
}

/// What comparing a collection's ids with the membership gives.
pub open spec fn same_set_checked(
    collection: Seq<char>,
    members: Seq<Seq<char>>,
    actual: Seq<Seq<char>>,
    r: Result<(), Error>,
) -> bool {
    if forall|x: Seq<char>| members.contains(x) <==> actual.contains(x) {
        r is Ok
    } else {
        r matches Err(Error::MembershipMismatch { collection: c, missing, outsiders }) && c@ == collection
            && lists_difference(views(missing@), members, actual) && lists_difference(
            views(outsiders@),
            actual,
            members,
        )
    }
}

/// Refuse a collection whose ids are not exactly the desk membership,
/// naming the members it lacks and the ids it holds that are not members.
pub fn require_same_set(collection: &str, members: &Vec<String>, actual: &Vec<String>) -> (r: Result<(), Error>)
    requires
        distinct(id_views(members@)),
        distinct(id_views(actual@)),
    ensures
        same_set_checked(collection@, id_views(members@), id_views(actual@), r),
{
    let missing = difference(members, actual);
    let outsiders = difference(actual, members);
    if missing.len() == 0 && outsiders.len() == 0 {
        proof {
            assert forall|x: Seq<char>| id_views(members@).contains(x) <==> id_views(actual@).contains(x) by {
                if id_views(members@).contains(x) && !id_views(actual@).contains(x) {
                    assert(views(missing@).contains(x));
                }
                if id_views(actual@).contains(x) && !id_views(members@).contains(x) {
                    assert(views(outsiders@).contains(x));
                }
            }
        }
        Ok(())
    } else {
        proof {
            if missing@.len() > 0 {
                assert(views(missing@).contains(views(missing@)[0]));
            } else {
                assert(views(outsiders@).contains(views(outsiders@)[0]));
            }
        }
        Err(Error::MembershipMismatch { collection: String::from_str(collection), missing, outsiders })
    }
}

/// A validated graph plus the handles bound to its seats.
#[derive(Debug)]
pub struct OpenHumanHive<A> {
    graph: HiveGraph,
    bindings: Vec<AgentBinding<A>>,
}

/// The refusal, if any, without the hive.
pub open spec fn discard<T>(r: Result<T, Error>) -> Result<(), Error> {
    match r {
        Ok(_) => Ok(()),
        Err(e) => Err(e),
    }
}

/// What validating a graph and its bindings gives.
pub open spec fn hive_result<A>(
    g: HiveGraphModel,
    bindings: Seq<AgentBinding<A>>,
    r: Result<OpenHumanHive<A>, Error>,
) -> bool {
    let m = g.desk.members;
    let c = g.candidates.map_values(|x: CandidateModel| x.id);
    let b = binding_ids(bindings);
    if first_bad(m) < m.len() {
        ids_checked("members"@, m, discard(r))
    } else if first_bad(c) < c.len() {
        ids_checked("candidates"@, c, discard(r))
    } else if first_bad(b) < b.len() {
        ids_checked("bindings"@, b, discard(r))
    } else if m.len() == 0 {
        r matches Err(Error::EmptyMembership { desk_id }) && desk_id@ == g.desk.id
    } else if first_repeat(m) < m.len() {
        r matches Err(Error::DuplicateMemberId { agent_id }) && agent_id@ == m[first_repeat(m)]
    } else if first_repeat(c) < c.len() {
        r matches Err(Error::DuplicateCandidateId { agent_id }) && agent_id@ == c[first_repeat(c)]
    } else if !(forall|x: Seq<char>| m.contains(x) <==> c.contains(x)) {
        same_set_checked("candidates"@, m, c, discard(r))
    } else if first_repeat(b) < b.len() {
        r matches Err(Error::DuplicateBindingId { agent_id }) && agent_id@ == b[first_repeat(b)]
    } else if !(forall|x: Seq<char>| m.contains(x) <==> b.contains(x)) {
        same_set_checked("bindings"@, m, b, discard(r))
    } else {
        r matches Ok(h) && h.graph_model() == g && h.bindings_model() == bindings && h.wf()
    }
}

/// Distinct ids, every one of them set apart from blank and reserved ones.
pub open spec fn canonical_and_distinct(v: Seq<Seq<char>>) -> bool {
    &&& first_bad(v) == v.len()
    &&& first_repeat(v) == v.len()
}

/// Ids that pass both checks are distinct and none is blank or reserved.
pub proof fn lemma_canonical_and_distinct(v: Seq<Seq<char>>)
    requires
        canonical_and_distinct(v),
    ensures
        distinct(v),
        forall|i: int| 0 <= i < v.len() ==> !canonical_bad(v, i),
{
    lemma_first_index(bad_pred(v), v.len() as int);
    lemma_first_index(repeat_pred(v), v.len() as int);
    assert forall|i: int, j: int| 0 <= i < j < v.len() implies #[trigger] v[i] != #[trigger] v[j] by {
        assert(!repeat_pred(v)(j));
    }
    assert forall|i: int| 0 <= i < v.len() implies !canonical_bad(v, i) by {
        assert(!bad_pred(v)(i));
    }
}

impl<A> OpenHumanHive<A> {
    /// The graph, as values.
    pub closed spec fn graph_model(&self) -> HiveGraphModel {
        self.graph@
    }

    /// The bindings as given.
    pub closed spec fn bindings_model(&self) -> Seq<AgentBinding<A>> {
        self.bindings@
    }

    /// Canonical members in desk order.
    pub open spec fn member_ids(&self) -> Seq<Seq<char>> {
        self.graph_model().desk.members
    }

    /// What a validated hive holds: a nonempty membership of distinct
    /// canonical ids, and candidates and bindings naming exactly those.
    pub open spec fn wf(&self) -> bool {
        let m = self.member_ids();
        let c = self.graph_model().candidates.map_values(|x: CandidateModel| x.id);
        let b = binding_ids(self.bindings_model());
        &&& m.len() > 0
        &&& canonical_and_distinct(m)
        &&& canonical_and_distinct(c)
        &&& canonical_and_distinct(b)
        &&& forall|x: Seq<char>| m.contains(x) <==> c.contains(x)
        &&& forall|x: Seq<char>| m.contains(x) <==> b.contains(x)
    }
}

impl<A: BoundAgent> OpenHumanHive<A> {
    /// Validate and own one complete hive.
    ///
    /// Refuses, in this order: a blank or reserved id among the members,
    /// candidates or bindings; an empty membership; a repeated member or
    /// candidate; candidates that are not exactly the membership; a repeated
    /// binding; bindings that are not exactly the membership.
    pub fn new(graph: HiveGraph, bindings: Vec<AgentBinding<A>>) -> (r: Result<Self, Error>)
        ensures
            hive_result(graph@, bindings@, r),
    {
        let ghost g = graph@;
        let ghost cm = g.candidates.map_values(|x: CandidateModel| x.id);
        let members = copy_ids(&graph.desk.members);
        let mut candidates: Vec<String> = Vec::new();
        let mut i: usize = 0;
        while i < graph.candidates.len()
            invariant
                i <= graph.candidates@.len(),
                g == graph@,
                candidates@.len() == i,
                forall|k: int| 0 <= k < i ==> (#[trigger] candidates@[k])@ == graph.candidates@[k].id@,
            decreases graph.candidates@.len() - i,
        {
            candidates.push(graph.candidates[i].id.clone());
            i = i + 1;
        }
        let mut bound: Vec<String> = Vec::new();
        let mut i: usize = 0;
        while i < bindings.len()
            invariant
                i <= bindings@.len(),
                bound@.len() == i,
                forall|k: int| 0 <= k < i ==> (#[trigger] bound@[k])@ == bindings@[k].hive_agent_id@,
            decreases bindings@.len() - i,
        {
            bound.push(bindings[i].hive_agent_id.clone());
            i = i + 1;
        }
        proof {
            assert(id_views(candidates@) =~= cm);
            assert(id_views(bound@) =~= binding_ids(bindings@));
            assert(id_views(members@) == g.desk.members);
        }
        match validate_ids("members", &members) {
            Err(e) => {
                return Err(e);
            },
            Ok(()) => {},
        }
        match validate_ids("candidates", &candidates) {
            Err(e) => {
                return Err(e);
            },
            Ok(()) => {},
        }
        match validate_ids("bindings", &bound) {
            Err(e) => {
                return Err(e);
            },
            Ok(()) => {},
        }
        if members.len() == 0 {
            return Err(Error::EmptyMembership { desk_id: graph.desk.id.clone() });
        }
        let d = first_repeat_index(&members);
        if d < members.len() {
            return Err(Error::DuplicateMemberId { agent_id: members[d].clone() });
        }
        let d = first_repeat_index(&candidates);
        if d < candidates.len() {
            return Err(Error::DuplicateCandidateId { agent_id: candidates[d].clone() });
        }
        proof {
            lemma_first_index(bad_pred(id_views(members@)), members@.len() as int);
            lemma_first_index(bad_pred(id_views(candidates@)), candidates@.len() as int);
            lemma_first_index(bad_pred(id_views(bound@)), bound@.len() as int);
            lemma_first_index(repeat_pred(id_views(members@)), members@.len() as int);
            lemma_first_index(repeat_pred(id_views(candidates@)), candidates@.len() as int);
            lemma_canonical_and_distinct(id_views(members@));
            lemma_canonical_and_distinct(id_views(candidates@));
        }
        match require_same_set("candidates", &members, &candidates) {
            Err(e) => {
                return Err(e);
            },
            Ok(()) => {},
        }
        let d = first_repeat_index(&bound);
        if d < bound.len() {
            return Err(Error::DuplicateBindingId { agent_id: bound[d].clone() });
        }
        proof {
            lemma_first_index(repeat_pred(id_views(bound@)), bound@.len() as int);
            lemma_canonical_and_distinct(id_views(bound@));
        }
        match require_same_set("bindings", &members, &bound) {
            Err(e) => {
                return Err(e);
            },
            Ok(()) => {},
        }
        Ok(OpenHumanHive { graph, bindings })
    }

    /// The complete owned graph.
    pub fn graph(&self) -> (r: &HiveGraph)
        ensures
            r@ == self.graph_model(),
    {
        &self.graph
    }

    /// This hive's sole desk.
    pub fn desk(&self) -> (r: &Desk)
        ensures
            r@ == self.graph_model().desk,
    {
        &self.graph.desk
    }

    /// Canonical members in desk order.
    pub fn members(&self) -> (r: &Vec<String>)
        ensures
            id_views(r@) == self.member_ids(),
    {
        &self.graph.desk.members
    }

    fn binding_index(&self, hive_agent_id: &str) -> (r: Option<usize>)
        requires
            self.wf(),
        ensures
            r is Some <==> self.member_ids().contains(hive_agent_id@),
            r matches Some(i) ==> i < self.bindings_model().len()
                && self.bindings_model()[i as int].hive_agent_id@ == hive_agent_id@,
    {
        let mut i: usize = 0;
        while i < self.bindings.len()
            invariant
                self.wf(),
                i <= self.bindings@.len(),
                forall|k: int| 0 <= k < i ==> (#[trigger] self.bindings@[k]).hive_agent_id@ != hive_agent_id@,
            decreases self.bindings@.len() - i,
        {
            if str_eq(self.bindings[i].hive_agent_id.as_str(), hive_agent_id) {
                proof {
                    assert(binding_ids(self.bindings_model())[i as int] == hive_agent_id@);
                    assert(binding_ids(self.bindings_model()).contains(hive_agent_id@));
                    assert(self.member_ids().contains(hive_agent_id@));
                }
                return Some(i);
            }
            i = i + 1;
        }
        proof {
            let b = binding_ids(self.bindings_model());
            if b.contains(hive_agent_id@) {
                let k = choose|k: int| 0 <= k < b.len() && b[k] == hive_agent_id@;
                assert(self.bindings@[k].hive_agent_id@ != hive_agent_id@);
            }
        }
        None
    }

    /// The handle bound to a canonical hive id: one exactly for members.
    pub fn bound_agent(&self, hive_agent_id: &str) -> (r: Option<&A>)
        requires
            self.wf(),
        ensures
            r is Some <==> self.member_ids().contains(hive_agent_id@),
            r matches Some(a) ==> exists|i: int|
                0 <= i < self.bindings_model().len() && self.bindings_model()[i].hive_agent_id@
                    == hive_agent_id@ && self.bindings_model()[i].agent == *a,
    {
        match self.binding_index(hive_agent_id) {
            Some(i) => Some(&self.bindings[i].agent),
            None => None,
        }
    }

    /// The full binding for a canonical hive id.
    pub fn binding(&self, hive_agent_id: &str) -> (r: Option<&AgentBinding<A>>)
        requires
            self.wf(),
        ensures
            r is Some <==> self.member_ids().contains(hive_agent_id@),
            r matches Some(b) ==> b.hive_agent_id@ == hive_agent_id@ && self.bindings_model().contains(*b),
    {
        match self.binding_index(hive_agent_id) {
            Some(i) => Some(&self.bindings[i]),
            None => None,
        }
    }

    /// A desk-scoped routing request from this graph's candidates.
    pub fn desk_request(
        &self,
        message: String,
        thread_context: Vec<String>,
        thread_root: Option<Sequence>,
        roster_version: u64,
        policy: RoutingPolicy,
    ) -> (r: RoutingRequest)
        ensures
            r.message == message,
            r.source is DeskMessage,
            r.conversation.id@ == self.graph_model().desk.id,
            r.conversation.kind == ConversationKind::Desk,
            r.conversation.thread_root == thread_root,
            opt_view(r.desk_purpose) == self.graph_model().desk.description,
            r.thread_context == thread_context,
            candidate_views(r.candidates@) == self.graph_model().candidates,
            r.roster_version == roster_version,
            r.policy == policy,
    {
        RoutingRequest {
            message,
            source: RoutingSource::DeskMessage,
            conversation: ConversationRef {
                id: self.graph.desk.id.clone(),
                kind: ConversationKind::Desk,
                thread_root,
            },
            desk_purpose: copy_opt(&self.graph.desk.description),
            thread_context,
            candidates: copy_candidates(&self.graph.candidates),
            roster_version,
            policy,
        }
    }

    /// Check a desk routing request against this hive before any router
    /// is called: the request's desk, kind, source, purpose and ordered
    /// candidates must be this hive's, and both deterministic responders
    /// must be members.
    pub fn route_desk(
        &self,
        request: &RoutingRequest,
        explicit_responder: Option<&str>,
        fallback_responder: &str,
    ) -> (r: Result<(), Error>)
        requires
            self.wf(),
        ensures
            desk_route_checked(self, request, explicit_responder, fallback_responder, r),
    {
        if !str_eq(request.conversation.id.as_str(), self.graph.desk.id.as_str()) {
            return Err(Error::MismatchedDeskRoutingRequest { field: String::from_str("conversation.id") });
        }
        let desk_kind = match request.conversation.kind {
            ConversationKind::Desk => true,
            ConversationKind::Direct => false,
        };
        if !desk_kind {
            return Err(Error::MismatchedDeskRoutingRequest { field: String::from_str("conversation.kind") });
        }
        let desk_source = match request.source {
            RoutingSource::DeskMessage => true,
            RoutingSource::AgentBroadcast { .. } => false,
        };
        if !desk_source {
            return Err(Error::MismatchedDeskRoutingRequest { field: String::from_str("source") });
        }
        if !same_opt(&request.desk_purpose, &self.graph.desk.description) {
            return Err(Error::MismatchedDeskRoutingRequest { field: String::from_str("desk_purpose") });
        }
        if !same_candidates(&request.candidates, &self.graph.candidates) {
            return Err(Error::MismatchedDeskRoutingRequest { field: String::from_str("candidates") });
        }
        if let Some(explicit) = explicit_responder {
            if self.binding_index(explicit).is_none() {
                return Err(Error::UnknownBoundAgent { agent_id: String::from_str(explicit) });
            }
        }
        if self.binding_index(fallback_responder).is_none() {
            return Err(Error::UnknownBoundAgent { agent_id: String::from_str(fallback_responder) });
        }
        Ok(())
    }

    /// Resolve an accepted plan to bound agents in primary-then-invited order.
    pub fn resolve_plan(&self, plan: &RoutingPlan) -> (r: Result<Vec<&AgentBinding<A>>, Error>)
        requires
            self.wf(),
        ensures
            plan_resolved(self, plan_ids(*plan), r),
    {
        let ids = route_ids(plan);
        let ghost p = plan_ids(*plan);
        let mut out: Vec<&AgentBinding<A>> = Vec::new();
        let mut i: usize = 0;
        while i < ids.len()
            invariant
                self.wf(),
                i <= ids@.len(),
                p == plan_ids(*plan),
                id_views(ids@) == p,
                out@.len() == i,
                forall|k: int| 0 <= k < i ==> self.member_ids().contains(#[trigger] p[k]),
                forall|k: int| 0 <= k < i ==> (#[trigger] out@[k]).hive_agent_id@ == p[k]
                    && self.bindings_model().contains(*out@[k]),
            decreases ids@.len() - i,
        {
            assert(ids@[i as int]@ == p[i as int]);
            match self.binding(ids[i].as_str()) {
                Some(b) => out.push(b),
                None => {
                    proof {
                        assert forall|k: int| 0 <= k < i implies !#[trigger] outside_pred(self.member_ids(), p)(k) by {
                            assert(self.member_ids().contains(p[k]));
                        }
                        assert(outside_pred(self.member_ids(), p)(i as int));
                        lemma_first_index_unique(outside_pred(self.member_ids(), p), p.len() as int, i as int);
                    }
                    let agent_id = ids[i].clone();
                    assert(agent_id@ == p[i as int]);
                    return Err(Error::UnknownBoundAgent { agent_id });
                },
            }
            i = i + 1;
        }
        proof {
            assert forall|k: int| 0 <= k < p.len() implies !#[trigger] outside_pred(self.member_ids(), p)(k) by {
                assert(self.member_ids().contains(p[k]));
            }
            lemma_first_index_unique(outside_pred(self.member_ids(), p), p.len() as int, p.len() as int);
        }
        Ok(out)
    }

    /// Resolve a hive-scoped private message: sender and every recipient must
    /// be members, no recipient twice, and no more than `round_width` of them.
    pub fn resolve_dm(&self, sender_id: &str, recipient_ids: &Vec<String>, round_width: usize) -> (r:
        Result<MessageRoute, Error>)
        requires
            self.wf(),
        ensures
            dm_resolved(self.member_ids(), sender_id@, id_views(recipient_ids@), round_width, r),
    {
        let ghost m = self.member_ids();
        let ghost v = id_views(recipient_ids@);
        if self.binding_index(sender_id).is_none() {
            return Err(Error::UnknownDmSender { agent_id: String::from_str(sender_id) });
        }
        if recipient_ids.len() == 0 {
            return Err(Error::EmptyDmRecipients);
        }
        let mut i: usize = 0;
        while i < recipient_ids.len()
            invariant
                self.wf(),
                m == self.member_ids(),
                v == id_views(recipient_ids@),
                i <= recipient_ids@.len(),
                forall|k: int| 0 <= k < i ==> !dm_recipient_bad(m, v, k),
                self.member_ids().contains(sender_id@),
                v.len() > 0,
            decreases recipient_ids@.len() - i,
        {
            assert(recipient_ids@[i as int]@ == v[i as int]);
            proof {
                assert forall|k: int| 0 <= k < i implies !#[trigger] dm_bad_pred(m, v)(k) by {
                    assert(!dm_recipient_bad(m, v, k));
                }
            }
            if self.binding_index(recipient_ids[i].as_str()).is_none() {
                proof {
                    assert(dm_bad_pred(m, v)(i as int));
                    lemma_first_index_unique(dm_bad_pred(m, v), v.len() as int, i as int);
                }
                return Err(Error::UnknownDmRecipient { agent_id: recipient_ids[i].clone() });
            }
            let mut j: usize = 0;
            while j < i
                invariant
                    j <= i,
                    i < recipient_ids@.len(),
                    v == id_views(recipient_ids@),
                    forall|k: int| 0 <= k < j ==> v[k] != v[i as int],
                    forall|k: int| 0 <= k < i ==> !#[trigger] dm_bad_pred(m, v)(k),
                    m.contains(v[i as int]),
                    m == self.member_ids(),
                    self.member_ids().contains(sender_id@),
                    v.len() > 0,
                decreases i - j,
            {
                if recipient_ids[j] == recipient_ids[i] {
                    proof {
                        assert(v[j as int] == v[i as int]);
                        assert(repeats_earlier(v, i as int));
                        assert(dm_bad_pred(m, v)(i as int));
                        lemma_first_index_unique(dm_bad_pred(m, v), v.len() as int, i as int);
                    }
                    return Err(Error::DuplicateDmRecipient { agent_id: recipient_ids[i].clone() });
                }
                j = j + 1;
            }
            i = i + 1;
        }
        proof {
            assert forall|k: int| 0 <= k < v.len() implies !#[trigger] dm_bad_pred(m, v)(k) by {
                assert(!dm_recipient_bad(m, v, k));
            }
            lemma_first_index_unique(dm_bad_pred(m, v), v.len() as int, v.len() as int);
        }
        match MessageRoute::desk_aside(copy_ids(recipient_ids), round_width) {
            Some(route) => Ok(route),
            None => Err(Error::DmTooWide { recipient_count: recipient_ids.len(), round_width }),
        }
    }
}

/// What checking a desk routing request gives.
pub open spec fn desk_route_checked<A>(
    hive: &OpenHumanHive<A>,
    request: &RoutingRequest,
    explicit: Option<&str>,
    fallback: &str,
    r: Result<(), Error>,
) -> bool {
    let g = hive.graph_model();
    let mismatch = |field: Seq<char>|
        (r matches Err(Error::MismatchedDeskRoutingRequest { field: f }) && f@ == field);
    if request.conversation.id@ != g.desk.id {
        mismatch("conversation.id"@)
    } else if request.conversation.kind != ConversationKind::Desk {
        mismatch("conversation.kind"@)
    } else if !(request.source is DeskMessage) {
        mismatch("source"@)
    } else if opt_view(request.desk_purpose) != g.desk.description {
        mismatch("desk_purpose"@)
    } else if candidate_views(request.candidates@) != g.candidates {
        mismatch("candidates"@)
    } else if explicit matches Some(e) && !hive.member_ids().contains(e@) {
        r matches Err(Error::UnknownBoundAgent { agent_id }) && agent_id@ == explicit->0@
    } else if !hive.member_ids().contains(fallback@) {
        r matches Err(Error::UnknownBoundAgent { agent_id }) && agent_id@ == fallback@
    } else {
        r is Ok
    }
}

/// What resolving a plan's ids gives: the first one that is not a member is
/// refused, and otherwise every id's binding, in order.
pub open spec fn plan_resolved<A>(
    hive: &OpenHumanHive<A>,
    p: Seq<Seq<char>>,
    r: Result<Vec<&AgentBinding<A>>, Error>,
) -> bool {
    let f = first_index(outside_pred(hive.member_ids(), p), p.len() as int);
    if f < p.len() {
        r matches Err(Error::UnknownBoundAgent { agent_id }) && agent_id@ == p[f]
    } else {
        r matches Ok(out) && out@.len() == p.len() && forall|k: int|
            0 <= k < p.len() ==> (#[trigger] out@[k]).hive_agent_id@ == p[k]
                && hive.bindings_model().contains(*out@[k])
    }
}

/// Whether the `i`th private recipient is not a member, or repeats an
/// earlier one.
pub open spec fn dm_recipient_bad(members: Seq<Seq<char>>, v: Seq<Seq<char>>, i: int) -> bool {
    !members.contains(v[i]) || repeats_earlier(v, i)
}

/// What resolving a private message gives.
pub open spec fn dm_resolved(
    members: Seq<Seq<char>>,
    sender: Seq<char>,
    v: Seq<Seq<char>>,
    round_width: usize,
    r: Result<MessageRoute, Error>,
) -> bool {
    let f = first_index(dm_bad_pred(members, v), v.len() as int);
    if !members.contains(sender) {
        r matches Err(Error::UnknownDmSender { agent_id }) && agent_id@ == sender
    } else if v.len() == 0 {
        r matches Err(Error::EmptyDmRecipients)
    } else if f < v.len() {
        if !members.contains(v[f]) {
            r matches Err(Error::UnknownDmRecipient { agent_id }) && agent_id@ == v[f]
        } else {
            r matches Err(Error::DuplicateDmRecipient { agent_id }) && agent_id@ == v[f]
        }
    } else if v.len() > round_width {
        r matches Err(Error::DmTooWide { recipient_count, round_width: w }) && recipient_count
            == v.len() && w == round_width
    } else {
        r matches Ok(route) && id_views(route.recipient_ids@) == v
    }
}

} // verus!
