//! What a router is handed and what it answers, as plain values: the desk,
//! its route candidates, a routing request, an accepted plan, and the private
//! route a desk aside takes.

use vstd::prelude::*;

use crate::text::str_eq;
use crate::types::{copy_ids, id_views, same_ids, Sequence};

verus! {

/// An optional text as values.
pub open spec fn opt_view(o: Option<String>) -> Option<Seq<char>> {
    match o {
        Some(s) => Some(s@),
        None => None,
    }
}

/// A copy of an optional text.
pub fn copy_opt(o: &Option<String>) -> (r: Option<String>)
    ensures
        opt_view(r) == opt_view(*o),
{
    match o {
        Some(s) => Some(s.clone()),
        None => None,
    }
}

/// Whether two optional texts agree.
pub fn same_opt(a: &Option<String>, b: &Option<String>) -> (r: bool)
    ensures
        r == (opt_view(*a) == opt_view(*b)),
{
    match (a, b) {
        (Some(x), Some(y)) => str_eq(x.as_str(), y.as_str()),
        (None, None) => true,
        _ => false,
    }
}

/// One desk: its id, name, purpose and members.
#[derive(Debug, PartialEq, Eq)]
pub struct Desk {
    pub id: String,
    pub name: String,
    pub description: Option<String>,
    pub members: Vec<String>,
}

/// A desk as values.
pub struct DeskModel {
    pub id: Seq<char>,
    pub name: Seq<char>,
    pub description: Option<Seq<char>>,
    pub members: Seq<Seq<char>>,
}

impl View for Desk {
    type V = DeskModel;

    open spec fn view(&self) -> DeskModel {
        DeskModel {
            id: self.id@,
            name: self.name@,
            description: opt_view(self.description),
            members: id_views(self.members@),
        }
    }
}

impl Clone for Desk {
    fn clone(&self) -> (r: Self)
        ensures
            r@ == self@,
    {
        Desk {
            id: self.id.clone(),
            name: self.name.clone(),
            description: copy_opt(&self.description),
            members: copy_ids(&self.members),
        }
    }
}

/// One seat as the router sees it.
#[derive(Debug, PartialEq, Eq)]
pub struct RouteCandidate {
    pub id: String,
    pub label: String,
    pub role: Option<String>,
    pub description: Option<String>,
    pub capabilities: Vec<String>,
    pub learned_topics: Vec<String>,
    pub available: bool,
}

/// A candidate as values.
pub struct CandidateModel {
    pub id: Seq<char>,
    pub label: Seq<char>,
    pub role: Option<Seq<char>>,
    pub description: Option<Seq<char>>,
    pub capabilities: Seq<Seq<char>>,
    pub learned_topics: Seq<Seq<char>>,
    pub available: bool,
}

impl View for RouteCandidate {
    type V = CandidateModel;

    open spec fn view(&self) -> CandidateModel {
        CandidateModel {
            id: self.id@,
            label: self.label@,
            role: opt_view(self.role),
            description: opt_view(self.description),
            capabilities: id_views(self.capabilities@),
            learned_topics: id_views(self.learned_topics@),
            available: self.available,
        }
    }
}

impl Clone for RouteCandidate {
    fn clone(&self) -> (r: Self)
        ensures
            r@ == self@,
    {
        RouteCandidate {
            id: self.id.clone(),
            label: self.label.clone(),
            role: copy_opt(&self.role),
            description: copy_opt(&self.description),
            capabilities: copy_ids(&self.capabilities),
            learned_topics: copy_ids(&self.learned_topics),
            available: self.available,
        }
    }
}

impl RouteCandidate {
    /// Whether two candidates are the same in every field.
    pub fn same_as(&self, other: &RouteCandidate) -> (r: bool)
        ensures
            r == (self@ == other@),
    {
        str_eq(self.id.as_str(), other.id.as_str()) && str_eq(
            self.label.as_str(),
            other.label.as_str(),
        ) && same_opt(&self.role, &other.role) && same_opt(&self.description, &other.description)
            && same_ids(&self.capabilities, &other.capabilities) && same_ids(
            &self.learned_topics,
            &other.learned_topics,
        ) && self.available == other.available
    }
}

/// The values of a list of candidates.
pub open spec fn candidate_views(cs: Seq<RouteCandidate>) -> Seq<CandidateModel> {
    cs.map_values(|c: RouteCandidate| c@)
}

/// The ids of a list of candidates.
pub open spec fn candidate_ids(cs: Seq<RouteCandidate>) -> Seq<Seq<char>> {
    cs.map_values(|c: RouteCandidate| c.id@)
}

/// A copy of a list of candidates.
pub fn copy_candidates(cs: &Vec<RouteCandidate>) -> (r: Vec<RouteCandidate>)
    ensures
        candidate_views(r@) == candidate_views(cs@),
        candidate_ids(r@) == candidate_ids(cs@),
{
    let mut r: Vec<RouteCandidate> = Vec::new();
    let mut i: usize = 0;
    while i < cs.len()
        invariant
            i <= cs@.len(),
            r@.len() == i,
            forall|k: int| 0 <= k < i ==> (#[trigger] r@[k])@ == cs@[k]@,
        decreases cs@.len() - i,
    {
        r.push(cs[i].clone());
        i = i + 1;
    }
    assert(candidate_views(r@) =~= candidate_views(cs@));
    assert forall|k: int| 0 <= k < r@.len() implies (#[trigger] candidate_ids(r@)[k]) == candidate_ids(cs@)[k] by {
        assert(r@[k]@ == cs@[k]@);
    }
    assert(candidate_ids(r@) =~= candidate_ids(cs@));
    r
}

/// Whether two lists of candidates agree in order and in every field.
pub fn same_candidates(a: &Vec<RouteCandidate>, b: &Vec<RouteCandidate>) -> (r: bool)
    ensures
        r == (candidate_views(a@) == candidate_views(b@)),
{
    if a.len() != b.len() {
        assert(candidate_views(a@).len() != candidate_views(b@).len());
        return false;
    }
    let mut i: usize = 0;
    while i < a.len()
        invariant
            i <= a@.len(),
            a@.len() == b@.len(),
            forall|k: int| 0 <= k < i ==> (#[trigger] a@[k])@ == b@[k]@,
        decreases a@.len() - i,
    {
        if !a[i].same_as(&b[i]) {
            assert(candidate_views(a@)[i as int] != candidate_views(b@)[i as int]);
            return false;
        }
        i = i + 1;
    }
    assert(candidate_views(a@) =~= candidate_views(b@));
    true
}

/// Where a routed message originates.
#[derive(Debug, PartialEq, Eq)]
pub enum RoutingSource {
    /// A message posted on the desk.
    DeskMessage,
    /// An agent handing work off.
    AgentBroadcast { author_id: String },
}

/// The kind of conversation a message is routed within.
#[derive(Clone, Copy, Debug, PartialEq, Eq, Structural)]
pub enum ConversationKind {
    Desk,
    Direct,
}

/// The conversation a routed message belongs to.
#[derive(Debug, PartialEq, Eq)]
pub struct ConversationRef {
    pub id: String,
    pub kind: ConversationKind,
    pub thread_root: Option<Sequence>,
}

/// The frozen acceptance policy a router applies, in parts per million.
#[derive(Clone, Copy, Debug, PartialEq, Eq, Structural)]
pub struct RoutingPolicy {
    pub minimum_confidence: u32,
    pub high_impact_minimum_confidence: u32,
    pub clarification_threshold: u32,
    pub high_impact_threshold: u32,
    pub round_width: usize,
    pub choice_option_limit: usize,
}

/// Everything a router is asked.
#[derive(Debug, PartialEq, Eq)]
pub struct RoutingRequest {
    pub message: String,
    pub source: RoutingSource,
    pub conversation: ConversationRef,
    pub desk_purpose: Option<String>,
    pub thread_context: Vec<String>,
    pub candidates: Vec<RouteCandidate>,
    pub roster_version: u64,
    pub policy: RoutingPolicy,
}

/// An accepted routing outcome: who, if anybody, takes the message.
#[derive(Debug, PartialEq, Eq)]
pub enum RoutingPlan {
    /// One responder was selected.
    One { responder_id: String },
    /// The deterministic fallback responder takes it.
    Fallback { responder_id: String },
    /// A primary responder and invited collaborators.
    Hive { primary_id: String, invited_ids: Vec<String> },
    /// The router asks for clarification; nobody was selected.
    Clarify,
}

/// A plan as values.
pub enum PlanModel {
    One { responder_id: Seq<char> },
    Fallback { responder_id: Seq<char> },
    Hive { primary_id: Seq<char>, invited_ids: Seq<Seq<char>> },
    Clarify,
}

impl View for RoutingPlan {
    type V = PlanModel;

    open spec fn view(&self) -> PlanModel {
        match self {
            RoutingPlan::One { responder_id } => PlanModel::One { responder_id: responder_id@ },
            RoutingPlan::Fallback { responder_id } => PlanModel::Fallback {
                responder_id: responder_id@,
            },
            RoutingPlan::Hive { primary_id, invited_ids } => PlanModel::Hive {
                primary_id: primary_id@,
                invited_ids: id_views(invited_ids@),
            },
            RoutingPlan::Clarify => PlanModel::Clarify,
        }
    }
}

impl Clone for RoutingPlan {
    fn clone(&self) -> (r: Self)
        ensures
            r@ == self@,
    {
        match self {
            RoutingPlan::One { responder_id } => RoutingPlan::One {
                responder_id: responder_id.clone(),
            },
            RoutingPlan::Fallback { responder_id } => RoutingPlan::Fallback {
                responder_id: responder_id.clone(),
            },
            RoutingPlan::Hive { primary_id, invited_ids } => RoutingPlan::Hive {
                primary_id: primary_id.clone(),
                invited_ids: copy_ids(invited_ids),
            },
            RoutingPlan::Clarify => RoutingPlan::Clarify,
        }
    }
}

/// The seats a plan selects, primary first.
pub open spec fn plan_ids(plan: RoutingPlan) -> Seq<Seq<char>> {
    plan_model_ids(plan@)
}

/// The seats a plan selects, primary first.
pub open spec fn plan_model_ids(plan: PlanModel) -> Seq<Seq<char>> {
    match plan {
        PlanModel::One { responder_id } => seq![responder_id],
        PlanModel::Fallback { responder_id } => seq![responder_id],
        PlanModel::Hive { primary_id, invited_ids } => seq![primary_id] + invited_ids,
        PlanModel::Clarify => Seq::empty(),
    }
}

/// The seats a plan selects, primary first.
pub fn route_ids(plan: &RoutingPlan) -> (r: Vec<String>)
    ensures
        id_views(r@) == plan_ids(*plan),
{
    match plan {
        RoutingPlan::One { responder_id } => {
            let mut r = Vec::new();
            r.push(responder_id.clone());
            assert(id_views(r@) =~= plan_ids(*plan));
            r
        },
        RoutingPlan::Fallback { responder_id } => {
            let mut r = Vec::new();
            r.push(responder_id.clone());
            assert(id_views(r@) =~= plan_ids(*plan));
            r
        },
        RoutingPlan::Hive { primary_id, invited_ids } => {
            let mut r = Vec::new();
            r.push(primary_id.clone());
            let mut i: usize = 0;
            while i < invited_ids.len()
                invariant
                    i <= invited_ids@.len(),
                    id_views(r@) == seq![primary_id@] + id_views(invited_ids@.subrange(0, i as int)),
                decreases invited_ids@.len() - i,
            {
                let ghost before = id_views(r@);
                r.push(invited_ids[i].clone());
                assert(id_views(r@) =~= before.push(invited_ids@[i as int]@));
                assert(id_views(invited_ids@.subrange(0, i + 1)) =~= id_views(
                    invited_ids@.subrange(0, i as int),
                ).push(invited_ids@[i as int]@));
                i = i + 1;
            }
            assert(invited_ids@.subrange(0, invited_ids@.len() as int) =~= invited_ids@);
            r
        },
        RoutingPlan::Clarify => {
            let r = Vec::new();
            assert(id_views(r@) =~= plan_ids(*plan));
            r
        },
    }
}

/// A private route on the desk: an aside to named members.
#[derive(Debug, PartialEq, Eq)]
pub struct MessageRoute {
    /// The members the aside goes to.
    pub recipient_ids: Vec<String>,
}

impl Clone for MessageRoute {
    fn clone(&self) -> (r: Self)
        ensures
            id_views(r.recipient_ids@) == id_views(self.recipient_ids@),
    {
        MessageRoute { recipient_ids: copy_ids(&self.recipient_ids) }
    }
}

impl MessageRoute {
    /// An aside to `recipient_ids`, when it fits the round width.
    pub fn desk_aside(recipient_ids: Vec<String>, round_width: usize) -> (r: Option<MessageRoute>)
        ensures
            recipient_ids@.len() <= round_width <==> r is Some,
            r matches Some(route) ==> route.recipient_ids@ == recipient_ids@,
    {
        if recipient_ids.len() <= round_width {
            Some(MessageRoute { recipient_ids })
        } else {
            None
        }
    }
}

} // verus!
