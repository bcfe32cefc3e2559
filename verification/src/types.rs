//! The small shared vocabulary: host sequences, the conversation an episode
//! runs on, and the utterances a seat's tool calls commit.

use vstd::prelude::*;

use crate::text::str_eq;

verus! {

/// A global host sequence: the position of a committed row.
#[derive(Clone, Copy, Debug, PartialEq, Eq, Structural, PartialOrd, Ord, Hash)]
pub struct Sequence(pub u64);

/// Where an episode runs: a desk, and the thread root when it runs in one.
#[derive(Debug, PartialEq, Eq)]
pub struct Conversation {
    /// The desk's id.
    pub desk_id: String,
    /// The desk's display name.
    pub desk_name: String,
    /// The row a thread is rooted at, or `None` on the desk itself.
    pub thread_root: Option<Sequence>,
}

/// A conversation as values.
pub struct ConversationModel {
    pub desk_id: Seq<char>,
    pub desk_name: Seq<char>,
    pub thread_root: Option<Sequence>,
}

impl View for Conversation {
    type V = ConversationModel;

    open spec fn view(&self) -> ConversationModel {
        ConversationModel {
            desk_id: self.desk_id@,
            desk_name: self.desk_name@,
            thread_root: self.thread_root,
        }
    }
}

impl Clone for Conversation {
    fn clone(&self) -> (r: Self)
        ensures
            r@ == self@,
    {
        Conversation {
            desk_id: self.desk_id.clone(),
            desk_name: self.desk_name.clone(),
            thread_root: self.thread_root,
        }
    }
}

/// One accepted tool call, as the row the host committed for it.
#[derive(Debug, PartialEq, Eq)]
#[allow(inconsistent_fields)]
pub enum Utterance {
    /// Text on the desk with no consequence.
    Post { message: String },
    /// Private text to peers.
    Dm { to: Vec<String>, message: String },
    /// A question to one seat, which opens a conversation with it.
    Ask { to: String, message: String },
    /// Work handed off to whoever the desk routes it to.
    Broadcast { message: String },
    /// The seat's part is done; its message is the finding.
    CompleteEpisode { message: String },
}

/// An utterance as values.
#[allow(inconsistent_fields)]
pub enum UtteranceModel {
    Post { message: Seq<char> },
    Dm { to: Seq<Seq<char>>, message: Seq<char> },
    Ask { to: Seq<char>, message: Seq<char> },
    Broadcast { message: Seq<char> },
    CompleteEpisode { message: Seq<char> },
}

/// The character views of a list of ids.
pub open spec fn id_views(v: Seq<String>) -> Seq<Seq<char>> {
    v.map_values(|s: String| s@)
}

impl View for Utterance {
    type V = UtteranceModel;

    open spec fn view(&self) -> UtteranceModel {
        match self {
            Utterance::Post { message } => UtteranceModel::Post { message: message@ },
            Utterance::Dm { to, message } => UtteranceModel::Dm {
                to: id_views(to@),
                message: message@,
            },
            Utterance::Ask { to, message } => UtteranceModel::Ask { to: to@, message: message@ },
            Utterance::Broadcast { message } => UtteranceModel::Broadcast { message: message@ },
            Utterance::CompleteEpisode { message } => UtteranceModel::CompleteEpisode {
                message: message@,
            },
        }
    }
}

/// A copy of a list of ids.
pub fn copy_ids(v: &Vec<String>) -> (r: Vec<String>)
    ensures
        id_views(r@) == id_views(v@),
        r@.len() == v@.len(),
{
    let mut r: Vec<String> = Vec::new();
    let mut i: usize = 0;
    while i < v.len()
        invariant
            i <= v@.len(),
            r@.len() == i,
            forall|k: int| 0 <= k < i ==> #[trigger] r@[k]@ == v@[k]@,
        decreases v@.len() - i,
    {
        r.push(v[i].clone());
        i = i + 1;
    }
    assert(id_views(r@) =~= id_views(v@));
    r
}

/// Whether two lists of ids hold the same ids in the same order.
pub fn same_ids(a: &Vec<String>, b: &Vec<String>) -> (r: bool)
    ensures
        r == (id_views(a@) == id_views(b@)),
{
    if a.len() != b.len() {
        assert(id_views(a@).len() != id_views(b@).len());
        return false;
    }
    let mut i: usize = 0;
    while i < a.len()
        invariant
            a@.len() == b@.len(),
            i <= a@.len(),
            forall|k: int| 0 <= k < i ==> #[trigger] a@[k]@ == b@[k]@,
        decreases a@.len() - i,
    {
        if !str_eq(a[i].as_str(), b[i].as_str()) {
            assert(id_views(a@)[i as int] != id_views(b@)[i as int]);
            return false;
        }
        i = i + 1;
    }
    assert(id_views(a@) =~= id_views(b@));
    true
}

impl Clone for Utterance {
    fn clone(&self) -> (r: Self)
        ensures
            r@ == self@,
    {
        match self {
            Utterance::Post { message } => Utterance::Post { message: message.clone() },
            Utterance::Dm { to, message } => Utterance::Dm {
                to: copy_ids(to),
                message: message.clone(),
            },
            Utterance::Ask { to, message } => Utterance::Ask {
                to: to.clone(),
                message: message.clone(),
            },
            Utterance::Broadcast { message } => Utterance::Broadcast { message: message.clone() },
            Utterance::CompleteEpisode { message } => Utterance::CompleteEpisode {
                message: message.clone(),
            },
        }
    }
}

impl Utterance {
    /// Whether two utterances are the same call with the same arguments.
    pub fn same_as(&self, other: &Utterance) -> (r: bool)
        ensures
            r == (self@ == other@),
    {
        match (self, other) {
            (Utterance::Post { message: a }, Utterance::Post { message: b }) => str_eq(
                a.as_str(),
                b.as_str(),
            ),
            (Utterance::Dm { to: a, message: m }, Utterance::Dm { to: b, message: n }) => {
                same_ids(a, b) && str_eq(m.as_str(), n.as_str())
            },
            (Utterance::Ask { to: a, message: m }, Utterance::Ask { to: b, message: n }) => {
                str_eq(a.as_str(), b.as_str()) && str_eq(m.as_str(), n.as_str())
            },
            (Utterance::Broadcast { message: a }, Utterance::Broadcast { message: b }) => str_eq(
                a.as_str(),
                b.as_str(),
            ),
            (
                Utterance::CompleteEpisode { message: a },
                Utterance::CompleteEpisode { message: b },
            ) => str_eq(a.as_str(), b.as_str()),
            _ => false,
        }
    }
}

} // verus!
