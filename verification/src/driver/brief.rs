//! What the episode itself has to tell a seat before its turn.
//!
//! A host owns everything about who a seat is and puts that in front of the
//! seat however it likes. What it cannot derive without re-reading the driver
//! is what the episode knows: the seat's open assignment, what is new for it,
//! the conversations it is in, what it is waiting on, what waits for it, and
//! which channel every tool call must name. [`EpisodeBrief`] is that, as a
//! value, with a default [`EpisodeBrief::render`] a host may use or replace.
//!
//! Nothing here reads storage: the host passes the rows a seat may see and
//! the conversations it was part of.

use vstd::prelude::*;

use crate::driver::state::{open_assignment, open_at, DriverState};
use crate::ledger::{awaiting_spec, queue_len_spec};
use crate::text::{decimal, decimal_string, strictly_sorted};
use crate::render::{ToolParameter, ToolSpec};
use crate::types::{copy_ids, id_views, Sequence};

verus! {

/// Where a turn runs.
#[derive(Debug, PartialEq, Eq)]
pub enum Channel {
    /// The open desk.
    Desk,
    /// A conversation rooted at an ask row, between this seat and `other`,
    /// `opened_it` when this seat asked.
    Thread { root: Sequence, other: String, opened_it: bool },
}

/// One conversation the seat is or was in, as the host holds it.
#[derive(Debug, PartialEq, Eq)]
pub struct ConversationView {
    /// The ask row it is rooted at.
    pub root: Sequence,
    /// The other seat in it.
    pub other: String,
    /// Whether this seat opened it.
    pub opened_it: bool,
    /// Every row in it so far, rendered by the host.
    pub transcript: Vec<String>,
    /// Whether it has concluded.
    pub concluded: bool,
}

/// What the episode tells a seat before one turn.
#[derive(Debug, PartialEq, Eq)]
pub struct EpisodeBrief {
    /// The seat.
    pub seat: String,
    /// The chat the turn is in, as every tool call must name it.
    pub chat: String,
    /// Where the turn runs.
    pub channel: Channel,
    /// Where the seat's open assignment in this channel's episode was made.
    pub assignment: Option<Sequence>,
    /// Rows above the seat's watermark, rendered by the host.
    pub new_rows: Vec<String>,
    /// Conversations the host wants in front of the seat.
    pub conversations: Vec<ConversationView>,
    /// Seats whose conversation with this one must conclude before it may
    /// complete.
    pub awaiting: Vec<String>,
    /// Handoffs held for this seat, delivered when it completes.
    pub queued: usize,
}

/// `parts` with `sep` between each two.
pub open spec fn joined_with(parts: Seq<Seq<char>>, sep: Seq<char>) -> Seq<char>
    decreases parts.len(),
{
    if parts.len() == 0 {
        seq![]
    } else if parts.len() == 1 {
        parts[0]
    } else {
        joined_with(parts.drop_last(), sep) + sep + parts.last()
    }
}

/// The rows one per line, or a note that there are none.
pub open spec fn rows_text(rows: Seq<Seq<char>>) -> Seq<char> {
    if rows.len() == 0 {
        "(nothing new)"@
    } else {
        joined_with(rows, "\n"@)
    }
}

/// One conversation: who with, which thread, whether it goes on, and what
/// was said.
pub open spec fn conversation_text(v: ConversationView) -> Seq<char> {
    "### With @"@ + v.other@ + " (thread "@ + decimal(v.root.0 as nat) + ")"@ + (if v.concluded {
        Seq::<char>::empty()
    } else {
        " -- in progress"@
    }) + "\n"@ + rows_text(id_views(v.transcript@))
}

/// The conversations that have concluded, or that have not, each as text,
/// in the order given.
pub open spec fn conversations_text(vs: Seq<ConversationView>, concluded: bool) -> Seq<Seq<char>>
    decreases vs.len(),
{
    if vs.len() == 0 {
        seq![]
    } else {
        let r = conversations_text(vs.drop_last(), concluded);
        if vs.last().concluded == concluded {
            r.push(conversation_text(vs.last()))
        } else {
            r
        }
    }
}

/// A headed section, or nothing when it has no parts.
pub open spec fn section(header: Seq<char>, parts: Seq<Seq<char>>) -> Seq<char> {
    if parts.len() == 0 {
        seq![]
    } else {
        header + joined_with(parts, "\n\n"@)
    }
}

/// What the seat's assignment asks of it, or that it holds none.
pub open spec fn assignment_text(a: Option<Sequence>) -> Seq<char> {
    match a {
        Some(at) => "Your assignment was made at sequence "@ + decimal(at.0 as nat)
            + ". Record your part with `complete_episode`: its message is your finding. Hand what is another seat's on with `broadcast`. A reply that calls no tool records nothing."@,
        None => "You hold no open assignment. If a peer asked you something, that conversation is its own thread and you will be turned to there."@,
    }
}

/// Who the seat awaits, when anybody.
pub open spec fn awaiting_text(a: Seq<Seq<char>>) -> Seq<char> {
    if a.len() == 0 {
        seq![]
    } else {
        " You cannot complete until your conversation with @"@ + joined_with(a, ", @"@) + " concludes."@
    }
}

/// How many handoffs wait for the seat, when any do.
pub open spec fn queued_text(q: nat) -> Seq<char> {
    if q == 0 {
        seq![]
    } else {
        " "@ + decimal(q) + " handoff(s) wait for you and arrive when you complete."@
    }
}

/// The brief of a turn on the desk.
pub open spec fn desk_text(b: EpisodeBrief) -> Seq<char> {
    "## New desk messages\n"@ + rows_text(id_views(b.new_rows@)) + section(
        "\n\n## Conversations you had since you last spoke\n"@,
        conversations_text(b.conversations@, true),
    ) + section("\n\n## Conversations still in progress\n"@, conversations_text(b.conversations@, false))
        + "\n\n"@ + assignment_text(b.assignment) + awaiting_text(id_views(b.awaiting@)) + queued_text(
        b.queued as nat,
    ) + "\n\nEvery tool call must carry \"chat\": \""@ + b.chat@ + "\" and \"parent\": null."@
}

/// What the seat is to do in a conversation, by whether it opened it.
pub open spec fn role_text(opened_it: bool) -> Seq<char> {
    if opened_it {
        "You opened this conversation; their answer reaches you on the desk. There is nothing for you to do here."@
    } else {
        "A peer asked you this. Answer with `complete_episode`: its message is your answer and reaches them. If you need another seat first, say so in that answer, and the seat that asked you will ask them."@
    }
}

/// The brief of a turn inside a conversation.
pub open spec fn thread_text(b: EpisodeBrief, root: Sequence, other: Seq<char>, opened_it: bool) -> Seq<char> {
    "## A private conversation with @"@ + other + " (thread "@ + decimal(root.0 as nat) + ")\n"@ + rows_text(
        id_views(b.new_rows@),
    ) + "\n\n"@ + role_text(opened_it)
        + " Only the two of you read this thread.\n\nEvery tool call must carry \"chat\": \""@ + b.chat@
        + "\" and \"parent\": \""@ + decimal(root.0 as nat)
        + "\". `ask` is not available inside a conversation. A `broadcast` made here hands work off on the desk, exactly as it would there."@
}

/// `parts` with `sep` between each two.
pub fn join_with(parts: &Vec<String>, sep: &str) -> (r: String)
    ensures
        r@ == joined_with(id_views(parts@), sep@),
{
    let ghost v = id_views(parts@);
    let mut out = String::new();
    let mut i: usize = 0;
    assert(out@ =~= joined_with(v.subrange(0, 0), sep@));
    while i < parts.len()
        invariant
            i <= parts@.len(),
            v == id_views(parts@),
            out@ == joined_with(v.subrange(0, i as int), sep@),
        decreases parts@.len() - i,
    {
        assert(v.subrange(0, i + 1).drop_last() =~= v.subrange(0, i as int));
        assert(v.subrange(0, i + 1).last() == parts@[i as int]@);
        if i > 0 {
            out.append(sep);
        } else {
            assert(v.subrange(0, 1) =~= seq![parts@[0]@]);
            assert(out@ =~= Seq::<char>::empty());
        }
        out.append(parts[i].as_str());
        i = i + 1;
    }
    assert(v.subrange(0, i as int) =~= v);
    out
}

/// A headed section, or nothing when it has no parts.
pub fn section_string(header: &str, parts: &Vec<String>) -> (r: String)
    ensures
        r@ == section(header@, id_views(parts@)),
{
    if parts.len() == 0 {
        let out = String::new();
        assert(out@ =~= Seq::<char>::empty());
        out
    } else {
        let mut out = String::from_str(header);
        out.append(join_with(parts, "\n\n").as_str());
        out
    }
}

/// The rows one per line, or `(nothing new)` when there are none.
pub fn rows_or_nothing(rows: &Vec<String>) -> (r: String)
    ensures
        r@ == rows_text(id_views(rows@)),
{
    if rows.len() == 0 {
        String::from_str("(nothing new)")
    } else {
        join_with(rows, "\n")
    }
}

/// One conversation as the brief shows it.
pub fn render_conversation(view: &ConversationView) -> (r: String)
    ensures
        r@ == conversation_text(*view),
{
    let mut out = String::from_str("### With @");
    out.append(view.other.as_str());
    out.append(" (thread ");
    out.append(decimal_string(view.root.0).as_str());
    out.append(")");
    let ghost before = out@;
    if !view.concluded {
        out.append(" -- in progress");
    }
    assert(out@ =~= before + if view.concluded {
        Seq::<char>::empty()
    } else {
        " -- in progress"@
    });
    out.append("\n");
    out.append(rows_or_nothing(&view.transcript).as_str());
    out
}

/// The conversations that concluded, or that did not, as text.
fn render_conversations(views: &Vec<ConversationView>, concluded: bool) -> (r: Vec<String>)
    ensures
        id_views(r@) == conversations_text(views@, concluded),
{
    let mut out: Vec<String> = Vec::new();
    let mut i: usize = 0;
    while i < views.len()
        invariant
            i <= views@.len(),
            id_views(out@) == conversations_text(views@.subrange(0, i as int), concluded),
        decreases views@.len() - i,
    {
        assert(views@.subrange(0, i + 1).drop_last() =~= views@.subrange(0, i as int));
        assert(views@.subrange(0, i + 1).last() == views@[i as int]);
        if views[i].concluded == concluded {
            let ghost before = id_views(out@);
            out.push(render_conversation(&views[i]));
            assert(id_views(out@) =~= before.push(conversation_text(views@[i as int])));
        }
        i = i + 1;
    }
    assert(views@.subrange(0, i as int) =~= views@);
    out
}

impl EpisodeBrief {
    /// Build the brief for one turn from the state of the episode the
    /// channel belongs to: the desk's, or the conversation's.
    pub fn for_turn(
        state: &DriverState,
        chat: String,
        seat: String,
        channel: Channel,
        new_rows: Vec<String>,
        conversations: Vec<ConversationView>,
    ) -> (r: Self)
        requires
            state.wf(),
        ensures
            r.seat@ == seat@,
            r.chat@ == chat@,
            r.channel == channel,
            r.new_rows == new_rows,
            r.conversations == conversations,
            r.assignment == open_at(state@.episode, seat@),
            r.queued as nat == queue_len_spec(state@.ledger.queues, seat@),
            match awaiting_spec(state@.ledger.asks, seat@) {
                Some(m) => strictly_sorted(id_views(r.awaiting@)) && forall|x: Seq<char>|
                    #[trigger] id_views(r.awaiting@).contains(x) <==> m.dom().contains(x),
                None => r.awaiting@.len() == 0,
            },
    {
        let awaiting = match state.ledger.awaiting(seat.as_str()) {
            Some(asked) => asked.sorted_keys(),
            None => Vec::new(),
        };
        let assignment = open_assignment(&state.episode, seat.as_str());
        let queued = state.ledger.queue_len(seat.as_str());
        EpisodeBrief { seat, chat, channel, assignment, new_rows, conversations, awaiting, queued }
    }

    /// The `parent` every tool call in this turn must name: the thread root,
    /// or `None` on the desk.
    pub fn parent(&self) -> (r: Option<String>)
        ensures
            match self.channel {
                Channel::Desk => r is None,
                Channel::Thread { root, .. } => r matches Some(p) && p@ == decimal(root.0 as nat),
            },
    {
        match &self.channel {
            Channel::Desk => None,
            Channel::Thread { root, .. } => Some(decimal_string(root.0)),
        }
    }

    /// The default wording of the brief. A host prepends what it owns.
    pub fn render(&self) -> (r: String)
        ensures
            r@ == match self.channel {
                Channel::Desk => desk_text(*self),
                Channel::Thread { root, other, opened_it } => thread_text(*self, root, other@, opened_it),
            },
    {
        match &self.channel {
            Channel::Desk => self.render_desk(),
            Channel::Thread { root, other, opened_it } => self.render_thread(*root, other.as_str(), *opened_it),
        }
    }

    /// The brief of a turn on the desk.
    pub fn render_desk(&self) -> (r: String)
        ensures
            r@ == desk_text(*self),
    {
        let mut out = String::from_str("## New desk messages\n");
        out.append(rows_or_nothing(&self.new_rows).as_str());
        let concluded = render_conversations(&self.conversations, true);
        out.append(section_string("\n\n## Conversations you had since you last spoke\n", &concluded).as_str());
        let open = render_conversations(&self.conversations, false);
        out.append(section_string("\n\n## Conversations still in progress\n", &open).as_str());
        let tail = self.desk_tail();
        let ghost head = out@;
        out.append(tail.as_str());
        proof {
            let a = "## New desk messages\n"@;
            let b = rows_text(id_views(self.new_rows@));
            let c = section("\n\n## Conversations you had since you last spoke\n"@, conversations_text(self.conversations@, true));
            let d = section("\n\n## Conversations still in progress\n"@, conversations_text(self.conversations@, false));
            let e = "\n\n"@;
            let f = assignment_text(self.assignment);
            let g = awaiting_text(id_views(self.awaiting@));
            let h = queued_text(self.queued as nat);
            let i = "\n\nEvery tool call must carry \"chat\": \""@;
            let j = self.chat@;
            let k = "\" and \"parent\": null."@;
            assert(head == a + b + c + d);
            assert(tail@ == e + f + g + h + i + j + k);
            assert(out@ =~= a + b + c + d + e + f + g + h + i + j + k);
        }
        out
    }

    /// Everything of a desk brief after the conversations.
    fn desk_tail(&self) -> (r: String)
        ensures
            r@ == "\n\n"@ + assignment_text(self.assignment) + awaiting_text(id_views(self.awaiting@)) + queued_text(
                self.queued as nat,
            ) + "\n\nEvery tool call must carry \"chat\": \""@ + self.chat@ + "\" and \"parent\": null."@,
    {
        let mut out = String::from_str("\n\n");
        match self.assignment {
            Some(at) => {
                out.append("Your assignment was made at sequence ");
                out.append(decimal_string(at.0).as_str());
                out.append(
                    ". Record your part with `complete_episode`: its message is your finding. Hand what is another seat's on with `broadcast`. A reply that calls no tool records nothing.",
                );
            },
            None => {
                out.append(
                    "You hold no open assignment. If a peer asked you something, that conversation is its own thread and you will be turned to there.",
                );
            },
        }
        let ghost before = out@;
        if self.awaiting.len() > 0 {
            out.append(" You cannot complete until your conversation with @");
            out.append(join_with(&self.awaiting, ", @").as_str());
            out.append(" concludes.");
        }
        assert(out@ =~= before + awaiting_text(id_views(self.awaiting@)));
        let ghost before = out@;
        if self.queued > 0 {
            out.append(" ");
            out.append(decimal_string(self.queued as u64).as_str());
            out.append(" handoff(s) wait for you and arrive when you complete.");
        }
        assert(out@ =~= before + queued_text(self.queued as nat));
        out.append("\n\nEvery tool call must carry \"chat\": \"");
        out.append(self.chat.as_str());
        out.append("\" and \"parent\": null.");
        out
    }

    /// The brief of a turn inside a conversation.
    pub fn render_thread(&self, root: Sequence, other: &str, opened_it: bool) -> (r: String)
        ensures
            r@ == thread_text(*self, root, other@, opened_it),
    {
        let mut out = String::from_str("## A private conversation with @");
        out.append(other);
        out.append(" (thread ");
        out.append(decimal_string(root.0).as_str());
        out.append(")\n");
        out.append(rows_or_nothing(&self.new_rows).as_str());
        out.append("\n\n");
        if opened_it {
            out.append(
                "You opened this conversation; their answer reaches you on the desk. There is nothing for you to do here.",
            );
        } else {
            out.append(
                "A peer asked you this. Answer with `complete_episode`: its message is your answer and reaches them. If you need another seat first, say so in that answer, and the seat that asked you will ask them.",
            );
        }
        out.append(" Only the two of you read this thread.\n\nEvery tool call must carry \"chat\": \"");
        out.append(self.chat.as_str());
        out.append("\" and \"parent\": \"");
        out.append(decimal_string(root.0).as_str());
        out.append(
            "\". `ask` is not available inside a conversation. A `broadcast` made here hands work off on the desk, exactly as it would there.",
        );
        out
    }
}

} // verus!

verus! {

/// How a call names each parameter of a tool.
pub open spec fn call_shapes(ps: Seq<ToolParameter>) -> Seq<Seq<char>> {
    ps.map_values(|p: ToolParameter| "\""@ + p.name@ + "\": ..."@)
}

/// One tool as the standing contract lists it.
pub open spec fn tool_line(t: ToolSpec) -> Seq<char> {
    "\n\n  tool \""@ + t.name@ + "\", arguments {"@ + joined_with(call_shapes(t.parameters@), ", "@)
        + "}\n      -- "@ + t.description@
}

/// Every tool as the standing contract lists it, in order.
pub open spec fn tool_lines(specs: Seq<ToolSpec>) -> Seq<char>
    decreases specs.len(),
{
    if specs.len() == 0 {
        seq![]
    } else {
        tool_lines(specs.drop_last()) + tool_line(specs.last())
    }
}

/// The standing contract's wording.
pub open spec fn contract_text(specs: Seq<ToolSpec>, chat: Seq<char>, how_to_call: Seq<char>) -> Seq<char> {
    "Your work is recorded by calling a tool. Prose alone changes nothing: if you end a turn without calling one, nothing you said is recorded and the desk does not move.\n\n"@
        + how_to_call + " Every call carries \"chat\": \""@ + chat
        + "\" and the \"parent\" you are told, beside its own arguments:"@ + tool_lines(specs)
        + "\n\nIf you are waiting on a conversation and nothing new bears on your work, end your turn without calling any tool. Keep your reply brief -- the tool message is what the desk reads."@
}

fn render_tool(spec: &ToolSpec) -> (r: String)
    ensures
        r@ == tool_line(*spec),
{
    let mut shapes: Vec<String> = Vec::new();
    let mut i: usize = 0;
    while i < spec.parameters.len()
        invariant
            i <= spec.parameters@.len(),
            shapes@.len() == i,
            forall|k: int| 0 <= k < i ==> (#[trigger] shapes@[k])@ == call_shapes(spec.parameters@)[k],
        decreases spec.parameters@.len() - i,
    {
        let mut shape = String::from_str("\"");
        shape.append(spec.parameters[i].name.as_str());
        shape.append("\": ...");
        shapes.push(shape);
        i = i + 1;
    }
    assert(id_views(shapes@) =~= call_shapes(spec.parameters@));
    let mut out = String::from_str("\n\n  tool \"");
    out.append(spec.name.as_str());
    out.append("\", arguments {");
    out.append(join_with(&shapes, ", ").as_str());
    out.append("}\n      -- ");
    out.append(spec.description.as_str());
    out
}

/// The standing contract: how a turn is recorded, and what each served tool
/// is for, in the vocabulary's own words. `how_to_call` is the host's one
/// sentence on the mechanics.
pub fn standing_contract(specs: &Vec<ToolSpec>, chat: &str, how_to_call: &str) -> (r: String)
    ensures
        r@ == contract_text(specs@, chat@, how_to_call@),
{
    let mut out = String::from_str(
        "Your work is recorded by calling a tool. Prose alone changes nothing: if you end a turn without calling one, nothing you said is recorded and the desk does not move.\n\n",
    );
    out.append(how_to_call);
    out.append(" Every call carries \"chat\": \"");
    out.append(chat);
    out.append("\" and the \"parent\" you are told, beside its own arguments:");
    let ghost head = out@;
    let mut i: usize = 0;
    while i < specs.len()
        invariant
            i <= specs@.len(),
            out@ == head + tool_lines(specs@.subrange(0, i as int)),
        decreases specs@.len() - i,
    {
        assert(specs@.subrange(0, i + 1).drop_last() =~= specs@.subrange(0, i as int));
        assert(specs@.subrange(0, i + 1).last() == specs@[i as int]);
        let ghost before = out@;
        out.append(render_tool(&specs[i]).as_str());
        assert(out@ =~= head + tool_lines(specs@.subrange(0, i + 1)));
        i = i + 1;
    }
    assert(specs@.subrange(0, i as int) =~= specs@);
    out.append(
        "\n\nIf you are waiting on a conversation and nothing new bears on your work, end your turn without calling any tool. Keep your reply brief -- the tool message is what the desk reads.",
    );
    out
}

} // verus!

verus! {

/// Whether `t` occurs in `s` as one stretch of text.
pub open spec fn occurs_in(t: Seq<char>, s: Seq<char>) -> bool {
    exists|k: int| 0 <= k && k + t.len() <= s.len() && #[trigger] s.subrange(k, k + t.len()) == t
}

/// Text found inside `s` is found, at a shifted place, inside anything
/// that contains `s`.
proof fn lemma_occurs_within(t: Seq<char>, a: Seq<char>, s: Seq<char>, b: Seq<char>, k: int)
    requires
        0 <= k && k + t.len() <= s.len(),
        s.subrange(k, k + t.len()) == t,
    ensures
        (a + s + b).subrange(a.len() + k, a.len() + k + t.len()) == t,
        occurs_in(t, a + s + b),
{
    assert((a + s + b).subrange(a.len() + k, a.len() + k + t.len()) =~= s.subrange(k, k + t.len()));
}

/// In `@` followed by the parts joined with `, @`, every part stands right
/// after an `@`.
proof fn lemma_mentions_each(p: Seq<Seq<char>>, i: int)
    requires
        0 <= i < p.len(),
    ensures
        exists|k: int|
            0 <= k && k + 1 + p[i].len() <= 1 + joined_with(p, ", @"@).len() && #[trigger] ("@"@ + joined_with(
                p,
                ", @"@,
            )).subrange(k, k + 1 + p[i].len()) == "@"@ + p[i],
    decreases p.len(),
{
    reveal_strlit("@");
    reveal_strlit(", @");
    let s = "@"@ + joined_with(p, ", @"@);
    if p.len() == 1 {
        assert(joined_with(p, ", @"@) == p[0]);
        assert(s.subrange(0, 1 + p[i].len() as int) =~= "@"@ + p[i]);
        assert(0 + 1 + p[i].len() <= 1 + joined_with(p, ", @"@).len());
    } else {
        let j = joined_with(p.drop_last(), ", @"@);
        assert(s =~= ("@"@ + j) + ", @"@ + p.last());
        if i < p.len() - 1 {
            lemma_mentions_each(p.drop_last(), i);
            let k = choose|k: int|
                0 <= k && k + 1 + p.drop_last()[i].len() <= 1 + j.len() && #[trigger] ("@"@ + j).subrange(
                    k,
                    k + 1 + p.drop_last()[i].len(),
                ) == "@"@ + p.drop_last()[i];
            assert(s.subrange(k, k + 1 + p[i].len()) =~= ("@"@ + j).subrange(k, k + 1 + p[i].len()));
            assert(s.subrange(k, k + 1 + p[i].len()) == "@"@ + p[i]);
            assert(k + 1 + p[i].len() <= 1 + joined_with(p, ", @"@).len());
        } else {
            let k: int = j.len() as int + 3;
            assert(s.subrange(k, k + 1 + p[i].len()) =~= "@"@ + p[i]);
            assert(k + 1 + p[i].len() <= 1 + joined_with(p, ", @"@).len());
        }
    }
}

/// A desk brief names every seat the seat still awaits: for each of them
/// the text holds `@` followed by that seat's id.
pub proof fn lemma_desk_brief_names_every_awaited_seat(b: EpisodeBrief, i: int)
    requires
        0 <= i < b.awaiting@.len(),
    ensures
        occurs_in("@"@ + b.awaiting@[i]@, desk_text(b)),
{
    reveal_strlit(" You cannot complete until your conversation with @");
    reveal_strlit(" You cannot complete until your conversation with ");
    reveal_strlit("@");
    let a = id_views(b.awaiting@);
    assert(a[i] == b.awaiting@[i]@);
    lemma_mentions_each(a, i);
    let s = "@"@ + joined_with(a, ", @"@);
    let k = choose|k: int|
        0 <= k && k + 1 + a[i].len() <= 1 + joined_with(a, ", @"@).len() && #[trigger] s.subrange(k, k + 1 + a[i].len())
            == "@"@ + a[i];
    assert(" You cannot complete until your conversation with @"@ =~= " You cannot complete until your conversation with "@
        + "@"@);
    let pre = " You cannot complete until your conversation with "@;
    assert(awaiting_text(a) =~= pre + s + " concludes."@);
    lemma_occurs_within("@"@ + a[i], pre, s, " concludes."@, k);
    let at = pre.len() + k;
    let t = "@"@ + a[i];
    assert(awaiting_text(a).subrange(at, at + t.len()) == t);
    let left = "## New desk messages\n"@ + rows_text(id_views(b.new_rows@)) + section(
        "\n\n## Conversations you had since you last spoke\n"@,
        conversations_text(b.conversations@, true),
    ) + section("\n\n## Conversations still in progress\n"@, conversations_text(b.conversations@, false))
        + "\n\n"@ + assignment_text(b.assignment);
    let right = queued_text(b.queued as nat) + "\n\nEvery tool call must carry \"chat\": \""@ + b.chat@
        + "\" and \"parent\": null."@;
    assert(desk_text(b) =~= left + awaiting_text(a) + right);
    lemma_occurs_within(t, left, awaiting_text(a), right, at);
}

} // verus!
