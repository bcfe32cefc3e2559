//! What the tool server answers one request, decided before any byte is
//! written.
//!
//! **The seat is the endpoint it dialled.** A path that does not carry a
//! seat's capability is answered that the endpoint is unknown, whatever the
//! request says; a path that does speaks for that seat and no other, and
//! nothing in a payload can change who is calling.

use vstd::prelude::*;

use crate::keyed::StrMap;
use crate::render::{
    defines, parse_arguments, served_list, strings_of, tool_definitions, Arguments, RawArguments, RawRecipients,
    ToolDefinition, ToolSpec,
};
use crate::routing::{copy_opt, opt_view};
use crate::server::{seat_for, seat_for_spec};
use crate::text::str_eq;
use crate::types::id_views;

verus! {

/// How a call's `arguments` arrived.
#[derive(Debug, PartialEq, Eq)]
pub enum ArgumentsShape {
    /// An object, read in the shapes the vocabulary declares.
    Object(RawArguments),
    /// A string, read as JSON: what it holds, or `None` when it is no JSON.
    Text(Option<RawArguments>),
    /// Anything else, or nothing.
    Other,
}

/// One request as the server reads it: its method, the tool a call names,
/// how the call's arguments arrived, and the params themselves read as
/// arguments. A body that is no JSON, or a field that is missing or not a
/// string, reads as empty text.
#[derive(Debug, PartialEq, Eq)]
pub struct Request {
    pub method: String,
    pub tool: String,
    pub arguments: ArgumentsShape,
    pub params: RawArguments,
}

/// What the server answers.
#[derive(Debug, PartialEq, Eq)]
pub enum Reply {
    /// The path carries no seat's capability.
    UnknownEndpoint,
    /// The handshake: the protocol version negotiated and the server's name.
    Initialized { protocol_version: String, server_name: String },
    /// A notification, acknowledged with no content.
    Accepted,
    /// The served tools, as definitions.
    Tools(Vec<ToolDefinition>),
    /// A tool call from the dialled seat, to be checked and recorded.
    Call { seat: String, tool: String, arguments: Arguments },
    /// A method the server does not know.
    UnknownMethod { method: String },
}

/// A call's `to` as values.
pub enum RecipientsModel {
    One(Seq<char>),
    Many(Seq<Option<Seq<char>>>),
    Absent,
}

/// A call's arguments as sent, as values.
pub struct RawModel {
    pub message: Option<Seq<char>>,
    pub to: RecipientsModel,
    pub limit: Option<u64>,
    pub chat: Option<Seq<char>>,
    pub parent: Option<Seq<char>>,
}

/// The values of arguments as sent.
pub open spec fn raw_view(a: RawArguments) -> RawModel {
    RawModel {
        message: opt_view(a.message),
        to: match a.to {
            RawRecipients::One(s) => RecipientsModel::One(s@),
            RawRecipients::Many(v) => RecipientsModel::Many(v@.map_values(|o: Option<String>| opt_view(o))),
            RawRecipients::Absent => RecipientsModel::Absent,
        },
        limit: a.limit,
        chat: opt_view(a.chat),
        parent: opt_view(a.parent),
    }
}

/// The arguments a call is read from: the `arguments` object, or the JSON a
/// string holds, and otherwise the params themselves.
pub open spec fn chosen_arguments(r: Request) -> RawModel {
    match r.arguments {
        ArgumentsShape::Object(a) => raw_view(a),
        ArgumentsShape::Text(Some(a)) => raw_view(a),
        ArgumentsShape::Text(None) => raw_view(r.params),
        ArgumentsShape::Other => raw_view(r.params),
    }
}

/// The strings among entries that may not be strings, as values.
pub open spec fn strings_among(v: Seq<Option<Seq<char>>>) -> Seq<Seq<char>>
    decreases v.len(),
{
    if v.len() == 0 {
        seq![]
    } else {
        match v.last() {
            Some(s) => strings_among(v.drop_last()).push(s),
            None => strings_among(v.drop_last()),
        }
    }
}

/// Whether `a` is `raw` read in the shapes the specs declare: `to` one seat,
/// or the strings of a list.
pub open spec fn read_from(a: Arguments, raw: RawModel) -> bool {
    &&& opt_view(a.message) == raw.message
    &&& id_views(a.to@) == match raw.to {
        RecipientsModel::One(s) => seq![s],
        RecipientsModel::Many(v) => strings_among(v),
        RecipientsModel::Absent => Seq::<Seq<char>>::empty(),
    }
    &&& a.limit == raw.limit
    &&& opt_view(a.chat) == raw.chat
    &&& opt_view(a.parent) == raw.parent
}

proof fn lemma_strings_among(v: Seq<Option<String>>)
    ensures
        strings_among(v.map_values(|o: Option<String>| opt_view(o))) == strings_of(v),
    decreases v.len(),
{
    if v.len() > 0 {
        lemma_strings_among(v.drop_last());
        assert(v.map_values(|o: Option<String>| opt_view(o)).drop_last() =~= v.drop_last().map_values(
            |o: Option<String>| opt_view(o),
        ));
    }
}

fn copy_raw(a: &RawArguments) -> (r: RawArguments)
    ensures
        raw_view(r) == raw_view(*a),
{
    let to = match &a.to {
        RawRecipients::One(s) => RawRecipients::One(s.clone()),
        RawRecipients::Many(v) => {
            let mut out: Vec<Option<String>> = Vec::new();
            let mut i: usize = 0;
            while i < v.len()
                invariant
                    i <= v@.len(),
                    out@.len() == i,
                    forall|k: int| 0 <= k < i ==> opt_view(#[trigger] out@[k]) == opt_view(v@[k]),
                decreases v@.len() - i,
            {
                out.push(copy_opt(&v[i]));
                i = i + 1;
            }
            assert(out@.map_values(|o: Option<String>| opt_view(o)) =~= v@.map_values(
                |o: Option<String>| opt_view(o),
            ));
            RawRecipients::Many(out)
        },
        RawRecipients::Absent => RawRecipients::Absent,
    };
    RawArguments {
        message: copy_opt(&a.message),
        to,
        limit: a.limit,
        chat: copy_opt(&a.chat),
        parent: copy_opt(&a.parent),
    }
}

/// The arguments of a call, however the dispatcher chose to send them: the
/// `arguments` object as it is; a string, as the JSON it holds, or the
/// params themselves when it holds none; and otherwise the params
/// themselves.
pub fn raw_arguments(request: &Request) -> (r: RawArguments)
    ensures
        raw_view(r) == chosen_arguments(*request),
{
    match &request.arguments {
        ArgumentsShape::Object(a) => copy_raw(a),
        ArgumentsShape::Text(Some(a)) => copy_raw(a),
        ArgumentsShape::Text(None) => copy_raw(&request.params),
        ArgumentsShape::Other => copy_raw(&request.params),
    }
}

/// The protocol version the server negotiates.
pub open spec fn protocol_version() -> Seq<char> {
    "2025-11-25"@
}

/// The name the server reports.
pub open spec fn server_name() -> Seq<char> {
    "tinyhivemind-episode"@
}

/// What answering `request` on `path` gives, by method, once the path has
/// been found to speak for a seat.
pub open spec fn answered(
    path: Seq<char>,
    request: Request,
    capabilities: Map<Seq<char>, Seq<char>>,
    specs: Seq<ToolSpec>,
    seats: Seq<Seq<char>>,
    r: Reply,
) -> bool {
    match seat_for_spec(path, capabilities) {
        None => r is UnknownEndpoint,
        Some(seat) => if request.method@ == "initialize"@ {
            r matches Reply::Initialized { protocol_version: v, server_name: n } && v@ == protocol_version()
                && n@ == server_name()
        } else if request.method@ == "notifications/initialized"@ {
            r is Accepted
        } else if request.method@ == "tools/list"@ {
            r matches Reply::Tools(defs) && defs@.len() == served_list(specs).len() && forall|i: int|
                0 <= i < defs@.len() ==> defines(#[trigger] defs@[i], served_list(specs)[i], seats)
        } else if request.method@ == "tools/call"@ {
            r matches Reply::Call { seat: s, tool, arguments } && s@ == seat && tool@ == request.tool@ && read_from(
                arguments,
                chosen_arguments(request),
            )
        } else {
            r matches Reply::UnknownMethod { method } && method@ == request.method@
        },
    }
}

/// Answer one request on `path`. Without a seat's capability there is no
/// seat, and nothing to learn: not the tools, not the turn a seat is in.
/// With one, the seat is the one the path names, whatever the request says.
pub fn answer(
    path: &str,
    request: &Request,
    capabilities: &StrMap<String>,
    specs: &Vec<ToolSpec>,
    seats: &Vec<String>,
) -> (r: Reply)
    requires
        capabilities.wf(),
    ensures
        answered(path@, *request, capabilities.map(), specs@, id_views(seats@), r),
{
    let seat = match seat_for(path, capabilities) {
        None => {
            return Reply::UnknownEndpoint;
        },
        Some(s) => s,
    };
    let method = request.method.as_str();
    if str_eq(method, "initialize") {
        Reply::Initialized {
            protocol_version: String::from_str("2025-11-25"),
            server_name: String::from_str("tinyhivemind-episode"),
        }
    } else if str_eq(method, "notifications/initialized") {
        Reply::Accepted
    } else if str_eq(method, "tools/list") {
        Reply::Tools(tool_definitions(specs, seats))
    } else if str_eq(method, "tools/call") {
        let raw = raw_arguments(request);
        let arguments = parse_arguments(&raw);
        proof {
            match raw.to {
                RawRecipients::Many(v) => {
                    lemma_strings_among(v@);
                },
                _ => {},
            }
        }
        Reply::Call { seat, tool: request.tool.clone(), arguments }
    } else {
        Reply::UnknownMethod { method: request.method.clone() }
    }
}

/// Whether `m` is one of the methods the server answers.
pub open spec fn known_method(m: Seq<char>) -> bool {
    m == "initialize"@ || m == "notifications/initialized"@ || m == "tools/list"@ || m == "tools/call"@
}

/// How a request is answered. A path that names no seat is answered that
/// the endpoint is unknown, and only such a path is. On a seat's path the
/// method alone decides the kind of reply: the handshake for `initialize`,
/// a bare acknowledgement for the `notifications/initialized` notification
/// and for nothing else, the tools for `tools/list`, and a call for
/// `tools/call`, made as the seat the path names and no other; any other
/// method, and only another method, is answered that it is unknown, named
/// as it was sent.
pub proof fn lemma_answer_by_method(
    path: Seq<char>,
    request: Request,
    capabilities: Map<Seq<char>, Seq<char>>,
    specs: Seq<ToolSpec>,
    seats: Seq<Seq<char>>,
    r: Reply,
)
    requires
        answered(path, request, capabilities, specs, seats, r),
    ensures
        (r is UnknownEndpoint) <==> seat_for_spec(path, capabilities) is None,
        seat_for_spec(path, capabilities) is Some ==> {
            let m = request.method@;
            &&& (r is Initialized) <==> m == "initialize"@
            &&& (r is Accepted) <==> m == "notifications/initialized"@
            &&& (r is Tools) <==> m == "tools/list"@
            &&& (r is Call) <==> m == "tools/call"@
            &&& (r is UnknownMethod) <==> !known_method(m)
        },
        r matches Reply::Call { seat, .. } ==> seat_for_spec(path, capabilities) == Some(seat@),
        r matches Reply::UnknownMethod { method } ==> method@ == request.method@,
{
    reveal_strlit("initialize");
    reveal_strlit("notifications/initialized");
    reveal_strlit("tools/list");
    reveal_strlit("tools/call");
    assert("initialize"@ != "notifications/initialized"@) by {
        assert("initialize"@.len() != "notifications/initialized"@.len());
    }
    assert("initialize"@ != "tools/list"@) by {
        assert("initialize"@[0] != "tools/list"@[0]);
    }
    assert("initialize"@ != "tools/call"@) by {
        assert("initialize"@[0] != "tools/call"@[0]);
    }
    assert("notifications/initialized"@ != "tools/list"@) by {
        assert("notifications/initialized"@.len() != "tools/list"@.len());
    }
    assert("notifications/initialized"@ != "tools/call"@) by {
        assert("notifications/initialized"@.len() != "tools/call"@.len());
    }
    assert("tools/list"@ != "tools/call"@) by {
        assert("tools/list"@[6] != "tools/call"@[6]);
    }
}

} // verus!
