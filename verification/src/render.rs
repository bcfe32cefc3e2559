//! The vocabulary's tool specs as tool definitions, and a call's arguments
//! read back.
//!
//! Everything a seat reads about a tool -- its name, what it does, what it
//! takes -- is the vocabulary's, verbatim. A definition adds exactly two
//! arguments to every tool, `chat` and `parent`, because each call is checked
//! against the turn the host registered, and the seat has to say which turn
//! it thinks it is in for that check to mean anything.

use vstd::prelude::*;

use crate::first::{first_index, lemma_first_index_unique};
use crate::routing::{copy_opt, opt_view};
use crate::text::str_eq;
use crate::types::{copy_ids, id_views};

verus! {

/// What a parameter takes.
#[derive(Clone, Copy, Debug, PartialEq, Eq, Structural)]
pub enum ParameterKind {
    /// One text.
    Text,
    /// A list of texts.
    TextList,
    /// A bounded count with a default.
    Count { default: u64, min: u64, max: u64 },
}

/// One parameter of a tool.
#[derive(Debug, PartialEq, Eq)]
pub struct ToolParameter {
    pub name: String,
    pub description: Option<String>,
    pub required: bool,
    pub kind: ParameterKind,
}

/// One tool of the vocabulary: its name, what it is for, what it takes.
#[derive(Debug, PartialEq, Eq)]
pub struct ToolSpec {
    pub name: String,
    pub description: String,
    pub parameters: Vec<ToolParameter>,
}

/// The ids of the tools the server does not serve: `post` is text with no
/// consequence, and `dm` beside `ask` is two ways to say nearly one thing.
pub open spec fn unserved(name: Seq<char>) -> bool {
    name == "dm"@ || name == "post"@
}

/// The names of a list of tools.
pub open spec fn spec_names(specs: Seq<ToolSpec>) -> Seq<Seq<char>> {
    specs.map_values(|t: ToolSpec| t.name@)
}

/// The tools served, in the vocabulary's order.
pub open spec fn served_list(specs: Seq<ToolSpec>) -> Seq<ToolSpec>
    decreases specs.len(),
{
    if specs.len() == 0 {
        seq![]
    } else {
        let r = served_list(specs.drop_last());
        if unserved(specs.last().name@) {
            r
        } else {
            r.push(specs.last())
        }
    }
}

fn is_unserved(name: &str) -> (r: bool)
    ensures
        r == unserved(name@),
{
    str_eq(name, "dm") || str_eq(name, "post")
}

/// The tools served, in the vocabulary's order.
pub fn served_specs(specs: &Vec<ToolSpec>) -> (r: Vec<&ToolSpec>)
    ensures
        r@.map_values(|t: &ToolSpec| *t) == served_list(specs@),
{
    let mut out: Vec<&ToolSpec> = Vec::new();
    let mut i: usize = 0;
    while i < specs.len()
        invariant
            i <= specs@.len(),
            out@.map_values(|t: &ToolSpec| *t) == served_list(specs@.subrange(0, i as int)),
        decreases specs@.len() - i,
    {
        assert(specs@.subrange(0, i + 1).drop_last() =~= specs@.subrange(0, i as int));
        assert(specs@.subrange(0, i + 1).last() == specs@[i as int]);
        if !is_unserved(specs[i].name.as_str()) {
            let ghost before = out@.map_values(|t: &ToolSpec| *t);
            out.push(&specs[i]);
            assert(out@.map_values(|t: &ToolSpec| *t) =~= before.push(specs@[i as int]));
        }
        i = i + 1;
    }
    assert(specs@.subrange(0, i as int) =~= specs@);
    out
}

/// Whether a tool of this name is served.
pub fn serves(specs: &Vec<ToolSpec>, name: &str) -> (r: bool)
    ensures
        r == spec_names(served_list(specs@)).contains(name@),
{
    let list = served_specs(specs);
    let ghost sv = served_list(specs@);
    let mut i: usize = 0;
    while i < list.len()
        invariant
            i <= list@.len(),
            list@.map_values(|t: &ToolSpec| *t) == sv,
            sv == served_list(specs@),
            forall|k: int| 0 <= k < i ==> (#[trigger] sv[k]).name@ != name@,
        decreases list@.len() - i,
    {
        assert(sv[i as int] == *list@[i as int]);
        if str_eq(list[i].name.as_str(), name) {
            assert(spec_names(sv)[i as int] == name@);
            return true;
        }
        i = i + 1;
    }
    proof {
        if spec_names(sv).contains(name@) {
            let k = choose|k: int| 0 <= k < spec_names(sv).len() && spec_names(sv)[k] == name@;
            assert(sv[k].name@ == name@);
        }
    }
    false
}

/// The shape a property takes.
#[derive(Clone, Copy, Debug, PartialEq, Eq, Structural)]
pub enum SchemaKind {
    /// `{"type": "string"}`.
    Text,
    /// `{"type": "array", "items": {"type": "string"}}`.
    TextList,
    /// `{"type": "integer", "minimum", "maximum", "default"}`.
    Count { default: u64, min: u64, max: u64 },
    /// `{"type": ["string", "null"]}`.
    TextOrNull,
}

/// One property of a tool's input schema.
#[derive(Debug, PartialEq, Eq)]
pub struct Property {
    pub name: String,
    pub kind: SchemaKind,
    pub description: Option<String>,
    /// The only values it accepts, when they are listed.
    pub choices: Option<Vec<String>>,
}

/// A property as values.
pub struct PropertyModel {
    pub name: Seq<char>,
    pub kind: SchemaKind,
    pub description: Option<Seq<char>>,
    pub choices: Option<Seq<Seq<char>>>,
}

impl View for Property {
    type V = PropertyModel;

    open spec fn view(&self) -> PropertyModel {
        PropertyModel {
            name: self.name@,
            kind: self.kind,
            description: opt_view(self.description),
            choices: match self.choices {
                Some(c) => Some(id_views(c@)),
                None => None,
            },
        }
    }
}

/// One tool as a definition: its name, what it is for, and its input
/// schema's properties and required names.
#[derive(Debug, PartialEq, Eq)]
pub struct ToolDefinition {
    pub name: String,
    pub description: String,
    pub properties: Vec<Property>,
    pub required: Vec<String>,
}

/// The views of a list of properties.
pub open spec fn property_views(ps: Seq<Property>) -> Seq<PropertyModel> {
    ps.map_values(|p: Property| p@)
}

/// What a property of kind `kind` is, as a schema.
pub open spec fn schema_of(kind: ParameterKind) -> SchemaKind {
    match kind {
        ParameterKind::Text => SchemaKind::Text,
        ParameterKind::TextList => SchemaKind::TextList,
        ParameterKind::Count { default, min, max } => SchemaKind::Count { default, min, max },
    }
}

/// The property one parameter of tool `tool` becomes: its schema, its
/// description, and, for `ask`'s `to`, the seats as its choices.
pub open spec fn parameter_property(tool: Seq<char>, p: ToolParameter, seats: Seq<Seq<char>>) -> PropertyModel {
    PropertyModel {
        name: p.name@,
        kind: schema_of(p.kind),
        description: opt_view(p.description),
        choices: if tool == "ask"@ && p.name@ == "to"@ {
            Some(seats)
        } else {
            None
        },
    }
}

/// Whether the `i`th property is named `name`.
pub open spec fn named(props: Seq<PropertyModel>, name: Seq<char>) -> spec_fn(int) -> bool {
    |i: int| props[i].name == name
}

/// `props` with `p` set: replacing the property of the same name where
/// there is one, appended where there is not.
pub open spec fn put_property(props: Seq<PropertyModel>, p: PropertyModel) -> Seq<PropertyModel> {
    let k = first_index(named(props, p.name), props.len() as int);
    if k < props.len() {
        props.update(k, p)
    } else {
        props.push(p)
    }
}

/// The properties of the parameters, in order.
pub open spec fn parameter_properties(tool: Seq<char>, ps: Seq<ToolParameter>, seats: Seq<Seq<char>>) -> Seq<PropertyModel>
    decreases ps.len(),
{
    if ps.len() == 0 {
        seq![]
    } else {
        put_property(parameter_properties(tool, ps.drop_last(), seats), parameter_property(tool, ps.last(), seats))
    }
}

/// The names of the required parameters, in order.
pub open spec fn required_names(ps: Seq<ToolParameter>) -> Seq<Seq<char>>
    decreases ps.len(),
{
    if ps.len() == 0 {
        seq![]
    } else if ps.last().required {
        required_names(ps.drop_last()).push(ps.last().name@)
    } else {
        required_names(ps.drop_last())
    }
}

/// The `chat` property every tool takes.
pub open spec fn chat_property() -> PropertyModel {
    PropertyModel {
        name: "chat"@,
        kind: SchemaKind::Text,
        description: Some("The chat this turn is in, exactly as you were told at the top of your turn."@),
        choices: None,
    }
}

/// The `parent` property every tool takes.
pub open spec fn parent_property() -> PropertyModel {
    PropertyModel {
        name: "parent"@,
        kind: SchemaKind::TextOrNull,
        description: Some("The thread root you were told, or null when the turn is in the chat itself."@),
        choices: None,
    }
}

fn property_for(tool: &str, p: &ToolParameter, seats: &Vec<String>) -> (r: Property)
    ensures
        r@ == parameter_property(tool@, *p, id_views(seats@)),
{
    let kind = match p.kind {
        ParameterKind::Text => SchemaKind::Text,
        ParameterKind::TextList => SchemaKind::TextList,
        ParameterKind::Count { default, min, max } => SchemaKind::Count { default, min, max },
    };
    let choices = if str_eq(tool, "ask") && str_eq(p.name.as_str(), "to") {
        Some(copy_ids(seats))
    } else {
        None
    };
    Property { name: p.name.clone(), kind, description: copy_opt(&p.description), choices }
}

/// Set `p` among `props`, replacing the property of the same name.
fn put(props: &mut Vec<Property>, p: Property)
    ensures
        property_views(final(props)@) == put_property(property_views(old(props)@), p@),
{
    let ghost v = property_views(props@);
    let mut k: usize = 0;
    while k < props.len() && !str_eq(props[k].name.as_str(), p.name.as_str())
        invariant
            k <= props@.len(),
            v == property_views(props@),
            forall|j: int| 0 <= j < k ==> !#[trigger] named(v, p@.name)(j),
        decreases props@.len() - k,
    {
        assert(v[k as int] == props@[k as int]@);
        k = k + 1;
    }
    proof {
        let pred = named(v, p@.name);
        if k < props@.len() {
            assert(v[k as int] == props@[k as int]@);
            assert(pred(k as int));
        }
        lemma_first_index_unique(pred, v.len() as int, k as int);
    }
    if k < props.len() {
        props.set(k, p);
        assert(property_views(props@) =~= v.update(k as int, props@[k as int]@));
    } else {
        props.push(p);
        assert(property_views(props@) =~= v.push(props@[k as int]@));
    }
}

/// Whether `d` is the definition of `spec`.
pub open spec fn defines(d: ToolDefinition, spec: ToolSpec, seats: Seq<Seq<char>>) -> bool {
    &&& d.name@ == spec.name@
    &&& d.description@ == spec.description@
    &&& property_views(d.properties@) == put_property(
        put_property(parameter_properties(spec.name@, spec.parameters@, seats), chat_property()),
        parent_property(),
    )
    &&& id_views(d.required@) == required_names(spec.parameters@).push("chat"@)
}

/// Whether no two properties share a name.
pub open spec fn names_unique(props: Seq<PropertyModel>) -> bool {
    forall|i: int, j: int| 0 <= i < j < props.len() ==> #[trigger] props[i].name != #[trigger] props[j].name
}

/// Setting a property keeps names unique, leaves every property of another
/// name where it was, and leaves exactly `p` under its name.
proof fn lemma_put_property(props: Seq<PropertyModel>, p: PropertyModel)
    ensures
        names_unique(props) ==> names_unique(put_property(props, p)),
        names_unique(props) ==> forall|k: int|
            0 <= k < put_property(props, p).len() && (#[trigger] put_property(props, p)[k]).name == p.name
                ==> put_property(props, p)[k] == p,
        forall|k: int|
            0 <= k < props.len() && (#[trigger] props[k]).name != p.name ==> put_property(props, p)[k] == props[k],
        put_property(props, p).contains(p),
        put_property(props, p).len() >= props.len(),
        forall|k: int| 0 <= k < props.len() ==> #[trigger] put_property(props, p)[k] == props[k] || put_property(props, p)[k] == p,
{
    let pred = named(props, p.name);
    crate::first::lemma_first_index(pred, props.len() as int);
    let f = first_index(pred, props.len() as int);
    let r = put_property(props, p);
    if f < props.len() {
        assert(r[f] == p);
        if names_unique(props) {
            assert forall|i: int, j: int| 0 <= i < j < r.len() implies #[trigger] r[i].name != #[trigger] r[j].name by {
                if i == f {
                    assert(props[f].name == p.name);
                } else if j == f {
                    assert(props[f].name == p.name);
                }
            }
            assert forall|k: int| 0 <= k < r.len() && (#[trigger] r[k]).name == p.name implies r[k] == p by {
                if k != f {
                    assert(props[f].name == p.name);
                    if k < f {
                        assert(props[k].name != props[f].name);
                    } else {
                        assert(props[f].name != props[k].name);
                    }
                }
            }
        }
    } else {
        assert(r[props.len() as int] == p);
        assert forall|k: int| 0 <= k < props.len() implies (#[trigger] props[k]).name != p.name by {
            assert(!pred(k));
        }
    }
}

/// The properties of a tool's parameters never share a name.
proof fn lemma_parameter_properties_unique(tool: Seq<char>, ps: Seq<ToolParameter>, seats: Seq<Seq<char>>)
    ensures
        names_unique(parameter_properties(tool, ps, seats)),
    decreases ps.len(),
{
    if ps.len() > 0 {
        lemma_parameter_properties_unique(tool, ps.drop_last(), seats);
        lemma_put_property(parameter_properties(tool, ps.drop_last(), seats), parameter_property(tool, ps.last(), seats));
    }
}

/// Whether definition `d` of `spec` takes `chat` as text and `parent` as
/// text or null, each once, requires `chat`, and requires `parent` only
/// where the spec itself requires a parameter of that name.
pub open spec fn takes_chat_and_parent(d: ToolDefinition, spec: ToolSpec) -> bool {
    let props = property_views(d.properties@);
    &&& props.contains(chat_property())
    &&& props.contains(parent_property())
    &&& forall|k: int| 0 <= k < props.len() && (#[trigger] props[k]).name == "chat"@ ==> props[k] == chat_property()
    &&& forall|k: int| 0 <= k < props.len() && (#[trigger] props[k]).name == "parent"@ ==> props[k] == parent_property()
    &&& id_views(d.required@).contains("chat"@)
    &&& id_views(d.required@).contains("parent"@) == required_names(spec.parameters@).contains("parent"@)
}

/// Every served tool takes `chat`, which it requires, and `parent`, which it
/// does not unless the vocabulary itself requires a parameter of that name;
/// its name and what it is for are the vocabulary's, verbatim.
pub proof fn lemma_every_tool_takes_chat(specs: Seq<ToolSpec>, seats: Seq<Seq<char>>, defs: Seq<ToolDefinition>)
    requires
        defs.len() == served_list(specs).len(),
        forall|i: int| 0 <= i < defs.len() ==> defines(#[trigger] defs[i], served_list(specs)[i], seats),
    ensures
        forall|i: int|
            0 <= i < defs.len() ==> takes_chat_and_parent(#[trigger] defs[i], served_list(specs)[i])
                && defs[i].name@ == served_list(specs)[i].name@ && defs[i].description@ == served_list(
                specs,
            )[i].description@,
{
    assert forall|i: int| 0 <= i < defs.len() implies takes_chat_and_parent(#[trigger] defs[i], served_list(specs)[i]) by {
        lemma_definition_takes_chat(defs[i], served_list(specs)[i], seats);
    }
}

/// Whether no two parameters share a name.
pub open spec fn parameter_names_distinct(ps: Seq<ToolParameter>) -> bool {
    forall|i: int, j: int| 0 <= i < j < ps.len() ==> #[trigger] ps[i].name@ != #[trigger] ps[j].name@
}

/// Parameters of distinct names become one property each, in order.
proof fn lemma_parameter_properties_each(tool: Seq<char>, ps: Seq<ToolParameter>, seats: Seq<Seq<char>>)
    requires
        parameter_names_distinct(ps),
    ensures
        parameter_properties(tool, ps, seats).len() == ps.len(),
        forall|i: int|
            0 <= i < ps.len() ==> #[trigger] parameter_properties(tool, ps, seats)[i] == parameter_property(
                tool,
                ps[i],
                seats,
            ),
    decreases ps.len(),
{
    if ps.len() > 0 {
        let rest = ps.drop_last();
        assert(parameter_names_distinct(rest)) by {
            assert forall|i: int, j: int| 0 <= i < j < rest.len() implies #[trigger] rest[i].name@
                != #[trigger] rest[j].name@ by {
                assert(ps[i].name@ != ps[j].name@);
            }
        }
        lemma_parameter_properties_each(tool, rest, seats);
        let prev = parameter_properties(tool, rest, seats);
        let p = parameter_property(tool, ps.last(), seats);
        assert forall|j: int| 0 <= j < prev.len() implies !#[trigger] named(prev, p.name)(j) by {
            assert(ps[j].name@ != ps[ps.len() - 1].name@);
        }
        lemma_first_index_unique(named(prev, p.name), prev.len() as int, prev.len() as int);
    }
}

/// Every parameter of a tool reaches its definition as it is: a property
/// of the parameter's own name whose description is the parameter's,
/// unchanged, whose schema is the parameter's shape, and which offers the
/// seats as choices only for `ask`'s `to`. A parameter is required exactly
/// when the vocabulary requires it. This holds for a vocabulary whose
/// parameters have distinct names, none of them `chat` or `parent`.
pub proof fn lemma_parameters_render_verbatim(d: ToolDefinition, spec: ToolSpec, seats: Seq<Seq<char>>)
    requires
        defines(d, spec, seats),
        parameter_names_distinct(spec.parameters@),
        forall|i: int| 0 <= i < spec.parameters@.len() ==> (#[trigger] spec.parameters@[i]).name@ != "chat"@
            && spec.parameters@[i].name@ != "parent"@,
    ensures
        d.properties@.len() == spec.parameters@.len() + 2,
        forall|i: int|
            0 <= i < spec.parameters@.len() ==> {
                let p = #[trigger] spec.parameters@[i];
                let q = d.properties@[i]@;
                &&& q.name == p.name@
                &&& q.description == opt_view(p.description)
                &&& q.kind == match p.kind {
                    ParameterKind::Text => SchemaKind::Text,
                    ParameterKind::TextList => SchemaKind::TextList,
                    ParameterKind::Count { default, min, max } => SchemaKind::Count { default, min, max },
                }
                &&& q.choices == if spec.name@ == "ask"@ && p.name@ == "to"@ {
                    Some(seats)
                } else {
                    None::<Seq<Seq<char>>>
                }
                &&& id_views(d.required@).contains(p.name@) == p.required
            },
{
    reveal_strlit("chat");
    reveal_strlit("parent");
    assert("chat"@ != "parent"@) by {
        assert("chat"@.len() != "parent"@.len());
    }
    let ps = spec.parameters@;
    lemma_parameter_properties_each(spec.name@, ps, seats);
    let pp = parameter_properties(spec.name@, ps, seats);
    assert forall|j: int| 0 <= j < pp.len() implies !#[trigger] named(pp, chat_property().name)(j) by {
        assert(pp[j].name == ps[j].name@);
    }
    lemma_first_index_unique(named(pp, chat_property().name), pp.len() as int, pp.len() as int);
    let r1 = pp.push(chat_property());
    assert(put_property(pp, chat_property()) == r1);
    assert forall|j: int| 0 <= j < r1.len() implies !#[trigger] named(r1, parent_property().name)(j) by {
        if j < pp.len() {
            assert(pp[j].name == ps[j].name@);
        }
    }
    lemma_first_index_unique(named(r1, parent_property().name), r1.len() as int, r1.len() as int);
    let r2 = r1.push(parent_property());
    assert(property_views(d.properties@) == r2);
    assert(d.properties@.len() == property_views(d.properties@).len());
    assert forall|i: int| 0 <= i < ps.len() implies id_views(d.required@).contains((#[trigger] ps[i]).name@)
        == ps[i].required by {
        lemma_required_names_has(ps, i);
        assert(id_views(d.required@) == required_names(ps).push("chat"@));
        if id_views(d.required@).contains(ps[i].name@) && !required_names(ps).contains(ps[i].name@) {
            let k = choose|k: int| 0 <= k < id_views(d.required@).len() && id_views(d.required@)[k] == ps[i].name@;
            if k < required_names(ps).len() {
                assert(required_names(ps)[k] == ps[i].name@);
            }
        }
        if required_names(ps).contains(ps[i].name@) {
            let k = choose|k: int| 0 <= k < required_names(ps).len() && required_names(ps)[k] == ps[i].name@;
            assert(id_views(d.required@)[k] == ps[i].name@);
        }
    }
    assert forall|i: int| 0 <= i < ps.len() implies d.properties@[i]@ == parameter_property(spec.name@, #[trigger] ps[i], seats) by {
        assert(property_views(d.properties@)[i] == d.properties@[i]@);
    }
}

/// A parameter of a distinctly named list is among the required names
/// exactly when it is required.
proof fn lemma_required_names_has(ps: Seq<ToolParameter>, i: int)
    requires
        parameter_names_distinct(ps),
        0 <= i < ps.len(),
    ensures
        required_names(ps).contains(ps[i].name@) == ps[i].required,
    decreases ps.len(),
{
    let rest = ps.drop_last();
    assert(parameter_names_distinct(rest)) by {
        assert forall|a: int, b: int| 0 <= a < b < rest.len() implies #[trigger] rest[a].name@ != #[trigger] rest[b].name@ by {
            assert(ps[a].name@ != ps[b].name@);
        }
    }
    let last = ps.len() - 1;
    if i < last {
        lemma_required_names_has(rest, i);
        assert(rest[i] == ps[i]);
        if ps.last().required {
            let r = required_names(rest).push(ps.last().name@);
            assert(ps[i].name@ != ps[last].name@);
            if r.contains(ps[i].name@) {
                let k = choose|k: int| 0 <= k < r.len() && r[k] == ps[i].name@;
                if k < required_names(rest).len() {
                    assert(required_names(rest)[k] == ps[i].name@);
                }
            }
            if required_names(rest).contains(ps[i].name@) {
                let k = choose|k: int| 0 <= k < required_names(rest).len() && required_names(rest)[k] == ps[i].name@;
                assert(r[k] == ps[i].name@);
            }
        }
    } else {
        lemma_required_names_subset(rest);
        if ps.last().required {
            let r = required_names(rest).push(ps.last().name@);
            assert(r[r.len() - 1] == ps[i].name@);
        } else if required_names(rest).contains(ps[i].name@) {
            let k = choose|k: int| 0 <= k < required_names(rest).len() && required_names(rest)[k] == ps[i].name@;
            let rnames = rest.map_values(|p: ToolParameter| p.name@);
            assert(rnames.contains(required_names(rest)[k]));
            let m = choose|m: int| 0 <= m < rnames.len() && rnames[m] == required_names(rest)[k];
            assert(ps[m].name@ != ps[last].name@);
        }
    }
}

/// Every required name is the name of some parameter.
proof fn lemma_required_names_subset(ps: Seq<ToolParameter>)
    ensures
        forall|k: int| 0 <= k < required_names(ps).len() ==> ps.map_values(|p: ToolParameter| p.name@).contains(
            #[trigger] required_names(ps)[k],
        ),
    decreases ps.len(),
{
    if ps.len() > 0 {
        let rest = ps.drop_last();
        lemma_required_names_subset(rest);
        let names = ps.map_values(|p: ToolParameter| p.name@);
        let rnames = rest.map_values(|p: ToolParameter| p.name@);
        assert forall|k: int| 0 <= k < required_names(ps).len() implies names.contains(#[trigger] required_names(ps)[k]) by {
            if k < required_names(rest).len() {
                assert(rnames.contains(required_names(rest)[k]));
                let m = choose|m: int| 0 <= m < rnames.len() && rnames[m] == required_names(rest)[k];
                assert(names[m] == rnames[m]);
            } else {
                assert(names[ps.len() - 1] == required_names(ps)[k]);
            }
        }
    }
}

proof fn lemma_definition_takes_chat(d: ToolDefinition, spec: ToolSpec, seats: Seq<Seq<char>>)
    requires
        defines(d, spec, seats),
    ensures
        takes_chat_and_parent(d, spec),
{
    reveal_strlit("chat");
    reveal_strlit("parent");
    assert("chat"@ != "parent"@) by {
        assert("chat"@.len() != "parent"@.len());
    }
    let pp = parameter_properties(spec.name@, spec.parameters@, seats);
    lemma_parameter_properties_unique(spec.name@, spec.parameters@, seats);
    let r1 = put_property(pp, chat_property());
    lemma_put_property(pp, chat_property());
    let r2 = put_property(r1, parent_property());
    lemma_put_property(r1, parent_property());
    let props = property_views(d.properties@);
    assert(props == r2);
    let j = choose|j: int| 0 <= j < r1.len() && r1[j] == chat_property();
    assert(r1[j].name == "chat"@);
    assert(r2[j] == r1[j]);
    assert(r2.contains(chat_property()));
    assert forall|k: int| 0 <= k < props.len() && (#[trigger] props[k]).name == "chat"@ implies props[k] == chat_property() by {
        if k < r1.len() {
            assert(r2[k] == r1[k] || r2[k] == parent_property());
        } else {
            assert(r2[k] == parent_property());
        }
    }
    let req = required_names(spec.parameters@);
    assert(id_views(d.required@) == req.push("chat"@));
    assert(id_views(d.required@)[req.len() as int] == "chat"@);
    if req.contains("parent"@) {
        let i = choose|i: int| 0 <= i < req.len() && req[i] == "parent"@;
        assert(id_views(d.required@)[i] == "parent"@);
    }
    if id_views(d.required@).contains("parent"@) {
        let i = choose|i: int| 0 <= i < id_views(d.required@).len() && id_views(d.required@)[i] == "parent"@;
        assert(i < req.len());
        assert(req[i] == "parent"@);
    }
}

/// One served tool as a definition: its parameters as properties, the
/// required ones listed, and `chat`, which every call must name, and
/// `parent`, which it may, added.
pub fn definition(spec: &ToolSpec, seats: &Vec<String>) -> (r: ToolDefinition)
    ensures
        defines(r, *spec, id_views(seats@)),
{
    let ghost ps = spec.parameters@;
    let mut properties: Vec<Property> = Vec::new();
    let mut required: Vec<String> = Vec::new();
    let mut i: usize = 0;
    assert(property_views(properties@) =~= Seq::<PropertyModel>::empty());
    assert(id_views(required@) =~= Seq::<Seq<char>>::empty());
    while i < spec.parameters.len()
        invariant
            i <= ps.len(),
            ps == spec.parameters@,
            property_views(properties@) == parameter_properties(spec.name@, ps.subrange(0, i as int), id_views(seats@)),
            id_views(required@) == required_names(ps.subrange(0, i as int)),
        decreases ps.len() - i,
    {
        assert(ps.subrange(0, i + 1).drop_last() =~= ps.subrange(0, i as int));
        assert(ps.subrange(0, i + 1).last() == ps[i as int]);
        let p = &spec.parameters[i];
        put(&mut properties, property_for(spec.name.as_str(), p, seats));
        if p.required {
            let ghost before = id_views(required@);
            required.push(p.name.clone());
            assert(id_views(required@) =~= before.push(p.name@));
        }
        i = i + 1;
    }
    assert(ps.subrange(0, i as int) =~= ps);
    let chat = Property {
        name: String::from_str("chat"),
        kind: SchemaKind::Text,
        description: Some(String::from_str("The chat this turn is in, exactly as you were told at the top of your turn.")),
        choices: None,
    };
    put(&mut properties, chat);
    let parent = Property {
        name: String::from_str("parent"),
        kind: SchemaKind::TextOrNull,
        description: Some(String::from_str("The thread root you were told, or null when the turn is in the chat itself.")),
        choices: None,
    };
    put(&mut properties, parent);
    let ghost before = id_views(required@);
    required.push(String::from_str("chat"));
    assert(id_views(required@) =~= before.push("chat"@));
    ToolDefinition { name: spec.name.clone(), description: spec.description.clone(), properties, required }
}

/// Every served tool as a definition, in the vocabulary's order. `seats`
/// are the choices `ask`'s `to` offers.
pub fn tool_definitions(specs: &Vec<ToolSpec>, seats: &Vec<String>) -> (r: Vec<ToolDefinition>)
    ensures
        r@.len() == served_list(specs@).len(),
        forall|i: int| 0 <= i < r@.len() ==> defines(#[trigger] r@[i], served_list(specs@)[i], id_views(seats@)),
{
    let list = served_specs(specs);
    let ghost sv = served_list(specs@);
    let mut out: Vec<ToolDefinition> = Vec::new();
    let mut i: usize = 0;
    while i < list.len()
        invariant
            i <= list@.len(),
            list@.map_values(|t: &ToolSpec| *t) == sv,
            out@.len() == i,
            forall|k: int| 0 <= k < i ==> defines(#[trigger] out@[k], sv[k], id_views(seats@)),
        decreases list@.len() - i,
    {
        assert(sv[i as int] == *list@[i as int]);
        out.push(definition(list[i], seats));
        i = i + 1;
    }
    out
}

/// A call's `to`, as the dispatcher sent it.
#[derive(Debug, PartialEq, Eq)]
pub enum RawRecipients {
    /// One seat, as a string.
    One(String),
    /// A list, each entry a string or not.
    Many(Vec<Option<String>>),
    /// Anything else, or nothing.
    Absent,
}

/// A call's arguments as the dispatcher sent them, each read only when it
/// has the shape the vocabulary declares.
#[derive(Debug, PartialEq, Eq)]
pub struct RawArguments {
    pub message: Option<String>,
    pub to: RawRecipients,
    pub limit: Option<u64>,
    pub chat: Option<String>,
    pub parent: Option<String>,
}

/// The arguments of one call, owned, in the shapes the specs declare.
#[derive(Debug, PartialEq, Eq)]
pub struct Arguments {
    pub message: Option<String>,
    pub to: Vec<String>,
    pub limit: Option<u64>,
    pub chat: Option<String>,
    pub parent: Option<String>,
}

/// The strings of a list whose entries may not be strings, in order.
pub open spec fn strings_of(v: Seq<Option<String>>) -> Seq<Seq<char>>
    decreases v.len(),
{
    if v.len() == 0 {
        seq![]
    } else {
        match v.last() {
            Some(s) => strings_of(v.drop_last()).push(s@),
            None => strings_of(v.drop_last()),
        }
    }
}

/// One call's arguments: `to` is one seat or the strings of a list, and a
/// non-string entry is dropped, not refused.
pub fn parse_arguments(raw: &RawArguments) -> (r: Arguments)
    ensures
        opt_view(r.message) == opt_view(raw.message),
        id_views(r.to@) == match raw.to {
            RawRecipients::One(s) => seq![s@],
            RawRecipients::Many(v) => strings_of(v@),
            RawRecipients::Absent => Seq::<Seq<char>>::empty(),
        },
        r.limit == raw.limit,
        opt_view(r.chat) == opt_view(raw.chat),
        opt_view(r.parent) == opt_view(raw.parent),
{
    let to = match &raw.to {
        RawRecipients::One(s) => {
            let mut v: Vec<String> = Vec::new();
            v.push(s.clone());
            assert(id_views(v@) =~= seq![s@]);
            v
        },
        RawRecipients::Many(many) => {
            let mut v: Vec<String> = Vec::new();
            let mut i: usize = 0;
            while i < many.len()
                invariant
                    i <= many@.len(),
                    id_views(v@) == strings_of(many@.subrange(0, i as int)),
                decreases many@.len() - i,
            {
                assert(many@.subrange(0, i + 1).drop_last() =~= many@.subrange(0, i as int));
                assert(many@.subrange(0, i + 1).last() == many@[i as int]);
                match &many[i] {
                    Some(s) => {
                        let ghost before = id_views(v@);
                        v.push(s.clone());
                        assert(id_views(v@) =~= before.push(s@));
                    },
                    None => {},
                }
                i = i + 1;
            }
            assert(many@.subrange(0, i as int) =~= many@);
            v
        },
        RawRecipients::Absent => {
            let v: Vec<String> = Vec::new();
            assert(id_views(v@) =~= Seq::<Seq<char>>::empty());
            v
        },
    };
    Arguments {
        message: copy_opt(&raw.message),
        to,
        limit: raw.limit,
        chat: copy_opt(&raw.chat),
        parent: copy_opt(&raw.parent),
    }
}

} // verus!
