//! The declarations as text for messages: one line for a value, however
//! large. The formatter writes the source form; this is the form for
//! diagnostics, in which a formal argument is marked with `?`.

use crate::leaptypes::{
    LeapEnum, LeapEnumView, LeapSpec, LeapStruct, LeapStructView, LeapType, LeapTypeView, Name,
    NameView, Prop, PropView, ValueType, ValueTypeView,
};
use crate::seqs::{lemma_views_push, views};
use crate::text::{join, joined};
use vstd::prelude::*;
use vstd::string::*;

verus! {

/// A type for a message: as it is written in the source, but a formal
/// argument with `?` behind it.
pub open spec fn described_type(v: ValueTypeView) -> Seq<char>
    decreases v, 0int,
{
    match v {
        ValueTypeView::Simple(t) => t.spec_name(),
        ValueTypeView::List(t) => "list["@ + described_type(*t) + "]"@,
        ValueTypeView::TypeArg(n) => n.name + "?"@,
        ValueTypeView::LeapType { name, args } => if args.len() == 0 {
            name.name
        } else {
            name.name + "["@ + joined(described_types(args), " "@) + "]"@
        },
    }
}

/// The types for a message, in order.
pub open spec fn described_types(args: Seq<ValueTypeView>) -> Seq<Seq<char>>
    decreases args, 1int,
{
    Seq::new(
        args.len(),
        |i: int|
            if 0 <= i < args.len() {
                described_type(args[i])
            } else {
                arbitrary()
            },
    )
}

/// A property for a message: its name, a colon, its type.
pub open spec fn described_prop(p: PropView) -> Seq<char> {
    p.name.name + ": "@ + described_type(p.prop_type)
}

/// The identifiers of the names, in order.
pub open spec fn identifiers(names: Seq<NameView>) -> Seq<Seq<char>> {
    Seq::new(names.len(), |i: int| names[i].name)
}

/// The properties for a message, in order.
pub open spec fn described_props(props: Seq<PropView>) -> Seq<Seq<char>> {
    Seq::new(props.len(), |i: int| described_prop(props[i]))
}

/// A struct for a message.
pub open spec fn described_struct(s: LeapStructView) -> Seq<char> {
    "Struct("@ + s.name.name + " args: ["@ + joined(identifiers(s.args), " "@) + "], props: ["@
        + joined(described_props(s.props), ", "@) + "])"@
}

/// An enum for a message.
pub open spec fn described_enum(e: LeapEnumView) -> Seq<char> {
    "Enum("@ + e.name.name + " args: ["@ + joined(identifiers(e.args), " "@) + "], variants: ["@
        + joined(described_props(e.variants), ", "@) + "])"@
}

/// A declaration for a message.
pub open spec fn described(t: LeapTypeView) -> Seq<char> {
    match t {
        LeapTypeView::Struct(s) => "Type("@ + described_struct(s) + ")"@,
        LeapTypeView::Enum(e) => "Type("@ + described_enum(e) + ")"@,
    }
}

/// A graph of declarations for a message.
pub open spec fn described_spec(decls: Seq<LeapTypeView>) -> Seq<char> {
    "Spec("@ + joined(Seq::new(decls.len(), |i: int| described(decls[i])), ", "@) + ")"@
}

/// The identifiers of the names joined by one space.
fn names_line(names: &Vec<Name>) -> (r: String)
    ensures
        r@ == joined(identifiers(views(names@)), " "@),
{
    let n = names.len();
    let ghost want = identifiers(views(names@));
    let mut parts: Vec<String> = Vec::new();
    let mut i: usize = 0;
    proof {
        assert(views(parts@) =~= want.take(0));
    }
    while i < n
        invariant
            i <= n,
            n == names@.len(),
            want == identifiers(views(names@)),
            views(parts@) == want.take(i as int),
        decreases n - i,
    {
        let part = names[i].get().to_owned();
        proof {
            lemma_views_push(parts@, part);
            assert(want.take(i + 1) =~= want.take(i as int).push(part@));
        }
        parts.push(part);
        i = i + 1;
    }
    proof {
        assert(want.take(n as int) =~= want);
    }
    join(&parts, " ")
}

/// The properties for a message, joined by a comma and a space.
fn props_line(props: &Vec<Prop>) -> (r: String)
    ensures
        r@ == joined(described_props(views(props@)), ", "@),
{
    let n = props.len();
    let ghost want = described_props(views(props@));
    let mut parts: Vec<String> = Vec::new();
    let mut i: usize = 0;
    proof {
        assert(views(parts@) =~= want.take(0));
    }
    while i < n
        invariant
            i <= n,
            n == props@.len(),
            want == described_props(views(props@)),
            views(parts@) == want.take(i as int),
        decreases n - i,
    {
        let part = props[i].to_string();
        proof {
            lemma_views_push(parts@, part);
            assert(want.take(i + 1) =~= want.take(i as int).push(part@));
        }
        parts.push(part);
        i = i + 1;
    }
    proof {
        assert(want.take(n as int) =~= want);
    }
    join(&parts, ", ")
}

impl Name {
    /// The identifier.
    pub fn to_string(&self) -> (r: String)
        ensures
            r@ == self@.name,
    {
        self.get().to_owned()
    }
}

impl ValueType {
    /// The type for a message: as it is written in the source, but a
    /// formal argument with `?` behind it.
    pub fn to_string(&self) -> (r: String)
        ensures
            r@ == described_type(self@),
        decreases self,
    {
        proof {
            self.lemma_view();
        }
        match self {
            ValueType::Simple(t) => t.name(),
            ValueType::List(t) => {
                let mut text = "list[".to_owned();
                text.append(t.to_string().as_str());
                text.append("]");
                text
            },
            ValueType::TypeArg(n) => {
                let mut text = n.get().to_owned();
                text.append("?");
                text
            },
            ValueType::LeapType { name, args } => {
                let n = args.len();
                if n == 0 {
                    name.get().to_owned()
                } else {
                    let ghost want = described_types(views(args@));
                    let mut parts: Vec<String> = Vec::new();
                    let mut i: usize = 0;
                    proof {
                        assert(views(parts@) =~= want.take(0));
                    }
                    while i < n
                        invariant
                            i <= n,
                            n == args@.len(),
                            self is LeapType,
                            self->LeapType_args == *args,
                            want == described_types(views(args@)),
                            views(parts@) == want.take(i as int),
                        decreases n - i,
                    {
                        let part = args[i].to_string();
                        proof {
                            lemma_views_push(parts@, part);
                            assert(want.take(i + 1) =~= want.take(i as int).push(part@));
                        }
                        parts.push(part);
                        i = i + 1;
                    }
                    proof {
                        assert(want.take(n as int) =~= want);
                    }
                    let mut text = name.get().to_owned();
                    text.append("[");
                    text.append(join(&parts, " ").as_str());
                    text.append("]");
                    text
                }
            },
        }
    }
}

impl Prop {
    /// The property for a message: its name, a colon, its type.
    pub fn to_string(&self) -> (r: String)
        ensures
            r@ == described_prop(self@),
    {
        let mut text = self.name.get().to_owned();
        text.append(": ");
        text.append(self.prop_type.to_string().as_str());
        text
    }
}

impl LeapStruct {
    /// The struct for a message.
    pub fn to_string(&self) -> (r: String)
        ensures
            r@ == described_struct(self@),
    {
        let mut text = "Struct(".to_owned();
        text.append(self.name.get());
        text.append(" args: [");
        text.append(names_line(&self.args).as_str());
        text.append("], props: [");
        text.append(props_line(&self.props).as_str());
        text.append("])");
        text
    }
}

impl LeapEnum {
    /// The enum for a message.
    pub fn to_string(&self) -> (r: String)
        ensures
            r@ == described_enum(self@),
    {
        let mut text = "Enum(".to_owned();
        text.append(self.name.get());
        text.append(" args: [");
        text.append(names_line(&self.args).as_str());
        text.append("], variants: [");
        text.append(props_line(&self.variants).as_str());
        text.append("])");
        text
    }
}

impl LeapType {
    /// The declaration for a message.
    pub fn to_string(&self) -> (r: String)
        ensures
            r@ == described(self@),
    {
        let mut text = "Type(".to_owned();
        match self {
            LeapType::Struct(s) => {
                text.append(s.to_string().as_str());
            },
            LeapType::Enum(e) => {
                text.append(e.to_string().as_str());
            },
        }
        text.append(")");
        text
    }
}

impl LeapSpec {
    /// The graph for a message: its declarations in the order of the
    /// arena.
    pub fn to_string(&self) -> (r: String)
        ensures
            r@ == described_spec(self@),
    {
        let types = self.iter_type_refs();
        let n = types.len();
        let ghost want = Seq::new(self@.len(), |i: int| described(self@[i]));
        let mut parts: Vec<String> = Vec::new();
        let mut i: usize = 0;
        proof {
            assert(views(parts@) =~= want.take(0));
        }
        while i < n
            invariant
                i <= n,
                n == types@.len(),
                views(types@) == self@,
                want == Seq::new(self@.len(), |i: int| described(self@[i])),
                views(parts@) == want.take(i as int),
            decreases n - i,
        {
            let part = types[i].to_string();
            proof {
                assert(views(types@)[i as int] == types@[i as int]@);
                lemma_views_push(parts@, part);
                assert(want.take(i + 1) =~= want.take(i as int).push(part@));
            }
            parts.push(part);
            i = i + 1;
        }
        proof {
            assert(want.take(n as int) =~= want);
        }
        let mut text = "Spec(".to_owned();
        text.append(join(&parts, ", ").as_str());
        text.append(")");
        text
    }
}

} // verus!
