//! Which properties are recursive: those whose type leads back, through the
//! declared types it names, to the type that declares the property.

use crate::leaptypes::{
    bindings, bound_to, lookup, LeapSpec, LeapType, LeapTypeView, NameView, Prop, ValueType,
    ValueTypeView,
};
use crate::seqs::views;
use crate::text::str_eq;
use vstd::prelude::*;
use vstd::string::*;

verus! {

/// The types that `v` leads to in one step: if the name at its head is
/// declared, with as many formal arguments as `v` has arguments, the types
/// of that declaration's properties with the arguments of `v` in place of
/// the formal ones; none otherwise.
pub open spec fn successors(decls: Seq<LeapTypeView>, v: ValueTypeView) -> Seq<ValueTypeView> {
    match lookup(decls, v.head_name()) {
        Some(h) => if decls[h].args().len() == v.type_args().len() {
            let bound = bound_to(decls[h].args(), v.type_args());
            Seq::new(
                decls[h].props().len(),
                |j: int| decls[h].props()[j].prop_type.substituted(bound),
            )
        } else {
            Seq::empty()
        },
        None => Seq::empty(),
    }
}

/// Whether `path` leads to the name `target`: each of its types but the
/// last leads to the next in one step, and the last has `target` at its
/// head.
pub open spec fn is_chain(decls: Seq<LeapTypeView>, target: Seq<char>, path: Seq<ValueTypeView>) -> bool {
    &&& path.len() > 0
    &&& forall|i: int|
        0 <= i < path.len() - 1 ==> successors(decls, #[trigger] path[i]).contains(path[i + 1])
    &&& path.last().head_name() == target
}

/// Whether a finite chain of steps leads from `v` to the name `target`.
pub open spec fn reaches(decls: Seq<LeapTypeView>, target: Seq<char>, v: ValueTypeView) -> bool {
    exists|path: Seq<ValueTypeView>| #[trigger] is_chain(decls, target, path) && path[0] == v
}

/// Whether one of `visited` is `k` but for aliases and spans.
pub open spec fn key_in(visited: Seq<ValueType>, k: ValueTypeView) -> bool {
    exists|i: int| 0 <= i < visited.len() && (#[trigger] visited[i])@.key() == k
}

/// `v` is done with: it does not have `target` at its head, and all it
/// leads to in one step is among `visited`.
pub open spec fn closed(
    decls: Seq<LeapTypeView>,
    target: Seq<char>,
    visited: Seq<ValueType>,
    v: ValueTypeView,
) -> bool {
    &&& v.head_name() != target
    &&& forall|j: int|
        0 <= j < successors(decls, v).len() ==> key_in(
            visited,
            (#[trigger] successors(decls, v)[j]).key(),
        )
}

/// Types that are the same but for aliases and spans have the same head
/// and, one by one, arguments that are the same but for aliases and spans.
pub(crate) proof fn lemma_key_parts(a: ValueTypeView, b: ValueTypeView)
    requires
        a.key() == b.key(),
    ensures
        a.head_name() == b.head_name(),
        a.type_args().len() == b.type_args().len(),
        forall|i: int|
            0 <= i < a.type_args().len() ==> (#[trigger] a.type_args()[i]).key() == b.type_args()[i].key(),
{
    match a {
        ValueTypeView::LeapType { name, args } => {
            let ka = a.key()->LeapType_args;
            let kb = b.key()->LeapType_args;
            assert(ka.len() == args.len());
            assert forall|i: int| 0 <= i < a.type_args().len() implies (
            #[trigger] a.type_args()[i]).key() == b.type_args()[i].key() by {
                assert(ka[i] == args[i].key());
                assert(kb[i] == b.type_args()[i].key());
            }
        },
        _ => {},
    }
}

/// Substitution keeps sameness but for aliases and spans: from maps that
/// bind the same names to types that are the same in that way come types
/// that are.
pub(crate) proof fn lemma_substituted_key(
    p: ValueTypeView,
    m1: Map<Seq<char>, ValueTypeView>,
    m2: Map<Seq<char>, ValueTypeView>,
)
    requires
        forall|k: Seq<char>| m1.contains_key(k) == m2.contains_key(k),
        forall|k: Seq<char>| m1.contains_key(k) ==> (#[trigger] m1[k]).key() == m2[k].key(),
    ensures
        p.substituted(m1).key() == p.substituted(m2).key(),
    decreases p,
{
    match p {
        ValueTypeView::Simple(_) => {},
        ValueTypeView::List(e) => {
            lemma_substituted_key(*e, m1, m2);
        },
        ValueTypeView::TypeArg(n) => {
            if m1.contains_key(n.name) {
                assert(m1[n.name].key() == m2[n.name].key());
            }
        },
        ValueTypeView::LeapType { name, args } => {
            let left = p.substituted(m1)->LeapType_args;
            let right = p.substituted(m2)->LeapType_args;
            assert forall|i: int| 0 <= i < args.len() implies left[i].key() == right[i].key() by {
                lemma_substituted_key(args[i], m1, m2);
            }
            assert(p.substituted(m1).key()->LeapType_args =~= p.substituted(m2).key()->LeapType_args);
        },
    }
}

pub(crate) proof fn lemma_bindings_key(
    formals: Seq<NameView>,
    a1: Seq<ValueTypeView>,
    a2: Seq<ValueTypeView>,
    n: int,
)
    requires
        0 <= n <= formals.len(),
        n <= a1.len(),
        a1.len() == a2.len(),
        forall|i: int| 0 <= i < a1.len() ==> (#[trigger] a1[i]).key() == a2[i].key(),
    ensures
        forall|k: Seq<char>|
            bindings(formals, a1, n).contains_key(k) == bindings(formals, a2, n).contains_key(k),
        forall|k: Seq<char>|
            bindings(formals, a1, n).contains_key(k) ==> (#[trigger] bindings(formals, a1, n)[k]).key()
                == bindings(formals, a2, n)[k].key(),
    decreases n,
{
    if n > 0 {
        lemma_bindings_key(formals, a1, a2, n - 1);
        assert(a1[n - 1].key() == a2[n - 1].key());
    }
}

/// Types that are the same but for aliases and spans lead, step by step, to
/// types that are the same in that way.
pub proof fn lemma_successors_key(decls: Seq<LeapTypeView>, a: ValueTypeView, b: ValueTypeView)
    requires
        a.key() == b.key(),
    ensures
        successors(decls, a).len() == successors(decls, b).len(),
        forall|j: int|
            0 <= j < successors(decls, a).len() ==> (#[trigger] successors(decls, a)[j]).key()
                == successors(decls, b)[j].key(),
{
    lemma_key_parts(a, b);
    match lookup(decls, a.head_name()) {
        Some(h) => {
            if decls[h].args().len() == a.type_args().len() {
                let formals = decls[h].args();
                lemma_bindings_key(formals, a.type_args(), b.type_args(), formals.len() as int);
                let m1 = bound_to(formals, a.type_args());
                let m2 = bound_to(formals, b.type_args());
                assert forall|j: int| 0 <= j < successors(decls, a).len() implies (
                #[trigger] successors(decls, a)[j]).key() == successors(decls, b)[j].key() by {
                    lemma_substituted_key(decls[h].props()[j].prop_type, m1, m2);
                }
            }
        },
        None => {},
    }
}

/// No chain leads to `target` from a type that is among types which are all
/// done with.
pub proof fn lemma_closed_unreachable(
    decls: Seq<LeapTypeView>,
    target: Seq<char>,
    visited: Seq<ValueType>,
    v: ValueTypeView,
)
    requires
        key_in(visited, v.key()),
        forall|i: int| 0 <= i < visited.len() ==> closed(decls, target, visited, (#[trigger] visited[i])@),
    ensures
        !reaches(decls, target, v),
{
    if reaches(decls, target, v) {
        let path = choose|path: Seq<ValueTypeView>| #[trigger]
            is_chain(decls, target, path) && path[0] == v;
        lemma_chain_visited(decls, target, visited, path, path.len() - 1);
        let m = choose|m: int| 0 <= m < visited.len() && (#[trigger] visited[m])@.key() == path.last().key();
        lemma_key_parts(visited[m]@, path.last());
        assert(closed(decls, target, visited, visited[m]@));
    }
}

proof fn lemma_chain_visited(
    decls: Seq<LeapTypeView>,
    target: Seq<char>,
    visited: Seq<ValueType>,
    path: Seq<ValueTypeView>,
    i: int,
)
    requires
        is_chain(decls, target, path),
        0 <= i < path.len(),
        key_in(visited, path[0].key()),
        forall|i: int| 0 <= i < visited.len() ==> closed(decls, target, visited, (#[trigger] visited[i])@),
    ensures
        key_in(visited, path[i].key()),
    decreases i,
{
    if i > 0 {
        lemma_chain_visited(decls, target, visited, path, i - 1);
        let m = choose|m: int| 0 <= m < visited.len() && (#[trigger] visited[m])@.key() == path[i - 1].key();
        let next = successors(decls, path[i - 1]);
        assert(next.contains(path[i]));
        let j = choose|j: int| 0 <= j < next.len() && #[trigger] next[j] == path[i];
        lemma_successors_key(decls, visited[m]@, path[i - 1]);
        assert(closed(decls, target, visited, visited[m]@));
        assert(key_in(visited, successors(decls, visited[m]@)[j].key()));
    }
}

/// A step in front of a chain makes a chain.
pub(crate) proof fn lemma_chain_step(
    decls: Seq<LeapTypeView>,
    target: Seq<char>,
    v: ValueTypeView,
    j: int,
)
    requires
        0 <= j < successors(decls, v).len(),
        reaches(decls, target, successors(decls, v)[j]),
    ensures
        reaches(decls, target, v),
{
    let rest = choose|path: Seq<ValueTypeView>| #[trigger]
        is_chain(decls, target, path) && path[0] == successors(decls, v)[j];
    let path = seq![v] + rest;
    assert forall|i: int| 0 <= i < path.len() - 1 implies successors(
        decls,
        #[trigger] path[i],
    ).contains(path[i + 1]) by {
        if i == 0 {
            assert(path[1] == rest[0]);
            assert(successors(decls, v)[j] == path[1]);
        } else {
            assert(path[i] == rest[i - 1]);
            assert(path[i + 1] == rest[i]);
        }
    }
    assert(path.last() == rest.last());
    assert(is_chain(decls, target, path) && path[0] == v);
}

/// A type with `target` at its head is a chain by itself.
pub(crate) proof fn lemma_chain_start(decls: Seq<LeapTypeView>, target: Seq<char>, v: ValueTypeView)
    requires
        v.head_name() == target,
    ensures
        reaches(decls, target, v),
{
    let path = seq![v];
    assert(is_chain(decls, target, path) && path[0] == v);
}

/// A simple type, a formal argument or a list leads nowhere, and so is not
/// recursive, where the name at its head is neither the name that is
/// looked for nor the name of a declared type: no type is declared under
/// the word of the simple type, the identifier of the argument, or `list`.
pub proof fn lemma_plain_types_unreachable(
    decls: Seq<LeapTypeView>,
    target: Seq<char>,
    v: ValueTypeView,
)
    requires
        v is Simple || v is TypeArg || v is List,
        v.head_name() != target,
        lookup(decls, v.head_name()) is None,
    ensures
        !reaches(decls, target, v),
{
    if reaches(decls, target, v) {
        let path = choose|path: Seq<ValueTypeView>| #[trigger]
            is_chain(decls, target, path) && path[0] == v;
        if path.len() > 1 {
            assert(successors(decls, path[0]).contains(path[1]));
        }
    }
}

/// A type that names the declaration it is a property of leads back to it
/// at once: a property whose type has the name of its declaration at its
/// head is recursive.
pub proof fn lemma_self_reference_reaches(
    decls: Seq<LeapTypeView>,
    target: Seq<char>,
    v: ValueTypeView,
)
    requires
        v.head_name() == target,
    ensures
        reaches(decls, target, v),
{
    lemma_chain_start(decls, target, v);
}

/// `closed` holds on when more is visited.
pub(crate) proof fn lemma_closed_grows(
    decls: Seq<LeapTypeView>,
    target: Seq<char>,
    before: Seq<ValueType>,
    after: Seq<ValueType>,
    v: ValueTypeView,
)
    requires
        closed(decls, target, before, v),
        before.len() <= after.len(),
        forall|i: int| 0 <= i < before.len() ==> before[i] == after[i],
    ensures
        closed(decls, target, after, v),
{
    assert forall|j: int| 0 <= j < successors(decls, v).len() implies key_in(
        after,
        (#[trigger] successors(decls, v)[j]).key(),
    ) by {
        let k = successors(decls, v)[j].key();
        assert(key_in(before, k));
        let i = choose|i: int| 0 <= i < before.len() && (#[trigger] before[i])@.key() == k;
        assert(after[i]@.key() == k);
    }
}

/// One search for the way back to a declared type: the graph, the name that
/// is looked for, and the types that the search has gone through.
pub struct PropRecursionCheck<'a> {
    spec: &'a LeapSpec,
    start_name: String,
    visited: Vec<ValueType>,
}

impl<'a> PropRecursionCheck<'a> {
    /// Whether the type of `prop` leads back to `leap_type` in `spec`: a
    /// chain of steps leads from it to a type with the name of `leap_type`
    /// at its head.
    pub fn is_recursive(spec: &'a LeapSpec, leap_type: &LeapType, prop: &Prop) -> (r: bool)
        requires
            spec.wf(),
        ensures
            r == reaches(spec@, leap_type@.name().name, prop@.prop_type),
    {
        let mut check = Self {
            spec,
            start_name: leap_type.name().get().to_owned(),
            visited: Vec::new(),
        };
        let r = check.is_recursive_check(&prop.prop_type);
        proof {
            if !r {
                lemma_closed_unreachable(
                    spec@,
                    leap_type@.name().name,
                    check.visited@,
                    prop@.prop_type,
                );
            }
        }
        r
    }

    /// Whether `next` is among the visited types, but for aliases and
    /// spans.
    fn was_visited(&self, next: &ValueType) -> (r: bool)
        ensures
            r == key_in(self.visited@, next@.key()),
    {
        let n = self.visited.len();
        let mut i: usize = 0;
        while i < n
            invariant
                i <= n,
                n == self.visited@.len(),
                forall|k: int| 0 <= k < i ==> (#[trigger] self.visited@[k])@.key() != next@.key(),
            decreases n - i,
        {
            if self.visited[i].same_as(next) {
                return true;
            }
            i = i + 1;
        }
        false
    }

    /// Whether a chain of steps leads from `next` to the name that is
    /// looked for. Where it does not, `next` and all that was visited on
    /// the way are done with.
    fn is_recursive_check(&mut self, next: &ValueType) -> (r: bool)
        requires
            old(self).spec.wf(),
        ensures
            final(self).spec == old(self).spec,
            final(self).start_name == old(self).start_name,
            old(self).visited@.len() <= final(self).visited@.len(),
            forall|i: int|
                0 <= i < old(self).visited@.len() ==> old(self).visited@[i] == final(self).visited@[i],
            r ==> reaches(old(self).spec@, old(self).start_name@, next@),
            !r ==> key_in(final(self).visited@, next@.key()),
            !r ==> forall|i: int|
                old(self).visited@.len() <= i < final(self).visited@.len() ==> closed(
                    old(self).spec@,
                    old(self).start_name@,
                    final(self).visited@,
                    (#[trigger] final(self).visited@[i])@,
                ),
        decreases usize::MAX - old(self).visited@.len(),
    {
        let ghost decls = self.spec@;
        let ghost target = self.start_name@;
        let ghost before = self.visited@;
        let name = next.name();
        if str_eq(self.start_name.as_str(), name.as_str()) {
            proof {
                lemma_chain_start(decls, target, next@);
            }
            return true;
        }
        if self.was_visited(next) {
            return false;
        }
        let copy = next.duplicate();
        self.visited.push(copy);
        let ghost first = self.visited@;
        assert(first[before.len() as int]@.key() == next@.key());
        let h = match self.spec.get_type_by_name(name.as_str()) {
            Some(h) => h,
            None => {
                assert(successors(decls, next@) =~= Seq::empty());
                return false;
            },
        };
        proof {
            crate::leaptypes::lemma_lookup(decls, name@);
        }
        let args = next.args();
        if self.spec.get_type_ref(h).args().len() != args.len() {
            assert(successors(decls, next@) =~= Seq::empty());
            return false;
        }
        let applied = self.spec.apply_args(h, args.as_slice());
        let props = match &applied {
            LeapType::Struct(s) => &s.props,
            LeapType::Enum(e) => &e.variants,
        };
        let ghost next_types = successors(decls, next@);
        proof {
            let d = decls[h.index() as int];
            assert(lookup(decls, next@.head_name()) == Some(h.index() as int));
            assert(views(args@) == next@.type_args());
            assert(d.args().len() == next@.type_args().len());
            assert(applied@ == d.applied(next@.type_args()));
            assert(views(props@) == applied@.props());
            assert(applied@.props().len() == d.props().len());
        }
        assert(next_types.len() == props@.len());
        assert forall|j: int| 0 <= j < props@.len() implies (#[trigger] props@[j])@.prop_type
            == next_types[j] by {
            assert(views(props@)[j] == props@[j]@);
        }
        let n = props.len();
        let mut j: usize = 0;
        while j < n
            invariant
                j <= n,
                n == props@.len(),
                self.spec == old(self).spec,
                self.spec.wf(),
                self.start_name == old(self).start_name,
                decls == self.spec@,
                target == self.start_name@,
                before == old(self).visited@,
                next_types == successors(decls, next@),
                next_types.len() == n,
                next@.head_name() != target,
                forall|k: int| 0 <= k < n ==> (#[trigger] props@[k])@.prop_type == next_types[k],
                before.len() < self.visited@.len(),
                forall|i: int| 0 <= i < before.len() ==> before[i] == self.visited@[i],
                self.visited@[before.len() as int]@.key() == next@.key(),
                forall|k: int| 0 <= k < j ==> key_in(self.visited@, (#[trigger] next_types[k]).key()),
                forall|i: int|
                    before.len() < i < self.visited@.len() ==> closed(
                        decls,
                        target,
                        self.visited@,
                        (#[trigger] self.visited@[i])@,
                    ),
            decreases n - j,
        {
            let ghost mid = self.visited@;
            assert(self.visited@.len() == self.visited.len());
            if self.is_recursive_check(&props[j].prop_type) {
                proof {
                    lemma_chain_step(decls, target, next@, j as int);
                }
                return true;
            }
            proof {
                let after = self.visited@;
                assert forall|k: int| 0 <= k < j + 1 implies key_in(
                    after,
                    (#[trigger] next_types[k]).key(),
                ) by {
                    if k < j {
                        let i = choose|i: int|
                            0 <= i < mid.len() && (#[trigger] mid[i])@.key() == next_types[k].key();
                        assert(after[i]@.key() == next_types[k].key());
                    }
                }
                assert forall|i: int| before.len() < i < after.len() implies closed(
                    decls,
                    target,
                    after,
                    (#[trigger] after[i])@,
                ) by {
                    if i < mid.len() {
                        assert(mid[i] == after[i]);
                        lemma_closed_grows(decls, target, mid, after, mid[i]@);
                    }
                }
            }
            j = j + 1;
        }
        proof {
            let after = self.visited@;
            let own = after[before.len() as int]@;
            lemma_key_parts(own, next@);
            lemma_successors_key(decls, own, next@);
            assert forall|k: int| 0 <= k < successors(decls, own).len() implies key_in(
                after,
                (#[trigger] successors(decls, own)[k]).key(),
            ) by {
                assert(key_in(after, next_types[k].key()));
            }
            assert(closed(decls, target, after, own));
        }
        false
    }
}

} // verus!
