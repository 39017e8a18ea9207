//! The traversal that registration runs over a live instance: every leaf
//! and every branch reachable from a field, with its path name.

use vstd::prelude::*;
use crate::naming::{
    child_path, decimal, dot_free, index_name, join, lemma_decimal_dot_free, lemma_decimal_injective,
    lemma_paths_differ, lemma_under_child, under,
};
use crate::parameter::Parameter;
use crate::shape::{
    classify, contributes, parse_field, subtype_of, DeriveError, FieldAttr, FieldType, GenericArg, TypeExpr,
};

verus! {

/// The live value of a field.
pub enum Value {
    /// A trainable parameter.
    Parameter(Parameter),
    /// A nested structure, by its position among the host's structures.
    Structure(usize),
    /// The elements of an array or a list, in index order.
    Items(Vec<Value>),
    /// The components of a tuple, in position order.
    Tuple(Vec<Value>),
    /// An optional that holds a value.
    Present(Box<Value>),
    /// An optional that holds nothing.
    Absent,
    /// Anything registration does not look into.
    Scalar,
}

/// What a path name is bound to.
#[derive(Debug, Clone, Copy, PartialEq, Eq, Structural)]
pub enum Target {
    /// A parameter, by handle.
    Leaf(u64),
    /// A nested structure, by position.
    Branch(usize),
}

/// One path name found by the traversal, with what it denotes.
pub struct Registration {
    pub name: String,
    pub target: Target,
}

impl Registration {
    pub open spec fn view(&self) -> (Seq<char>, Target) {
        (self.name@, self.target)
    }
}

pub open spec fn regs_view(v: Seq<Registration>) -> Seq<(Seq<char>, Target)> {
    v.map_values(|r: Registration| r@)
}

/// The element type of an array, list or optional.
pub open spec fn element_of(ty: TypeExpr) -> TypeExpr {
    match ty {
        TypeExpr::Array(e) => *e,
        _ => match subtype_of(ty) {
            Some(t) => t,
            None => ty,
        },
    }
}

/// The registrations a field of type `ty` holding `v` gives under `name`,
/// in traversal order; `None` when the value does not have the declared
/// shape. A field that does not contribute gives nothing, whatever it holds.
pub open spec fn regs(ty: TypeExpr, attrs: Seq<FieldAttr>, v: Value, name: Seq<char>) -> Option<Seq<(Seq<char>, Target)>>
    decreases v, 0nat,
{
    if contributes(ty, attrs) != Ok::<bool, DeriveError>(true) {
        Some(seq![])
    } else {
        match classify(ty, attrs) {
            Ok(FieldType::Parameter) => match v {
                Value::Parameter(p) => Some(seq![(name, Target::Leaf(p@))]),
                _ => None,
            },
            Ok(FieldType::Model) => match v {
                Value::Structure(j) => Some(seq![(name, Target::Branch(j))]),
                _ => None,
            },
            Ok(FieldType::Array) | Ok(FieldType::Vec) => match v {
                Value::Items(vs) => items_regs(element_of(ty), attrs, vs@, name, vs@.len()),
                _ => None,
            },
            Ok(FieldType::Option) => match v {
                Value::Present(b) => regs(element_of(ty), attrs, *b, name),
                Value::Absent => Some(seq![]),
                _ => None,
            },
            Ok(FieldType::Tuple) => match ty {
                TypeExpr::Tuple(tys) => match v {
                    Value::Tuple(vs) => if vs@.len() == tys@.len() {
                        tuple_regs(tys@, attrs, vs@, name, vs@.len())
                    } else {
                        None
                    },
                    _ => None,
                },
                _ => None,
            },
            _ => Some(seq![]),
        }
    }
}

/// The registrations of the first `n` elements of an array or list; element
/// `i` is named `name.i`.
pub open spec fn items_regs(elem: TypeExpr, attrs: Seq<FieldAttr>, vs: Seq<Value>, name: Seq<char>, n: nat) -> Option<Seq<(Seq<char>, Target)>>
    decreases vs, n,
{
    if n == 0 || n > vs.len() {
        Some(seq![])
    } else {
        match items_regs(elem, attrs, vs, name, (n - 1) as nat) {
            None => None,
            Some(before) => match regs(elem, attrs, vs[n - 1], child_path(name, decimal((n - 1) as nat))) {
                None => None,
                Some(here) => Some(before + here),
            },
        }
    }
}

/// The registrations of the first `n` components of a tuple; component `i`
/// is named `name.i`.
pub open spec fn tuple_regs(tys: Seq<TypeExpr>, attrs: Seq<FieldAttr>, vs: Seq<Value>, name: Seq<char>, n: nat) -> Option<Seq<(Seq<char>, Target)>>
    decreases vs, n,
{
    if n == 0 || n > vs.len() || n > tys.len() {
        Some(seq![])
    } else {
        match tuple_regs(tys, attrs, vs, name, (n - 1) as nat) {
            None => None,
            Some(before) => match regs(tys[n - 1], attrs, vs[n - 1], child_path(name, decimal((n - 1) as nat))) {
                None => None,
                Some(here) => Some(before + here),
            },
        }
    }
}

proof fn lemma_items_none(elem: TypeExpr, attrs: Seq<FieldAttr>, vs: Seq<Value>, name: Seq<char>, n: nat, m: nat)
    requires
        0 < n <= m <= vs.len(),
        items_regs(elem, attrs, vs, name, n) is None,
    ensures
        items_regs(elem, attrs, vs, name, m) is None,
    decreases m,
{
    if m > n {
        lemma_items_none(elem, attrs, vs, name, n, (m - 1) as nat);
    }
}

proof fn lemma_tuple_none(tys: Seq<TypeExpr>, attrs: Seq<FieldAttr>, vs: Seq<Value>, name: Seq<char>, n: nat, m: nat)
    requires
        0 < n <= m <= vs.len(),
        m <= tys.len(),
        tuple_regs(tys, attrs, vs, name, n) is None,
    ensures
        tuple_regs(tys, attrs, vs, name, m) is None,
    decreases m,
{
    if m > n {
        lemma_tuple_none(tys, attrs, vs, name, n, (m - 1) as nat);
    }
}

fn element(ty: &TypeExpr) -> (r: &TypeExpr)
    requires
        ty is Array || subtype_of(*ty) is Some,
    ensures
        *r == element_of(*ty),
{
    match ty {
        TypeExpr::Array(e) => e,
        TypeExpr::Path(_, args) => match &args[0] {
            GenericArg::Type(t) => t,
            GenericArg::Other => ty,
        },
        _ => ty,
    }
}

/// Appends to `out` the registrations that a field of type `ty` holding `v`
/// gives under `name`, in traversal order. Returns `false`, with `out` in no
/// particular state, when the value does not have the declared shape.
pub fn walk(ty: &TypeExpr, attrs: &Vec<FieldAttr>, v: &Value, name: &str, out: &mut Vec<Registration>) -> (ok: bool)
    ensures
        match regs(*ty, attrs@, *v, name@) {
            Some(s) => ok && regs_view(final(out)@) == regs_view(old(out)@) + s,
            None => !ok,
        },
    decreases v,
{
    let ghost start = regs_view(out@);
    match parse_field(ty, attrs) {
        Ok(true) => {},
        _ => {
            assert(regs_view(out@) =~= start + seq![]);
            return true;
        },
    }
    match FieldType::from_ty(ty, attrs) {
        Ok(FieldType::Parameter) => match v {
            Value::Parameter(p) => {
                out.push(Registration { name: name.to_owned(), target: Target::Leaf(p.handle()) });
                assert(regs_view(out@) =~= start + seq![(name@, Target::Leaf(p@))]);
                true
            },
            _ => false,
        },
        Ok(FieldType::Model) => match v {
            Value::Structure(j) => {
                out.push(Registration { name: name.to_owned(), target: Target::Branch(*j) });
                assert(regs_view(out@) =~= start + seq![(name@, Target::Branch(*j))]);
                true
            },
            _ => false,
        },
        Ok(FieldType::Option) => match v {
            Value::Present(b) => walk(element(ty), attrs, b, name, out),
            Value::Absent => {
                assert(regs_view(out@) =~= start + seq![]);
                true
            },
            _ => false,
        },
        Ok(FieldType::Array) | Ok(FieldType::Vec) => match v {
            Value::Items(vs) => {
                let elem = element(ty);
                let mut i: usize = 0;
                assert(regs_view(out@) =~= start + seq![]);
                while i < vs.len()
                    invariant
                        0 <= i <= vs@.len(),
                        *elem == element_of(*ty),
                        *v == Value::Items(*vs),
                        contributes(*ty, attrs@) == Ok::<bool, DeriveError>(true),
                        classify(*ty, attrs@) == Ok::<FieldType, DeriveError>(FieldType::Array)
                            || classify(*ty, attrs@) == Ok::<FieldType, DeriveError>(FieldType::Vec),
                        items_regs(*elem, attrs@, vs@, name@, i as nat) matches Some(s) && regs_view(out@) == start + s,
                    decreases vs@.len() - i,
                {
                    let ghost before = regs_view(out@);
                    let ghost s_i = items_regs(*elem, attrs@, vs@, name@, i as nat)->Some_0;
                    let seg = index_name(i);
                    let nm = join(name, seg.as_str());
                    if !walk(elem, attrs, &vs[i], nm.as_str(), out) {
                        proof { lemma_items_none(*elem, attrs@, vs@, name@, (i + 1) as nat, vs@.len()); }
                        assert(regs(*ty, attrs@, *v, name@) == items_regs(*elem, attrs@, vs@, name@, vs@.len()));
                        return false;
                    }
                    assert(regs_view(out@) =~= start + (s_i + regs(*elem, attrs@, vs@[i as int], nm@)->Some_0));
                    i = i + 1;
                }
                true
            },
            _ => false,
        },
        Ok(FieldType::Tuple) => match ty {
            TypeExpr::Tuple(tys) => match v {
                Value::Tuple(vs) => {
                    if vs.len() != tys.len() {
                        return false;
                    }
                    let mut i: usize = 0;
                    assert(regs_view(out@) =~= start + seq![]);
                    while i < vs.len()
                        invariant
                            0 <= i <= vs@.len(),
                            vs@.len() == tys@.len(),
                            *ty == TypeExpr::Tuple(*tys),
                            *v == Value::Tuple(*vs),
                            contributes(*ty, attrs@) == Ok::<bool, DeriveError>(true),
                            classify(*ty, attrs@) == Ok::<FieldType, DeriveError>(FieldType::Tuple),
                            tuple_regs(tys@, attrs@, vs@, name@, i as nat) matches Some(s) && regs_view(out@) == start + s,
                        decreases vs@.len() - i,
                    {
                        let ghost s_i = tuple_regs(tys@, attrs@, vs@, name@, i as nat)->Some_0;
                        let seg = index_name(i);
                        let nm = join(name, seg.as_str());
                        if !walk(&tys[i], attrs, &vs[i], nm.as_str(), out) {
                            proof { lemma_tuple_none(tys@, attrs@, vs@, name@, (i + 1) as nat, vs@.len()); }
                            assert(regs(*ty, attrs@, *v, name@) == tuple_regs(tys@, attrs@, vs@, name@, vs@.len()));
                            return false;
                        }
                        assert(regs_view(out@) =~= start + (s_i + regs(tys@[i as int], attrs@, vs@[i as int], nm@)->Some_0));
                        i = i + 1;
                    }
                    true
                },
                _ => false,
            },
            _ => false,
        },
        _ => {
            assert(regs_view(out@) =~= start + seq![]);
            true
        },
    }
}

/// An optional is transparent: a present value registers exactly as the
/// wrapped type would at the same path name, and an absent one registers
/// nothing, without error.
pub proof fn law_optional_transparent(opt: TypeExpr, t: TypeExpr, attrs: Seq<FieldAttr>, v: Value, name: Seq<char>)
    requires
        opt matches TypeExpr::Path(id, args) && id@ == "Option"@ && args@ == seq![GenericArg::Type(t)],
    ensures
        regs(opt, attrs, Value::Present(Box::new(v)), name) == regs(t, attrs, v, name),
        regs(opt, attrs, Value::Absent, name) == Some(Seq::<(Seq<char>, Target)>::empty()),
{
    assert(subtype_of(opt) == Some(t));
    reveal_strlit("Option");
    reveal_strlit("Vec");
    assert("Option"@ != "Vec"@) by {
        assert("Option"@.len() != "Vec"@.len());
    }
    assert(classify(opt, attrs) == Ok::<FieldType, DeriveError>(FieldType::Option));
    assert(contributes(opt, attrs) == contributes(t, attrs));
    if contributes(t, attrs) != Ok::<bool, DeriveError>(true) {
        lemma_silent(t, attrs, v, name);
    }
}

/// A type that does not contribute registers nothing, whatever the value.
pub proof fn lemma_silent(t: TypeExpr, attrs: Seq<FieldAttr>, v: Value, name: Seq<char>)
    requires
        contributes(t, attrs) != Ok::<bool, DeriveError>(true),
    ensures
        regs(t, attrs, v, name) == Some(Seq::<(Seq<char>, Target)>::empty()),
{
}

/// The path name of element `i` of a container registered under `name`.
pub open spec fn element_name(name: Seq<char>, i: nat) -> Seq<char> {
    child_path(name, decimal(i))
}

/// An array or list of parameters registers exactly one leaf per element,
/// in index order, element `i` under `name.i`.
pub proof fn law_indexed_leaves(elem: TypeExpr, attrs: Seq<FieldAttr>, vs: Seq<Value>, name: Seq<char>, n: nat)
    requires
        classify(elem, attrs) == Ok::<FieldType, DeriveError>(FieldType::Parameter),
        n <= vs.len(),
        forall|i: int| 0 <= i < vs.len() ==> #[trigger] vs[i] is Parameter,
    ensures
        items_regs(elem, attrs, vs, name, n) == Some(
            Seq::new(n, |i: int| (element_name(name, i as nat), Target::Leaf(vs[i]->Parameter_0@))),
        ),
    decreases n,
{
    if n > 0 {
        law_indexed_leaves(elem, attrs, vs, name, (n - 1) as nat);
        assert(contributes(elem, attrs) == Ok::<bool, DeriveError>(true));
        assert(vs[n - 1] is Parameter);
        assert(regs(elem, attrs, vs[n - 1], element_name(name, (n - 1) as nat)) == Some(
            seq![(element_name(name, (n - 1) as nat), Target::Leaf(vs[n - 1]->Parameter_0@))],
        ));
        assert(Seq::new((n - 1) as nat, |i: int| (element_name(name, i as nat), Target::Leaf(vs[i]->Parameter_0@)))
            + seq![(element_name(name, (n - 1) as nat), Target::Leaf(vs[n - 1]->Parameter_0@))]
            =~= Seq::new(n, |i: int| (element_name(name, i as nat), Target::Leaf(vs[i]->Parameter_0@))));
    } else {
        assert(Seq::new(0, |i: int| (element_name(name, i as nat), Target::Leaf(vs[i]->Parameter_0@))) =~= Seq::<(Seq<char>, Target)>::empty());
    }
}

/// Every path name a field registers is its own name or lies below it.
pub proof fn lemma_regs_under(ty: TypeExpr, attrs: Seq<FieldAttr>, v: Value, name: Seq<char>)
    ensures
        regs(ty, attrs, v, name) matches Some(s) ==> forall|k: int| 0 <= k < s.len() ==> under(#[trigger] s[k].0, name),
    decreases v, 0nat,
{
    if contributes(ty, attrs) == Ok::<bool, DeriveError>(true) {
        match classify(ty, attrs) {
            Ok(FieldType::Array) | Ok(FieldType::Vec) => match v {
                Value::Items(vs) => {
                    lemma_items_under(element_of(ty), attrs, vs@, name, vs@.len());
                },
                _ => {},
            },
            Ok(FieldType::Option) => match v {
                Value::Present(b) => {
                    lemma_regs_under(element_of(ty), attrs, *b, name);
                },
                _ => {},
            },
            Ok(FieldType::Tuple) => match ty {
                TypeExpr::Tuple(tys) => match v {
                    Value::Tuple(vs) => {
                        lemma_tuple_under(tys@, attrs, vs@, name, vs@.len());
                    },
                    _ => {},
                },
                _ => {},
            },
            _ => {},
        }
    }
}

/// Every path name the first `n` elements register lies below `name`.
pub proof fn lemma_items_under(elem: TypeExpr, attrs: Seq<FieldAttr>, vs: Seq<Value>, name: Seq<char>, n: nat)
    ensures
        items_regs(elem, attrs, vs, name, n) matches Some(s) ==> forall|k: int| 0 <= k < s.len() ==> under(#[trigger] s[k].0, name),
    decreases vs, n,
{
    if n > 0 && n <= vs.len() {
        let nm = element_name(name, (n - 1) as nat);
        lemma_items_under(elem, attrs, vs, name, (n - 1) as nat);
        lemma_regs_under(elem, attrs, vs[n - 1], nm);
        if items_regs(elem, attrs, vs, name, n) is Some {
            let s = items_regs(elem, attrs, vs, name, n)->Some_0;
            let before = items_regs(elem, attrs, vs, name, (n - 1) as nat)->Some_0;
            let here = regs(elem, attrs, vs[n - 1], nm)->Some_0;
            assert(s == before + here);
            assert forall|k: int| 0 <= k < s.len() implies under(#[trigger] s[k].0, name) by {
                if k >= before.len() {
                    assert(s[k] == here[k - before.len()]);
                    lemma_under_child(s[k].0, name, decimal((n - 1) as nat));
                } else {
                    assert(s[k] == before[k]);
                }
            }
        }
    }
}

/// Every path name the first `n` components register lies below `name`.
pub proof fn lemma_tuple_under(tys: Seq<TypeExpr>, attrs: Seq<FieldAttr>, vs: Seq<Value>, name: Seq<char>, n: nat)
    ensures
        tuple_regs(tys, attrs, vs, name, n) matches Some(s) ==> forall|k: int| 0 <= k < s.len() ==> under(#[trigger] s[k].0, name),
    decreases vs, n,
{
    if n > 0 && n <= vs.len() && n <= tys.len() {
        let nm = element_name(name, (n - 1) as nat);
        lemma_tuple_under(tys, attrs, vs, name, (n - 1) as nat);
        lemma_regs_under(tys[n - 1], attrs, vs[n - 1], nm);
        if tuple_regs(tys, attrs, vs, name, n) is Some {
            let s = tuple_regs(tys, attrs, vs, name, n)->Some_0;
            let before = tuple_regs(tys, attrs, vs, name, (n - 1) as nat)->Some_0;
            let here = regs(tys[n - 1], attrs, vs[n - 1], nm)->Some_0;
            assert(s == before + here);
            assert forall|k: int| 0 <= k < s.len() implies under(#[trigger] s[k].0, name) by {
                if k >= before.len() {
                    assert(s[k] == here[k - before.len()]);
                    lemma_under_child(s[k].0, name, decimal((n - 1) as nat));
                } else {
                    assert(s[k] == before[k]);
                }
            }
        }
    }
}

/// A path lies below at most one element of a container.
proof fn lemma_siblings_exclusive(name: Seq<char>, i: nat, j: nat, x: Seq<char>)
    requires
        i != j,
        under(x, element_name(name, i)),
    ensures
        !under(x, element_name(name, j)),
{
    if under(x, element_name(name, j)) {
        lemma_decimal_dot_free(i);
        lemma_decimal_dot_free(j);
        if decimal(i) == decimal(j) {
            lemma_decimal_injective(i, j);
        }
        lemma_paths_differ(name + seq!['.'], decimal(i), decimal(j), x, x);
    }
}

/// No path name of the first `n` elements lies below a later element.
proof fn lemma_items_avoid(elem: TypeExpr, attrs: Seq<FieldAttr>, vs: Seq<Value>, name: Seq<char>, n: nat)
    ensures
        items_regs(elem, attrs, vs, name, n) matches Some(s) ==> forall|k: int, m: nat|
            0 <= k < s.len() && n <= m ==> !#[trigger] under(s[k].0, element_name(name, m)),
    decreases vs, n,
{
    if n > 0 && n <= vs.len() {
        let nm = element_name(name, (n - 1) as nat);
        lemma_items_avoid(elem, attrs, vs, name, (n - 1) as nat);
        lemma_regs_under(elem, attrs, vs[n - 1], nm);
        if items_regs(elem, attrs, vs, name, n) is Some {
            let s = items_regs(elem, attrs, vs, name, n)->Some_0;
            let before = items_regs(elem, attrs, vs, name, (n - 1) as nat)->Some_0;
            let here = regs(elem, attrs, vs[n - 1], nm)->Some_0;
            assert(s == before + here);
            assert forall|k: int, m: nat| 0 <= k < s.len() && n <= m implies !#[trigger] under(s[k].0, element_name(name, m)) by {
                if k >= before.len() {
                    assert(s[k] == here[k - before.len()]);
                    lemma_siblings_exclusive(name, (n - 1) as nat, m, s[k].0);
                } else {
                    assert(s[k] == before[k]);
                }
            }
        }
    }
}

/// No path name of the first `n` components lies below a later component.
proof fn lemma_tuple_avoid(tys: Seq<TypeExpr>, attrs: Seq<FieldAttr>, vs: Seq<Value>, name: Seq<char>, n: nat)
    ensures
        tuple_regs(tys, attrs, vs, name, n) matches Some(s) ==> forall|k: int, m: nat|
            0 <= k < s.len() && n <= m ==> !#[trigger] under(s[k].0, element_name(name, m)),
    decreases vs, n,
{
    if n > 0 && n <= vs.len() && n <= tys.len() {
        let nm = element_name(name, (n - 1) as nat);
        lemma_tuple_avoid(tys, attrs, vs, name, (n - 1) as nat);
        lemma_regs_under(tys[n - 1], attrs, vs[n - 1], nm);
        if tuple_regs(tys, attrs, vs, name, n) is Some {
            let s = tuple_regs(tys, attrs, vs, name, n)->Some_0;
            let before = tuple_regs(tys, attrs, vs, name, (n - 1) as nat)->Some_0;
            let here = regs(tys[n - 1], attrs, vs[n - 1], nm)->Some_0;
            assert(s == before + here);
            assert forall|k: int, m: nat| 0 <= k < s.len() && n <= m implies !#[trigger] under(s[k].0, element_name(name, m)) by {
                if k >= before.len() {
                    assert(s[k] == here[k - before.len()]);
                    lemma_siblings_exclusive(name, (n - 1) as nat, m, s[k].0);
                } else {
                    assert(s[k] == before[k]);
                }
            }
        }
    }
}

/// The path names that one field registers are pairwise different.
pub proof fn lemma_regs_distinct(ty: TypeExpr, attrs: Seq<FieldAttr>, v: Value, name: Seq<char>)
    ensures
        regs(ty, attrs, v, name) matches Some(s) ==> forall|a: int, b: int|
            0 <= a < b < s.len() ==> #[trigger] s[a].0 != #[trigger] s[b].0,
    decreases v, 0nat,
{
    if contributes(ty, attrs) == Ok::<bool, DeriveError>(true) {
        match classify(ty, attrs) {
            Ok(FieldType::Array) | Ok(FieldType::Vec) => match v {
                Value::Items(vs) => {
                    lemma_items_distinct(element_of(ty), attrs, vs@, name, vs@.len());
                },
                _ => {},
            },
            Ok(FieldType::Option) => match v {
                Value::Present(b) => {
                    lemma_regs_distinct(element_of(ty), attrs, *b, name);
                },
                _ => {},
            },
            Ok(FieldType::Tuple) => match ty {
                TypeExpr::Tuple(tys) => match v {
                    Value::Tuple(vs) => {
                        lemma_tuple_distinct(tys@, attrs, vs@, name, vs@.len());
                    },
                    _ => {},
                },
                _ => {},
            },
            _ => {},
        }
    }
}

proof fn lemma_items_distinct(elem: TypeExpr, attrs: Seq<FieldAttr>, vs: Seq<Value>, name: Seq<char>, n: nat)
    ensures
        items_regs(elem, attrs, vs, name, n) matches Some(s) ==> forall|a: int, b: int|
            0 <= a < b < s.len() ==> #[trigger] s[a].0 != #[trigger] s[b].0,
    decreases vs, n,
{
    if n > 0 && n <= vs.len() {
        let nm = element_name(name, (n - 1) as nat);
        lemma_items_distinct(elem, attrs, vs, name, (n - 1) as nat);
        lemma_items_avoid(elem, attrs, vs, name, (n - 1) as nat);
        lemma_regs_distinct(elem, attrs, vs[n - 1], nm);
        lemma_regs_under(elem, attrs, vs[n - 1], nm);
        if items_regs(elem, attrs, vs, name, n) is Some {
            let s = items_regs(elem, attrs, vs, name, n)->Some_0;
            let before = items_regs(elem, attrs, vs, name, (n - 1) as nat)->Some_0;
            let here = regs(elem, attrs, vs[n - 1], nm)->Some_0;
            assert(s == before + here);
            assert forall|a: int, b: int| 0 <= a < b < s.len() implies #[trigger] s[a].0 != #[trigger] s[b].0 by {
                if b >= before.len() && a < before.len() {
                    assert(s[a] == before[a]);
                    assert(s[b] == here[b - before.len()]);
                    assert(under(here[b - before.len()].0, nm));
                    assert(!under(before[a].0, element_name(name, (n - 1) as nat)));
                } else if a >= before.len() {
                    assert(s[a] == here[a - before.len()]);
                    assert(s[b] == here[b - before.len()]);
                    assert(here[a - before.len()].0 != here[b - before.len()].0);
                } else {
                    assert(s[a] == before[a]);
                    assert(s[b] == before[b]);
                    assert(before[a].0 != before[b].0);
                }
            }
        }
    }
}

proof fn lemma_tuple_distinct(tys: Seq<TypeExpr>, attrs: Seq<FieldAttr>, vs: Seq<Value>, name: Seq<char>, n: nat)
    ensures
        tuple_regs(tys, attrs, vs, name, n) matches Some(s) ==> forall|a: int, b: int|
            0 <= a < b < s.len() ==> #[trigger] s[a].0 != #[trigger] s[b].0,
    decreases vs, n,
{
    if n > 0 && n <= vs.len() && n <= tys.len() {
        let nm = element_name(name, (n - 1) as nat);
        lemma_tuple_distinct(tys, attrs, vs, name, (n - 1) as nat);
        lemma_tuple_avoid(tys, attrs, vs, name, (n - 1) as nat);
        lemma_regs_distinct(tys[n - 1], attrs, vs[n - 1], nm);
        lemma_regs_under(tys[n - 1], attrs, vs[n - 1], nm);
        if tuple_regs(tys, attrs, vs, name, n) is Some {
            let s = tuple_regs(tys, attrs, vs, name, n)->Some_0;
            let before = tuple_regs(tys, attrs, vs, name, (n - 1) as nat)->Some_0;
            let here = regs(tys[n - 1], attrs, vs[n - 1], nm)->Some_0;
            assert(s == before + here);
            assert forall|a: int, b: int| 0 <= a < b < s.len() implies #[trigger] s[a].0 != #[trigger] s[b].0 by {
                if b >= before.len() && a < before.len() {
                    assert(s[a] == before[a]);
                    assert(s[b] == here[b - before.len()]);
                    assert(under(here[b - before.len()].0, nm));
                    assert(!under(before[a].0, element_name(name, (n - 1) as nat)));
                } else if a >= before.len() {
                    assert(s[a] == here[a - before.len()]);
                    assert(s[b] == here[b - before.len()]);
                    assert(here[a - before.len()].0 != here[b - before.len()].0);
                } else {
                    assert(s[a] == before[a]);
                    assert(s[b] == before[b]);
                    assert(before[a].0 != before[b].0);
                }
            }
        }
    }
}

/// A tuple registers each parameter component under `name.i`, and nothing
/// below a component that does not contribute (such as an integer).
pub proof fn law_tuple_components(tys: Seq<TypeExpr>, attrs: Seq<FieldAttr>, vs: Seq<Value>, name: Seq<char>, n: nat)
    requires
        n <= vs.len(),
        n <= tys.len(),
    ensures
        tuple_regs(tys, attrs, vs, name, n) matches Some(s) ==> {
            &&& forall|k: int, m: int|
                0 <= k < s.len() && 0 <= m < n && contributes(tys[m], attrs) != Ok::<bool, DeriveError>(true)
                    ==> !#[trigger] under(s[k].0, element_name(name, m as nat))
            &&& forall|m: int|
                0 <= m < n && classify(#[trigger] tys[m], attrs) == Ok::<FieldType, DeriveError>(FieldType::Parameter)
                    && vs[m] is Parameter ==> exists|q: int|
                    0 <= q < s.len() && #[trigger] s[q] == (element_name(name, m as nat), Target::Leaf(vs[m]->Parameter_0@))
        },
    decreases n,
{
    if n > 0 {
        let nm = element_name(name, (n - 1) as nat);
        law_tuple_components(tys, attrs, vs, name, (n - 1) as nat);
        lemma_tuple_avoid(tys, attrs, vs, name, (n - 1) as nat);
        lemma_regs_under(tys[n - 1], attrs, vs[n - 1], nm);
        if tuple_regs(tys, attrs, vs, name, n) is Some {
            let s = tuple_regs(tys, attrs, vs, name, n)->Some_0;
            let before = tuple_regs(tys, attrs, vs, name, (n - 1) as nat)->Some_0;
            let here = regs(tys[n - 1], attrs, vs[n - 1], nm)->Some_0;
            assert(s == before + here);
            if contributes(tys[n - 1], attrs) != Ok::<bool, DeriveError>(true) {
                lemma_silent(tys[n - 1], attrs, vs[n - 1], nm);
            }
            assert forall|k: int, m: int|
                0 <= k < s.len() && 0 <= m < n && contributes(tys[m], attrs) != Ok::<bool, DeriveError>(true)
                    implies !#[trigger] under(s[k].0, element_name(name, m as nat)) by {
                if k < before.len() {
                    assert(s[k] == before[k]);
                } else {
                    assert(s[k] == here[k - before.len()]);
                    if m < n - 1 {
                        lemma_siblings_exclusive(name, (n - 1) as nat, m as nat, s[k].0);
                    }
                }
            }
            assert forall|m: int|
                0 <= m < n && classify(#[trigger] tys[m], attrs) == Ok::<FieldType, DeriveError>(FieldType::Parameter)
                    && vs[m] is Parameter implies exists|q: int|
                    0 <= q < s.len() && #[trigger] s[q] == (element_name(name, m as nat), Target::Leaf(vs[m]->Parameter_0@)) by {
                if m < n - 1 {
                    let q = choose|q: int| 0 <= q < before.len() && #[trigger] before[q] == (element_name(name, m as nat), Target::Leaf(vs[m]->Parameter_0@));
                    assert(s[q] == before[q]);
                } else {
                    assert(contributes(tys[m], attrs) == Ok::<bool, DeriveError>(true));
                    assert(here == seq![(nm, Target::Leaf(vs[m]->Parameter_0@))]);
                    assert(s[before.len() as int] == here[0]);
                }
            }
        }
    }
}

} // verus!
