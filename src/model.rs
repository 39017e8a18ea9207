//! Registration of host structures: each structure's leaves and branches are
//! bound, under their path names, in the entity of the structure's identity.

use vstd::prelude::*;
use crate::parameter::{Parameter, Wrap};
use crate::registry::{EntityView, ModelError, Registry, RegistryView, segments};
use crate::shape::{
    Data, DeriveError, FieldDef, Fields, PlanEntry, Registrar, TypeDef, TypeExpr, VariantDef, field_base, field_plans,
    fields_plans, lemma_field_plans_names, lemma_field_plans_separated, lemma_variant_plans_at, plain_def, plain_record,
    plans_view, root_prefix, separated,
};
use crate::naming::{child_path, lemma_under_child, lemma_under_trans, under};
use crate::walk::{Registration, Target, Value, lemma_regs_distinct, lemma_regs_under, regs, regs_view, walk};

verus! {

/// A live host structure: the plan of its type, its identity, its active
/// variant (0 for a record) and the values of that variant's fields.
pub struct Instance {
    pub registrar: Registrar,
    pub identity: u64,
    pub variant: usize,
    pub fields: Vec<Value>,
}

pub open spec fn fields_of(f: Fields) -> Seq<FieldDef> {
    match f {
        Fields::Named(v) => v@,
        Fields::Unnamed(v) => v@,
        Fields::Unit => seq![],
    }
}

/// The declared fields of arm `arm` of a host type.
pub open spec fn arm_fields(def: TypeDef, arm: nat) -> Seq<FieldDef> {
    match def.data {
        Data::Struct(f) => fields_of(f),
        Data::Enum(vs) => if arm < vs@.len() {
            fields_of(vs@[arm as int].fields)
        } else {
            seq![]
        },
        Data::Union => seq![],
    }
}

/// The registrations of the first `n` plan entries, in order; `None` when a
/// field is missing or does not have its declared shape.
pub open spec fn entries_regs(defs: Seq<FieldDef>, plan: Seq<PlanEntry>, vals: Seq<Value>, n: nat) -> Option<Seq<(Seq<char>, Target)>>
    decreases n,
{
    if n == 0 || n > plan.len() {
        Some(seq![])
    } else {
        let e = plan[n - 1];
        match entries_regs(defs, plan, vals, (n - 1) as nat) {
            None => None,
            Some(before) => if e.0 >= defs.len() || e.0 >= vals.len() {
                None
            } else {
                match regs(defs[e.0 as int].ty, e.2, vals[e.0 as int], e.1) {
                    None => None,
                    Some(here) => Some(before + here),
                }
            },
        }
    }
}

/// The registrations of a structure: those of every contributing field of
/// its active variant, in field order.
pub open spec fn instance_regs(inst: Instance) -> Option<Seq<(Seq<char>, Target)>> {
    let arms = inst.registrar.arms();
    if inst.variant >= arms.len() {
        None
    } else {
        let plan = arms[inst.variant as int];
        entries_regs(arm_fields(inst.registrar.def(), inst.variant as nat), plan, inst.fields@, plan.len())
    }
}

proof fn lemma_entries_none(defs: Seq<FieldDef>, plan: Seq<PlanEntry>, vals: Seq<Value>, n: nat, m: nat)
    requires
        0 < n <= m <= plan.len(),
        entries_regs(defs, plan, vals, n) is None,
    ensures
        entries_regs(defs, plan, vals, m) is None,
    decreases m,
{
    if m > n {
        lemma_entries_none(defs, plan, vals, n, (m - 1) as nat);
    }
}

fn arm_field_defs(def: &TypeDef, arm: usize) -> (r: Option<&Vec<FieldDef>>)
    ensures
        match r {
            Some(v) => v@ == arm_fields(*def, arm as nat),
            None => arm_fields(*def, arm as nat) == Seq::<FieldDef>::empty(),
        },
{
    let f = match &def.data {
        Data::Struct(f) => f,
        Data::Enum(vs) => {
            if arm < vs.len() {
                &vs[arm].fields
            } else {
                return None;
            }
        },
        Data::Union => {
            return None;
        },
    };
    match f {
        Fields::Named(v) => Some(v),
        Fields::Unnamed(v) => Some(v),
        Fields::Unit => None,
    }
}

/// The registrations of a structure, in order; `None` when a field does not
/// have its declared shape.
pub fn instance_walk(inst: &Instance) -> (r: Option<Vec<Registration>>)
    ensures
        match instance_regs(*inst) {
            Some(s) => r matches Some(out) && regs_view(out@) == s,
            None => r is None,
        },
{
    let reg = &inst.registrar;
    if inst.variant >= reg.arm_count() {
        return None;
    }
    let plan = reg.arm(inst.variant);
    let ghost pv = plans_view(plan@);
    let defs = arm_field_defs(reg.type_def(), inst.variant);
    let ghost dv = arm_fields(inst.registrar.def(), inst.variant as nat);
    let mut out: Vec<Registration> = Vec::new();
    assert(regs_view(out@) =~= seq![]);
    let mut k: usize = 0;
    while k < plan.len()
        invariant
            0 <= k <= plan@.len(),
            pv == plans_view(plan@),
            pv.len() == plan@.len(),
            inst.variant < inst.registrar.arms().len(),
            pv == inst.registrar.arms()[inst.variant as int],
            instance_regs(*inst) == entries_regs(dv, pv, inst.fields@, pv.len()),
            match defs {
                Some(v) => v@ == dv,
                None => dv == Seq::<FieldDef>::empty(),
            },
            entries_regs(dv, pv, inst.fields@, k as nat) matches Some(s) && regs_view(out@) == s,
        decreases plan@.len() - k,
    {
        let ghost before = regs_view(out@);
        let entry = &plan[k];
        assert(pv[k as int] == entry@);
        let fdefs = match defs {
            Some(v) => v,
            None => {
                proof { lemma_entries_none(dv, pv, inst.fields@, (k + 1) as nat, pv.len()); }
                return None;
            },
        };
        if entry.field >= fdefs.len() || entry.field >= inst.fields.len() {
            proof { lemma_entries_none(dv, pv, inst.fields@, (k + 1) as nat, pv.len()); }
            return None;
        }
        let ty: &TypeExpr = &fdefs[entry.field].ty;
        assert(fdefs@[entry.field as int].ty == *ty);
        if !walk(ty, &entry.attrs, &inst.fields[entry.field], entry.name.as_str(), &mut out) {
            proof { lemma_entries_none(dv, pv, inst.fields@, (k + 1) as nat, pv.len()); }
            return None;
        }
        assert(entries_regs(dv, pv, inst.fields@, (k + 1) as nat) == Some(
            before + regs(*ty, entry.attrs@, inst.fields@[entry.field as int], entry.name@)->Some_0,
        ));
        k = k + 1;
    }
    Some(out)
}

/// Registration `reg` of structure `i` holds in `v` at entity `e`, as far
/// as `e` itself goes: a leaf is bound to its parameter; a branch names an
/// earlier structure, is bound to that structure's entity, and that entity
/// hangs under `e`.
pub open spec fn bound_at(v: RegistryView, host: Seq<Instance>, i: nat, e: u64, reg: (Seq<char>, Target)) -> bool {
    match reg.1 {
        Target::Leaf(h) => v.entities[e].params.contains_key(reg.0) && v.entities[e].params[reg.0] == h,
        Target::Branch(j) => {
            &&& j < i
            &&& v.entities[e].subs.contains_key(reg.0)
            &&& v.entity_of(host[j as int].identity) == Some(v.entities[e].subs[reg.0])
            &&& v.entities[v.entities[e].subs[reg.0]].parent == Some(e)
        },
    }
}

/// Structure `i` of `host` is registered in `v`: its identity has a live
/// entity, its fields have their declared shapes, every registration it
/// gives is bound there, and every structure it branches to is registered.
pub open spec fn registered(v: RegistryView, host: Seq<Instance>, i: nat) -> bool
    decreases i,
{
    &&& i < host.len()
    &&& v.entity_of(host[i as int].identity) is Some
    &&& instance_regs(host[i as int]) is Some
    &&& forall|k: int| 0 <= k < instance_regs(host[i as int])->Some_0.len() ==> #[trigger] bound_at(
        v,
        host,
        i,
        v.entity_of(host[i as int].identity)->Some_0,
        instance_regs(host[i as int])->Some_0[k],
    )
    &&& forall|k: int| 0 <= k < instance_regs(host[i as int])->Some_0.len()
        && #[trigger] instance_regs(host[i as int])->Some_0[k].1 is Branch
        && instance_regs(host[i as int])->Some_0[k].1->Branch_0 < i ==> registered(
        v,
        host,
        instance_regs(host[i as int])->Some_0[k].1->Branch_0 as nat,
    )
}

/// Structure `inst` holds only leaves, with pairwise different parameters
/// that no live entity of `v` holds, and its type has plain field names.
pub open spec fn flat_and_free(v: RegistryView, inst: Instance) -> bool {
    &&& inst.registrar.wf()
    &&& plain_def(inst.registrar.def())
    &&& instance_regs(inst) is Some
    &&& forall|k: int| 0 <= k < instance_regs(inst)->Some_0.len() ==> (#[trigger] instance_regs(inst)->Some_0[k]).1 is Leaf
        && !v.held(instance_regs(inst)->Some_0[k].1->Leaf_0)
    &&& forall|a: int, b: int| 0 <= a < b < instance_regs(inst)->Some_0.len() ==> (#[trigger] instance_regs(inst)->Some_0[a]).1
        != (#[trigger] instance_regs(inst)->Some_0[b]).1
}

/// Structure `j` is structure `i` or lies below it through branches to
/// earlier structures.
pub open spec fn descendant(host: Seq<Instance>, i: nat, j: nat) -> bool
    decreases i,
{
    j == i || (i < host.len() && instance_regs(host[i as int]) is Some && exists|k: int|
        0 <= k < instance_regs(host[i as int])->Some_0.len()
            && (#[trigger] instance_regs(host[i as int])->Some_0[k]).1 is Branch
            && (instance_regs(host[i as int])->Some_0[k].1->Branch_0 as nat) < i && descendant(
            host,
            instance_regs(host[i as int])->Some_0[k].1->Branch_0 as nat,
            j,
        ))
}

/// Structure `j` gives a registration named `n`: a leaf when `leaf`, a
/// branch otherwise.
pub open spec fn declares(host: Seq<Instance>, j: nat, n: Seq<char>, leaf: bool) -> bool {
    j < host.len() && instance_regs(host[j as int]) is Some && exists|q: int|
        0 <= q < instance_regs(host[j as int])->Some_0.len() && (#[trigger] instance_regs(host[j as int])->Some_0[q]).0
            == n && (instance_regs(host[j as int])->Some_0[q].1 is Leaf) == leaf
}

/// Name `n` at entity `x` is given by a structure at or below `i` whose
/// entity in `v` is `x`.
pub open spec fn sourced(v: RegistryView, host: Seq<Instance>, i: nat, x: u64, n: Seq<char>, leaf: bool) -> bool {
    exists|j: nat| #[trigger] descendant(host, i, j) && v.entity_of(host[j as int].identity) == Some(x) && declares(
        host,
        j,
        n,
        leaf,
    )
}

/// Entity `x` is live in `b` and binds `n` (a leaf when `leaf`) there, but
/// did not in `a`.
pub open spec fn gained(a: RegistryView, b: RegistryView, x: u64, n: Seq<char>, leaf: bool) -> bool {
    b.live(x) && if leaf {
        b.entities[x].params.contains_key(n) && !(a.live(x) && a.entities[x].params.contains_key(n))
    } else {
        b.entities[x].subs.contains_key(n) && !(a.live(x) && a.entities[x].subs.contains_key(n))
    }
}

/// Going from `a` to `b`, every name an entity gained is given by a
/// structure at or below `i` that the entity belongs to: registering `i`
/// binds nothing else, anywhere.
pub open spec fn gains_sourced(a: RegistryView, b: RegistryView, host: Seq<Instance>, i: nat) -> bool {
    forall|x: u64, n: Seq<char>, leaf: bool| #[trigger] gained(a, b, x, n, leaf) ==> sourced(b, host, i, x, n, leaf)
}

proof fn lemma_sourced_grows(a: RegistryView, b: RegistryView, host: Seq<Instance>, i: nat, x: u64, n: Seq<char>, leaf: bool)
    requires
        sourced(a, host, i, x, n, leaf),
        a.grows(b),
    ensures
        sourced(b, host, i, x, n, leaf),
{
    let j = choose|j: nat| #[trigger] descendant(host, i, j) && a.entity_of(host[j as int].identity) == Some(x)
        && declares(host, j, n, leaf);
    assert(b.entity_of(host[j as int].identity) == Some(x));
}

/// One step that gains only sourced names keeps every gain sourced.
proof fn lemma_gains_step(v0: RegistryView, before: RegistryView, after: RegistryView, host: Seq<Instance>, i: nat)
    requires
        gains_sourced(v0, before, host, i),
        before.grows(after),
        forall|x: u64, n: Seq<char>, leaf: bool| #[trigger] gained(before, after, x, n, leaf) ==> sourced(
            after,
            host,
            i,
            x,
            n,
            leaf,
        ),
    ensures
        gains_sourced(v0, after, host, i),
{
    assert forall|x: u64, n: Seq<char>, leaf: bool| #[trigger] gained(v0, after, x, n, leaf) implies sourced(
        after,
        host,
        i,
        x,
        n,
        leaf,
    ) by {
        if gained(before, after, x, n, leaf) {
        } else {
            assert(before.live(x)) by {
                if !before.live(x) {
                    assert(gained(before, after, x, n, leaf));
                }
            }
            assert(gained(v0, before, x, n, leaf));
            lemma_sourced_grows(before, after, host, i, x, n, leaf);
        }
    }
}

/// What structure `b` gives, structure `i` gives too when `i` branches to `b`.
proof fn lemma_descendant_through(host: Seq<Instance>, i: nat, k: int, j: nat)
    requires
        i < host.len(),
        instance_regs(host[i as int]) is Some,
        0 <= k < instance_regs(host[i as int])->Some_0.len(),
        instance_regs(host[i as int])->Some_0[k].1 is Branch,
        (instance_regs(host[i as int])->Some_0[k].1->Branch_0 as nat) < i,
        descendant(host, instance_regs(host[i as int])->Some_0[k].1->Branch_0 as nat, j),
    ensures
        descendant(host, i, j),
{
}

/// Some structure at or below `i` has identity `id`.
pub open spec fn identity_below(host: Seq<Instance>, i: nat, id: u64) -> bool {
    exists|j: nat| #[trigger] descendant(host, i, j) && j < host.len() && host[j as int].identity == id
}

/// Some structure at or below `i` gives a leaf for parameter `h`.
pub open spec fn handle_below(host: Seq<Instance>, i: nat, h: u64) -> bool {
    exists|j: nat| #[trigger] descendant(host, i, j) && j < host.len() && instance_regs(host[j as int]) is Some && exists|q: int|
        0 <= q < instance_regs(host[j as int])->Some_0.len() && (#[trigger] instance_regs(host[j as int])->Some_0[q]).1
            == Target::Leaf(h)
}

/// Going from `a` to `b`, only identities of structures at or below `i`
/// gained an entity, and only parameters of those structures became held.
pub open spec fn claims_sourced(a: RegistryView, b: RegistryView, host: Seq<Instance>, i: nat) -> bool {
    &&& forall|id: u64| #[trigger] b.entity_of(id) is Some && a.entity_of(id) is None ==> identity_below(host, i, id)
    &&& forall|h: u64| #[trigger] b.held(h) && !a.held(h) ==> handle_below(host, i, h)
}

proof fn lemma_claims_step(v0: RegistryView, before: RegistryView, after: RegistryView, host: Seq<Instance>, i: nat)
    requires
        claims_sourced(v0, before, host, i),
        claims_sourced(before, after, host, i),
        before.grows(after),
    ensures
        claims_sourced(v0, after, host, i),
{
    assert forall|id: u64| #[trigger] after.entity_of(id) is Some && v0.entity_of(id) is None implies identity_below(host, i, id) by {
        if before.entity_of(id) is None {
        } else {
            assert(before.entity_of(id) is Some && v0.entity_of(id) is None);
        }
    }
    assert forall|h: u64| #[trigger] after.held(h) && !v0.held(h) implies handle_below(host, i, h) by {
        if !before.held(h) {
        } else {
            assert(before.held(h) && !v0.held(h));
        }
    }
}

proof fn lemma_claims_through(v: RegistryView, w: RegistryView, host: Seq<Instance>, i: nat, k: int)
    requires
        i < host.len(),
        instance_regs(host[i as int]) is Some,
        0 <= k < instance_regs(host[i as int])->Some_0.len(),
        instance_regs(host[i as int])->Some_0[k].1 is Branch,
        (instance_regs(host[i as int])->Some_0[k].1->Branch_0 as nat) < i,
        claims_sourced(v, w, host, instance_regs(host[i as int])->Some_0[k].1->Branch_0 as nat),
    ensures
        claims_sourced(v, w, host, i),
{
    let b = instance_regs(host[i as int])->Some_0[k].1->Branch_0 as nat;
    assert forall|id: u64| #[trigger] w.entity_of(id) is Some && v.entity_of(id) is None implies identity_below(host, i, id) by {
        let j = choose|j: nat| #[trigger] descendant(host, b, j) && j < host.len() && host[j as int].identity == id;
        lemma_descendant_through(host, i, k, j);
    }
    assert forall|h: u64| #[trigger] w.held(h) && !v.held(h) implies handle_below(host, i, h) by {
        let j = choose|j: nat| #[trigger] descendant(host, b, j) && j < host.len() && instance_regs(host[j as int]) is Some
            && exists|q: int| 0 <= q < instance_regs(host[j as int])->Some_0.len() && (#[trigger] instance_regs(host[j as int])->Some_0[q]).1
                == Target::Leaf(h);
        lemma_descendant_through(host, i, k, j);
    }
}

/// Parameter `h` is a leaf of structure `j`.
pub open spec fn leaf_of(host: Seq<Instance>, j: nat, h: u64) -> bool {
    j < host.len() && instance_regs(host[j as int]) is Some && exists|q: int|
        0 <= q < instance_regs(host[j as int])->Some_0.len() && (#[trigger] instance_regs(host[j as int])->Some_0[q]).1
            == Target::Leaf(h)
}

/// Structure `i` and the structures it branches to are not registered yet
/// and conflict with nothing: its own registrations are pairwise different;
/// its leaves are not held; each branch names an earlier structure that holds
/// only leaves, is free in the sense of `flat_and_free`, and has an identity
/// of its own; and no parameter is a leaf of two of these structures.
pub open spec fn shallow_and_free(v: RegistryView, host: Seq<Instance>, i: nat) -> bool {
    let rs = instance_regs(host[i as int])->Some_0;
    &&& i < host.len()
    &&& host[i as int].registrar.wf()
    &&& plain_def(host[i as int].registrar.def())
    &&& instance_regs(host[i as int]) is Some
    &&& v.entity_of(host[i as int].identity) is None
    &&& forall|a: int, b: int| 0 <= a < b < rs.len() ==> (#[trigger] rs[a]).1 != (#[trigger] rs[b]).1
    &&& forall|k: int| 0 <= k < rs.len() && (#[trigger] rs[k]).1 is Leaf ==> !v.held(rs[k].1->Leaf_0)
    &&& forall|k: int| 0 <= k < rs.len() && (#[trigger] rs[k]).1 is Branch ==> {
        let b = rs[k].1->Branch_0 as nat;
        &&& b < i
        &&& flat_and_free(v, host[b as int])
        &&& v.entity_of(host[b as int].identity) is None
        &&& host[b as int].identity != host[i as int].identity
        &&& forall|h: u64| #[trigger] leaf_of(host, b, h) ==> !leaf_of(host, i, h)
    }
    &&& forall|k1: int, k2: int, h: u64|
        0 <= k1 < rs.len() && 0 <= k2 < rs.len() && k1 != k2 && (#[trigger] rs[k1]).1 is Branch && (#[trigger] rs[k2]).1 is Branch
            ==> host[rs[k1].1->Branch_0 as int].identity != host[rs[k2].1->Branch_0 as int].identity && !(#[trigger] leaf_of(
            host,
            rs[k1].1->Branch_0 as nat,
            h,
        ) && leaf_of(host, rs[k2].1->Branch_0 as nat, h))
}

/// What registering a structure that holds only leaves did, as seen from
/// the structure above it: no other live entity gained a name, only the
/// child's parameters became held and only the child's identity gained an
/// entity.
proof fn lemma_leafy_child(before: RegistryView, mid: RegistryView, host: Seq<Instance>, b: nat, c: u64, e: u64)
    requires
        b < host.len(),
        flat_and_free(before, host[b as int]),
        gains_sourced(before, mid, host, b),
        claims_sourced(before, mid, host, b),
        before.grows(mid),
        mid.entity_of(host[b as int].identity) == Some(c),
        !before.live(c),
        before.live(e),
    ensures
        mid.live(e),
        forall|n: Seq<char>| #[trigger] mid.entities[e].params.contains_key(n) == before.entities[e].params.contains_key(n),
        forall|n: Seq<char>| #[trigger] mid.entities[e].subs.contains_key(n) == before.entities[e].subs.contains_key(n),
        forall|h: u64| #[trigger] mid.held(h) && !before.held(h) ==> leaf_of(host, b, h),
        forall|id: u64| #[trigger] mid.entity_of(id) is Some && before.entity_of(id) is None ==> id == host[b as int].identity,
{
    let inst = host[b as int];
    assert forall|n: Seq<char>, leaf: bool| !#[trigger] gained(before, mid, e, n, leaf) by {
        if gained(before, mid, e, n, leaf) {
            let j = choose|j: nat| #[trigger] descendant(host, b, j) && mid.entity_of(host[j as int].identity) == Some(e)
                && declares(host, j, n, leaf);
            lemma_flat_descendant(host, b, j);
        }
    }
    assert forall|n: Seq<char>| #[trigger] mid.entities[e].params.contains_key(n) == before.entities[e].params.contains_key(n) by {
        assert(!gained(before, mid, e, n, true));
    }
    assert forall|n: Seq<char>| #[trigger] mid.entities[e].subs.contains_key(n) == before.entities[e].subs.contains_key(n) by {
        assert(!gained(before, mid, e, n, false));
    }
    assert forall|h: u64| #[trigger] mid.held(h) && !before.held(h) implies leaf_of(host, b, h) by {
        let j = choose|j: nat| #[trigger] descendant(host, b, j) && j < host.len() && instance_regs(host[j as int]) is Some
            && exists|q: int| 0 <= q < instance_regs(host[j as int])->Some_0.len() && (#[trigger] instance_regs(host[j as int])->Some_0[q]).1
                == Target::Leaf(h);
        lemma_flat_descendant(host, b, j);
    }
    assert forall|id: u64| #[trigger] mid.entity_of(id) is Some && before.entity_of(id) is None implies id == host[b as int].identity by {
        let j = choose|j: nat| #[trigger] descendant(host, b, j) && j < host.len() && host[j as int].identity == id;
        lemma_flat_descendant(host, b, j);
    }
}

/// A free structure that holds only leaves is free in the sense of
/// `shallow_and_free`.
proof fn lemma_flat_is_shallow(v: RegistryView, host: Seq<Instance>, i: nat)
    requires
        i < host.len(),
        flat_and_free(v, host[i as int]),
        v.entity_of(host[i as int].identity) is None,
    ensures
        shallow_and_free(v, host, i),
{
}

/// From registration `k` of the structure on: no name is taken at `e`, no
/// leaf is held, and every branch names a free structure that holds only
/// leaves and has no entity yet.
pub open spec fn shallow_rest(v: RegistryView, host: Seq<Instance>, e: u64, rs: Seq<(Seq<char>, Target)>, k: int) -> bool {
    forall|q: int| k <= q < rs.len() ==> !v.name_taken(e, #[trigger] rs[q].0) && (rs[q].1 is Leaf ==> !v.held(
        rs[q].1->Leaf_0,
    )) && (rs[q].1 is Branch ==> flat_and_free(v, host[rs[q].1->Branch_0 as int]) && v.entity_of(
        host[rs[q].1->Branch_0 as int].identity,
    ) is None)
}

proof fn lemma_leaf_of_flat(host: Seq<Instance>, b: nat, kk: int)
    requires
        b < host.len(),
        instance_regs(host[b as int]) is Some,
        0 <= kk < instance_regs(host[b as int])->Some_0.len(),
        instance_regs(host[b as int])->Some_0[kk].1 is Leaf,
    ensures
        leaf_of(host, b, instance_regs(host[b as int])->Some_0[kk].1->Leaf_0),
{
}

proof fn lemma_shallow_leaf(v0: RegistryView, before: RegistryView, after: RegistryView, host: Seq<Instance>, i: nat, e: u64, rs: Seq<(Seq<char>, Target)>, k: int, h: u64)
    requires
        shallow_and_free(v0, host, i),
        instance_regs(host[i as int]) == Some(rs),
        0 <= k < rs.len(),
        rs[k].1 == Target::Leaf(h),
        forall|a: int, b: int| 0 <= a < b < rs.len() ==> #[trigger] rs[a].0 != #[trigger] rs[b].0,
        shallow_rest(before, host, e, rs, k),
        before.live(e),
        after == before.with_parameter(e, rs[k].0, h),
    ensures
        shallow_rest(after, host, e, rs, k + 1),
{
    assert(leaf_of(host, i, h)) by {
        assert(instance_regs(host[i as int])->Some_0[k] == rs[k]);
    }
    assert forall|q: int| k + 1 <= q < rs.len() implies !after.name_taken(e, #[trigger] rs[q].0) && (rs[q].1 is Leaf ==> !after.held(
        rs[q].1->Leaf_0,
    )) && (rs[q].1 is Branch ==> flat_and_free(after, host[rs[q].1->Branch_0 as int]) && after.entity_of(
        host[rs[q].1->Branch_0 as int].identity,
    ) is None) by {
        assert(!before.name_taken(e, rs[q].0));
        assert(rs[k].0 != rs[q].0);
        assert(rs[k].1 != rs[q].1);
        if rs[q].1 is Branch {
            let b = rs[q].1->Branch_0 as nat;
            let inst = host[b as int];
            assert(instance_regs(host[i as int])->Some_0[q] == rs[q]);
            assert forall|kk: int| 0 <= kk < instance_regs(inst)->Some_0.len() implies !after.held(
                #[trigger] instance_regs(inst)->Some_0[kk].1->Leaf_0,
            ) by {
                assert(instance_regs(inst)->Some_0[kk].1 is Leaf);
                lemma_leaf_of_flat(host, b, kk);
                assert(!before.held(instance_regs(inst)->Some_0[kk].1->Leaf_0));
            }
            lemma_flat_free_moves(before, after, inst);
        }
    }
}

proof fn lemma_shallow_branch(v0: RegistryView, before: RegistryView, mid: RegistryView, after: RegistryView, host: Seq<Instance>, i: nat, e: u64, rs: Seq<(Seq<char>, Target)>, k: int, c: u64)
    requires
        shallow_and_free(v0, host, i),
        instance_regs(host[i as int]) == Some(rs),
        0 <= k < rs.len(),
        rs[k].1 is Branch,
        forall|a: int, b: int| 0 <= a < b < rs.len() ==> #[trigger] rs[a].0 != #[trigger] rs[b].0,
        shallow_rest(before, host, e, rs, k),
        mid.live(e),
        mid.live(c),
        c != e,
        forall|n: Seq<char>| #[trigger] mid.entities[e].params.contains_key(n) == before.entities[e].params.contains_key(n),
        forall|n: Seq<char>| #[trigger] mid.entities[e].subs.contains_key(n) == before.entities[e].subs.contains_key(n),
        forall|h: u64| #[trigger] mid.held(h) && !before.held(h) ==> leaf_of(host, rs[k].1->Branch_0 as nat, h),
        forall|id: u64| #[trigger] mid.entity_of(id) is Some && before.entity_of(id) is None ==> id == host[rs[k].1->Branch_0 as int].identity,
        after == mid.with_submodel(e, rs[k].0, c),
    ensures
        shallow_rest(after, host, e, rs, k + 1),
{
    let b = rs[k].1->Branch_0 as nat;
    assert(instance_regs(host[i as int])->Some_0[k] == rs[k]);
    assert forall|q: int| k + 1 <= q < rs.len() implies !after.name_taken(e, #[trigger] rs[q].0) && (rs[q].1 is Leaf ==> !after.held(
        rs[q].1->Leaf_0,
    )) && (rs[q].1 is Branch ==> flat_and_free(after, host[rs[q].1->Branch_0 as int]) && after.entity_of(
        host[rs[q].1->Branch_0 as int].identity,
    ) is None) by {
        assert(!before.name_taken(e, rs[q].0));
        assert(rs[k].0 != rs[q].0);
        assert(instance_regs(host[i as int])->Some_0[q] == rs[q]);
        assert(after.entities[e].params == mid.entities[e].params);
        if rs[q].1 is Leaf {
            let h = rs[q].1->Leaf_0;
            assert(leaf_of(host, i, h));
            assert(after.held(h) == mid.held(h));
        }
        if rs[q].1 is Branch {
            let b2 = rs[q].1->Branch_0 as nat;
            let inst = host[b2 as int];
            assert forall|kk: int| 0 <= kk < instance_regs(inst)->Some_0.len() implies !after.held(
                #[trigger] instance_regs(inst)->Some_0[kk].1->Leaf_0,
            ) by {
                let h = instance_regs(inst)->Some_0[kk].1->Leaf_0;
                assert(instance_regs(inst)->Some_0[kk].1 is Leaf);
                lemma_leaf_of_flat(host, b2, kk);
                assert(!before.held(h));
                assert(after.held(h) == mid.held(h));
                assert(!(leaf_of(host, b, h) && leaf_of(host, b2, h)));
            }
            lemma_flat_free_moves(before, after, inst);
            assert(!(leaf_of(host, b, 0u64) && leaf_of(host, b2, 0u64)));
            assert(host[b as int].identity != host[b2 as int].identity);
            assert(after.entity_of(inst.identity) == mid.entity_of(inst.identity));
        }
    }
}

/// `flat_and_free` looks at the state only through which parameters are held.
proof fn lemma_flat_free_moves(v: RegistryView, w: RegistryView, inst: Instance)
    requires
        flat_and_free(v, inst),
        forall|k: int| 0 <= k < instance_regs(inst)->Some_0.len() ==> !w.held(
            #[trigger] instance_regs(inst)->Some_0[k].1->Leaf_0,
        ),
    ensures
        flat_and_free(w, inst),
{
}

/// A structure that holds only leaves has no structure below it.
proof fn lemma_flat_descendant(host: Seq<Instance>, b: nat, j: nat)
    requires
        b < host.len(),
        instance_regs(host[b as int]) is Some,
        forall|k: int| 0 <= k < instance_regs(host[b as int])->Some_0.len() ==> (#[trigger] instance_regs(host[b as int])->Some_0[k]).1 is Leaf,
        descendant(host, b, j),
    ensures
        j == b,
{
    if j != b {
        let k = choose|k: int| 0 <= k < instance_regs(host[b as int])->Some_0.len()
            && (#[trigger] instance_regs(host[b as int])->Some_0[k]).1 is Branch
            && (instance_regs(host[b as int])->Some_0[k].1->Branch_0 as nat) < b && descendant(
            host,
            instance_regs(host[b as int])->Some_0[k].1->Branch_0 as nat,
            j,
        );
    }
}

/// Going from `a` to `b`, an identity that gained an entity gained one
/// that did not exist in `a`.
pub open spec fn claims_fresh(a: RegistryView, b: RegistryView) -> bool {
    forall|id: u64| #[trigger] b.entity_of(id) is Some && a.entity_of(id) is None ==> !a.live(b.entity_of(id)->Some_0)
}

/// How many structures registering `i` visits: `i` itself and, for each
/// branch to an earlier structure, the structures visited for it.
pub open spec fn tree_size(host: Seq<Instance>, i: nat) -> nat
    decreases i, 1nat, 0nat,
{
    if i < host.len() && instance_regs(host[i as int]) is Some {
        1 + branch_size(host, i, instance_regs(host[i as int])->Some_0.len())
    } else {
        1
    }
}

/// How many structures the first `n` registrations of `i` visit below it.
pub open spec fn branch_size(host: Seq<Instance>, i: nat, n: nat) -> nat
    decreases i, 0nat, n,
{
    if n == 0 || !(i < host.len() && instance_regs(host[i as int]) is Some) || n > instance_regs(host[i as int])->Some_0.len() {
        0
    } else {
        let t = instance_regs(host[i as int])->Some_0[n - 1].1;
        branch_size(host, i, (n - 1) as nat) + if t is Branch && (t->Branch_0 as nat) < i {
            tree_size(host, t->Branch_0 as nat)
        } else {
            0
        }
    }
}

proof fn lemma_branch_size_mono(host: Seq<Instance>, i: nat, n: nat, m: nat)
    requires
        n <= m,
        i < host.len(),
        instance_regs(host[i as int]) is Some,
        m <= instance_regs(host[i as int])->Some_0.len(),
    ensures
        branch_size(host, i, n) <= branch_size(host, i, m),
    decreases m,
{
    if n < m {
        lemma_branch_size_mono(host, i, n, (m - 1) as nat);
    }
}

/// Structure `i` and everything below it can be registered without
/// conflict, whatever the registry holds of other structures: its
/// registrations are pairwise different and its field names plain; each
/// branch names an earlier structure of the same kind that holds neither
/// `i`'s identity nor `i`'s parameters; and two branches share no identity
/// and no parameter anywhere below them.
pub open spec fn tree_shape_ok(host: Seq<Instance>, i: nat) -> bool
    decreases i,
{
    let rs = instance_regs(host[i as int])->Some_0;
    &&& i < host.len()
    &&& host[i as int].registrar.wf()
    &&& plain_def(host[i as int].registrar.def())
    &&& instance_regs(host[i as int]) is Some
    &&& forall|a: int, b: int| 0 <= a < b < rs.len() ==> (#[trigger] rs[a]).1 != (#[trigger] rs[b]).1
    &&& forall|k: int| 0 <= k < rs.len() && (#[trigger] rs[k]).1 is Branch ==> (rs[k].1->Branch_0 as nat) < i
        && tree_shape_ok(host, rs[k].1->Branch_0 as nat) && !identity_below(
        host,
        rs[k].1->Branch_0 as nat,
        host[i as int].identity,
    )
    &&& forall|k: int, h: u64| 0 <= k < rs.len() && (#[trigger] rs[k]).1 is Branch && leaf_of(host, i, h) ==> !#[trigger] handle_below(
        host,
        rs[k].1->Branch_0 as nat,
        h,
    )
    &&& forall|k1: int, k2: int, x: u64|
        0 <= k1 < rs.len() && 0 <= k2 < rs.len() && k1 != k2 && rs[k1].1 is Branch && rs[k2].1 is Branch
            && #[trigger] identity_below(host, rs[k1].1->Branch_0 as nat, x) ==> !#[trigger] identity_below(
            host,
            rs[k2].1->Branch_0 as nat,
            x,
        )
    &&& forall|k1: int, k2: int, h: u64|
        0 <= k1 < rs.len() && 0 <= k2 < rs.len() && k1 != k2 && rs[k1].1 is Branch && rs[k2].1 is Branch
            && #[trigger] handle_below(host, rs[k1].1->Branch_0 as nat, h) ==> !#[trigger] handle_below(
            host,
            rs[k2].1->Branch_0 as nat,
            h,
        )
}

/// No identity at or below `i` has an entity in `v`, and no parameter at or
/// below `i` is held there.
pub open spec fn tree_state_free(v: RegistryView, host: Seq<Instance>, i: nat) -> bool {
    &&& forall|id: u64| #[trigger] identity_below(host, i, id) ==> v.entity_of(id) is None
    &&& forall|h: u64| #[trigger] handle_below(host, i, h) ==> !v.held(h)
}

/// From registration `k` of the structure on: no name is taken at `e`, no
/// leaf is held, and everything below each branch is free.
pub open spec fn deep_rest(v: RegistryView, host: Seq<Instance>, e: u64, rs: Seq<(Seq<char>, Target)>, k: int) -> bool {
    forall|q: int| k <= q < rs.len() ==> !v.name_taken(e, #[trigger] rs[q].0) && (rs[q].1 is Leaf ==> !v.held(
        rs[q].1->Leaf_0,
    )) && (rs[q].1 is Branch ==> tree_state_free(v, host, rs[q].1->Branch_0 as nat))
}

proof fn lemma_deep_leaf(before: RegistryView, after: RegistryView, host: Seq<Instance>, i: nat, e: u64, rs: Seq<(Seq<char>, Target)>, k: int, h: u64)
    requires
        tree_shape_ok(host, i),
        instance_regs(host[i as int]) == Some(rs),
        0 <= k < rs.len(),
        rs[k].1 == Target::Leaf(h),
        forall|a: int, b: int| 0 <= a < b < rs.len() ==> #[trigger] rs[a].0 != #[trigger] rs[b].0,
        deep_rest(before, host, e, rs, k),
        before.live(e),
        after == before.with_parameter(e, rs[k].0, h),
    ensures
        deep_rest(after, host, e, rs, k + 1),
{
    assert(leaf_of(host, i, h)) by {
        assert(instance_regs(host[i as int])->Some_0[k] == rs[k]);
    }
    assert forall|q: int| k + 1 <= q < rs.len() implies !after.name_taken(e, #[trigger] rs[q].0) && (rs[q].1 is Leaf ==> !after.held(
        rs[q].1->Leaf_0,
    )) && (rs[q].1 is Branch ==> tree_state_free(after, host, rs[q].1->Branch_0 as nat)) by {
        assert(!before.name_taken(e, rs[q].0));
        assert(rs[k].0 != rs[q].0);
        assert(instance_regs(host[i as int])->Some_0[q] == rs[q]);
        assert(instance_regs(host[i as int])->Some_0[k] == rs[k]);
        assert(rs[k].1 != rs[q].1);
        if rs[q].1 is Branch {
            let b = rs[q].1->Branch_0 as nat;
            assert(tree_state_free(before, host, b));
            assert forall|id: u64| #[trigger] identity_below(host, b, id) implies after.entity_of(id) is None by {
                assert(before.entity_of(id) is None);
            }
            assert forall|x: u64| #[trigger] handle_below(host, b, x) implies !after.held(x) by {
                assert(!before.held(x));
                if x == h {
                    assert(!handle_below(host, b, h));
                }
            }
        }
    }
}

/// Registering a structure whose subtree was free gave no name to an
/// entity that existed before.
proof fn lemma_deep_child_keeps(before: RegistryView, mid: RegistryView, host: Seq<Instance>, b: nat, e: u64)
    requires
        tree_state_free(before, host, b),
        gains_sourced(before, mid, host, b),
        claims_fresh(before, mid),
        before.grows(mid),
        before.live(e),
    ensures
        mid.live(e),
        forall|n: Seq<char>| #[trigger] mid.entities[e].params.contains_key(n) == before.entities[e].params.contains_key(n),
        forall|n: Seq<char>| #[trigger] mid.entities[e].subs.contains_key(n) == before.entities[e].subs.contains_key(n),
{
    assert forall|n: Seq<char>, leaf: bool| !#[trigger] gained(before, mid, e, n, leaf) by {
        if gained(before, mid, e, n, leaf) {
            let j = choose|j: nat| #[trigger] descendant(host, b, j) && mid.entity_of(host[j as int].identity) == Some(e)
                && declares(host, j, n, leaf);
            assert(identity_below(host, b, host[j as int].identity));
            assert(before.entity_of(host[j as int].identity) is None);
        }
    }
    assert forall|n: Seq<char>| #[trigger] mid.entities[e].params.contains_key(n) == before.entities[e].params.contains_key(n) by {
        assert(!gained(before, mid, e, n, true));
    }
    assert forall|n: Seq<char>| #[trigger] mid.entities[e].subs.contains_key(n) == before.entities[e].subs.contains_key(n) by {
        assert(!gained(before, mid, e, n, false));
    }
}

proof fn lemma_deep_branch(before: RegistryView, mid: RegistryView, after: RegistryView, host: Seq<Instance>, i: nat, e: u64, rs: Seq<(Seq<char>, Target)>, k: int, c: u64)
    requires
        tree_shape_ok(host, i),
        instance_regs(host[i as int]) == Some(rs),
        0 <= k < rs.len(),
        rs[k].1 is Branch,
        forall|a: int, b: int| 0 <= a < b < rs.len() ==> #[trigger] rs[a].0 != #[trigger] rs[b].0,
        deep_rest(before, host, e, rs, k),
        claims_sourced(before, mid, host, rs[k].1->Branch_0 as nat),
        before.grows(mid),
        mid.live(e),
        mid.live(c),
        c != e,
        forall|n: Seq<char>| #[trigger] mid.entities[e].params.contains_key(n) == before.entities[e].params.contains_key(n),
        forall|n: Seq<char>| #[trigger] mid.entities[e].subs.contains_key(n) == before.entities[e].subs.contains_key(n),
        after == mid.with_submodel(e, rs[k].0, c),
    ensures
        deep_rest(after, host, e, rs, k + 1),
{
    let b = rs[k].1->Branch_0 as nat;
    assert(instance_regs(host[i as int])->Some_0[k] == rs[k]);
    assert forall|q: int| k + 1 <= q < rs.len() implies !after.name_taken(e, #[trigger] rs[q].0) && (rs[q].1 is Leaf ==> !after.held(
        rs[q].1->Leaf_0,
    )) && (rs[q].1 is Branch ==> tree_state_free(after, host, rs[q].1->Branch_0 as nat)) by {
        assert(!before.name_taken(e, rs[q].0));
        assert(rs[k].0 != rs[q].0);
        assert(instance_regs(host[i as int])->Some_0[q] == rs[q]);
        assert(after.entities[e].params == mid.entities[e].params);
        if rs[q].1 is Leaf {
            let h = rs[q].1->Leaf_0;
            assert(leaf_of(host, i, h));
            assert(!handle_below(host, b, h));
            assert(after.held(h) == mid.held(h));
        }
        if rs[q].1 is Branch {
            let b2 = rs[q].1->Branch_0 as nat;
            assert(tree_state_free(before, host, b2));
            assert forall|id: u64| #[trigger] identity_below(host, b2, id) implies after.entity_of(id) is None by {
                assert(before.entity_of(id) is None);
                assert(after.entity_of(id) == mid.entity_of(id));
                if mid.entity_of(id) is Some {
                    assert(identity_below(host, b, id));
                }
            }
            assert forall|x: u64| #[trigger] handle_below(host, b2, x) implies !after.held(x) by {
                assert(!before.held(x));
                assert(after.held(x) == mid.held(x));
                if mid.held(x) {
                    assert(handle_below(host, b, x));
                }
            }
        }
    }
}

/// The names of the first `k` registrations: of leaves when `leaf`, of
/// branches otherwise.
pub open spec fn names_upto(rs: Seq<(Seq<char>, Target)>, k: int, leaf: bool) -> Set<Seq<char>> {
    Set::new(|n: Seq<char>| exists|q: int| 0 <= q < k && (#[trigger] rs[q]).0 == n && (rs[q].1 is Leaf) == leaf)
}

/// What registering structure `i` from `before` may give: on success,
/// the structure is registered in `after` at the entity returned; and when it
/// was registered already, success with nothing changed.
pub open spec fn registration_outcome(
    before: RegistryView,
    host: Seq<Instance>,
    i: nat,
    r: Result<u64, ModelError>,
    after: RegistryView,
) -> bool {
    &&& r matches Ok(e) ==> registered(after, host, i) && after.entity_of(host[i as int].identity) == Some(e)
    &&& registered(before, host, i) ==> r == Ok::<u64, ModelError>(before.entity_of(host[i as int].identity)->Some_0)
        && after == before
}

/// Registering a structure twice without change in between: the second
/// time succeeds with the same entity and changes nothing, so the same set
/// of path names stands and no duplicate is reported.
pub proof fn law_register_idempotent(
    v0: RegistryView,
    host: Seq<Instance>,
    i: nat,
    e: u64,
    v1: RegistryView,
    r2: Result<u64, ModelError>,
    v2: RegistryView,
)
    requires
        registration_outcome(v0, host, i, Ok(e), v1),
        registration_outcome(v1, host, i, r2, v2),
    ensures
        r2 == Ok::<u64, ModelError>(e),
        v2 == v1,
{
}

/// A registration bound at a live entity stays bound as the registry grows.
pub proof fn lemma_bound_grows(a: RegistryView, b: RegistryView, host: Seq<Instance>, i: nat, e: u64, reg: (Seq<char>, Target))
    requires
        bound_at(a, host, i, e, reg),
        a.live(e),
        a.grows(b),
    ensures
        bound_at(b, host, i, e, reg),
{
    assert(b.live(e));
    match reg.1 {
        Target::Leaf(h) => {
            assert(a.entities[e].params.submap_of(b.entities[e].params));
        },
        Target::Branch(j) => {
            let c = a.entities[e].subs[reg.0];
            assert(a.entities[e].subs.submap_of(b.entities[e].subs));
            assert(a.entity_of(host[j as int].identity) is Some);
            assert(a.live(c));
            assert(a.attached(c));
        },
    }
}

/// What is registered stays registered as the registry grows.
pub proof fn lemma_registered_grows(a: RegistryView, b: RegistryView, host: Seq<Instance>, i: nat)
    requires
        registered(a, host, i),
        a.grows(b),
    ensures
        registered(b, host, i),
    decreases i,
{
    let e = a.entity_of(host[i as int].identity)->Some_0;
    let rs = instance_regs(host[i as int])->Some_0;
    assert(b.entity_of(host[i as int].identity) == Some(e));
    assert(a.live(e));
    assert forall|k: int| 0 <= k < rs.len() implies #[trigger] bound_at(b, host, i, e, rs[k]) by {
        assert(bound_at(a, host, i, e, rs[k]));
        lemma_bound_grows(a, b, host, i, e, rs[k]);
    }
    assert forall|k: int| 0 <= k < rs.len() && #[trigger] rs[k].1 is Branch && rs[k].1->Branch_0 < i implies registered(
        b,
        host,
        rs[k].1->Branch_0 as nat,
    ) by {
        lemma_registered_grows(a, b, host, rs[k].1->Branch_0 as nat);
    }
}

impl Registry {
    /// Registers structure `i` of `host`: its nested structures first, each
    /// in its own entity, then every leaf and branch of `i`, under its path
    /// name, in the entity of `i`'s identity (created if there is none).
    ///
    /// Registering a structure that is registered already succeeds and
    /// changes nothing. A structure whose fields do not have their declared
    /// shapes is refused before anything changes.
    #[verifier::rlimit(100)]
    pub fn register(&mut self, host: &Vec<Instance>, i: usize) -> (r: Result<u64, ModelError>)
        requires
            old(self).wf(),
            i < host@.len(),
        ensures
            final(self).wf(),
            old(self)@.grows(final(self)@),
            final(self).param_bound() == old(self).param_bound(),
            registration_outcome(old(self)@, host@, i as nat, r, final(self)@),
            r != Err::<u64, ModelError>(ModelError::NoSuchStructure),
            claims_fresh(old(self)@, final(self)@),
            tree_shape_ok(host@, i as nat) && tree_state_free(old(self)@, host@, i as nat) && old(self).entity_bound()
                + tree_size(host@, i as nat) <= u64::MAX ==> r is Ok && !old(self)@.live(r->Ok_0)
                && final(self)@.entities[r->Ok_0].parent is None && final(self).entity_bound() <= old(self).entity_bound()
                + tree_size(host@, i as nat) && (forall|x: u64| #[trigger] old(self)@.live(x) ==> final(self)@.entities[x].parent
                == old(self)@.entities[x].parent) && final(self)@.entities[r->Ok_0].params.dom() == Set::new(
                |n: Seq<char>| declares(host@, i as nat, n, true),
            ) && final(self)@.entities[r->Ok_0].subs.dom() == Set::new(|n: Seq<char>| declares(host@, i as nat, n, false)),
            gains_sourced(old(self)@, final(self)@, host@, i as nat),
            claims_sourced(old(self)@, final(self)@, host@, i as nat),
            instance_regs(host@[i as int]) is None ==> r == Err::<u64, ModelError>(ModelError::ShapeMismatch)
                && final(self)@ == old(self)@,
            old(self)@.entity_of(host@[i as int].identity) is None && old(self).entity_bound() < u64::MAX
                && flat_and_free(old(self)@, host@[i as int]) ==> r is Ok && final(self).entity_bound()
                == old(self).entity_bound() + 1 && !old(self)@.live(r->Ok_0) && final(self)@.entities[r->Ok_0].parent
                is None,
            shallow_and_free(old(self)@, host@, i as nat) && old(self).entity_bound() + instance_regs(
                host@[i as int],
            )->Some_0.len() + 1 < u64::MAX ==> r is Ok,
        decreases i,
    {
        let ghost v0 = self@;
        let ghost was = registered(v0, host@, i as nat);
        let ghost pb = self.param_bound();
        let inst = &host[i];
        let found = match instance_walk(inst) {
            Some(f) => f,
            None => {
                return Err(ModelError::ShapeMismatch);
            },
        };
        let ghost rs = regs_view(found@);
        let ghost fresh = v0.entity_of(inst.identity) is None && self.entity_bound() < u64::MAX && flat_and_free(v0, *inst);
        let ghost shallow = shallow_and_free(v0, host@, i as nat) && self.entity_bound() + rs.len() + 1 < u64::MAX;
        let ghost free = fresh || shallow;
        let ghost deep = tree_shape_ok(host@, i as nat) && tree_state_free(v0, host@, i as nat) && self.entity_bound()
            + tree_size(host@, i as nat) <= u64::MAX;
        proof {
            if deep {
                assert(descendant(host@, i as nat, i as nat));
                assert(identity_below(host@, i as nat, inst.identity));
                assert(tree_size(host@, i as nat) >= 1);
            }
        }
        let e = match self.entity_for(inst.identity) {
            Ok(e) => e,
            Err(x) => {
                return Err(x);
            },
        };
        proof {
            if fresh {
                assert(!v0.live(e)) by {
                    if v0.live(e) {
                        old(self).lemma_live_below(e);
                    }
                }
            }
            assert forall|x: u64, n: Seq<char>, leaf: bool| #[trigger] gained(v0, self@, x, n, leaf) implies sourced(
                self@,
                host@,
                i as nat,
                x,
                n,
                leaf,
            ) by {
                if x != e {
                    assert(v0.live(x));
                }
            }
            assert forall|id: u64| #[trigger] self@.entity_of(id) is Some && v0.entity_of(id) is None implies identity_below(
                host@,
                i as nat,
                id,
            ) by {
                if id != inst.identity {
                    old(self).lemma_slot_below(id);
                }
                assert(id == inst.identity);
                assert(descendant(host@, i as nat, i as nat));
            }
            if fresh {
                lemma_flat_is_shallow(v0, host@, i as nat);
            }
            if free {
                assert(!v0.live(e)) by {
                    if v0.live(e) {
                        old(self).lemma_live_below(e);
                    }
                }
                law_unique_path_names(*inst);
                assert forall|id: u64| #[trigger] self@.entity_of(id) is Some && v0.entity_of(id) is None implies id
                    == inst.identity by {
                    if id != inst.identity {
                        old(self).lemma_slot_below(id);
                    }
                }
                assert forall|q: int| 0 <= q < rs.len() implies !self@.name_taken(e, #[trigger] rs[q].0) && (rs[q].1 is Leaf
                    ==> !self@.held(rs[q].1->Leaf_0)) && (rs[q].1 is Branch ==> flat_and_free(
                    self@,
                    host@[rs[q].1->Branch_0 as int],
                ) && self@.entity_of(host@[rs[q].1->Branch_0 as int].identity) is None) by {
                    assert(instance_regs(host@[i as int])->Some_0[q] == rs[q]);
                    if rs[q].1 is Branch {
                        let b = rs[q].1->Branch_0 as nat;
                        lemma_flat_free_moves(v0, self@, host@[b as int]);
                    }
                }
                assert(shallow_rest(self@, host@, e, rs, 0));
            }
            assert forall|id: u64| #[trigger] self@.entity_of(id) is Some && v0.entity_of(id) is None implies !v0.live(
                self@.entity_of(id)->Some_0,
            ) by {
                if id != inst.identity {
                    old(self).lemma_slot_below(id);
                }
                if v0.live(e) {
                    old(self).lemma_live_below(e);
                }
            }
            if deep {
                assert(!v0.live(e)) by {
                    if v0.live(e) {
                        old(self).lemma_live_below(e);
                    }
                }
                law_unique_path_names(*inst);
                assert forall|q: int| 0 <= q < rs.len() implies !self@.name_taken(e, #[trigger] rs[q].0) && (rs[q].1 is Leaf
                    ==> !self@.held(rs[q].1->Leaf_0)) && (rs[q].1 is Branch ==> tree_state_free(
                    self@,
                    host@,
                    rs[q].1->Branch_0 as nat,
                )) by {
                    assert(instance_regs(host@[i as int])->Some_0[q] == rs[q]);
                    assert(descendant(host@, i as nat, i as nat));
                    if rs[q].1 is Leaf {
                        assert(handle_below(host@, i as nat, rs[q].1->Leaf_0));
                    }
                    if rs[q].1 is Branch {
                        let b = rs[q].1->Branch_0 as nat;
                        assert forall|id: u64| #[trigger] identity_below(host@, b, id) implies self@.entity_of(id) is None by {
                            let j = choose|j: nat| #[trigger] descendant(host@, b, j) && j < host@.len() && host@[j as int].identity == id;
                            lemma_descendant_through(host@, i as nat, q, j);
                            assert(identity_below(host@, i as nat, id));
                            if id != inst.identity && v0.slots.contains_key(id) {
                                old(self).lemma_slot_below(id);
                            }
                        }
                        assert forall|x: u64| #[trigger] handle_below(host@, b, x) implies !self@.held(x) by {
                            let j = choose|j: nat| #[trigger] descendant(host@, b, j) && j < host@.len() && instance_regs(host@[j as int]) is Some
                                && exists|qq: int| 0 <= qq < instance_regs(host@[j as int])->Some_0.len() && (#[trigger] instance_regs(host@[j as int])->Some_0[qq]).1
                                    == Target::Leaf(x);
                            lemma_descendant_through(host@, i as nat, q, j);
                            assert(handle_below(host@, i as nat, x));
                        }
                    }
                }
                assert(deep_rest(self@, host@, e, rs, 0));
                assert(self@.entities[e].params.dom() =~= names_upto(rs, 0, true));
                assert(self@.entities[e].subs.dom() =~= names_upto(rs, 0, false));
            }
        }
        let mut k: usize = 0;
        while k < found.len()
            invariant
                self.wf(),
                i < host@.len(),
                *inst == host@[i as int],
                rs == regs_view(found@),
                rs.len() == found@.len(),
                instance_regs(host@[i as int]) == Some(rs),
                0 <= k <= rs.len(),
                v0 == old(self)@,
                pb == old(self).param_bound(),
                gains_sourced(v0, self@, host@, i as nat),
                fresh ==> self.entity_bound() == old(self).entity_bound() + 1,
                shallow == (shallow_and_free(old(self)@, host@, i as nat) && old(self).entity_bound() + instance_regs(
                    host@[i as int],
                )->Some_0.len() + 1 < u64::MAX),
                shallow ==> !v0.live(e) && self.entity_bound() <= old(self).entity_bound() + 1 + k,
                free == (fresh || shallow),
                claims_fresh(v0, self@),
                deep == (tree_shape_ok(host@, i as nat) && tree_state_free(old(self)@, host@, i as nat) && old(self).entity_bound()
                    + tree_size(host@, i as nat) <= u64::MAX),
                deep ==> !v0.live(e) && self@.entities[e].parent is None,
                deep ==> self.entity_bound() <= old(self).entity_bound() + 1 + branch_size(host@, i as nat, k as nat),
                deep ==> forall|x: u64| #[trigger] v0.live(x) ==> self@.entities[x].parent == v0.entities[x].parent,
                deep ==> forall|a: int, b: int| 0 <= a < b < rs.len() ==> #[trigger] rs[a].0 != #[trigger] rs[b].0,
                deep ==> deep_rest(self@, host@, e, rs, k as int),
                deep ==> self@.entities[e].params.dom() == names_upto(rs, k as int, true),
                deep ==> self@.entities[e].subs.dom() == names_upto(rs, k as int, false),
                free ==> forall|a: int, b: int| 0 <= a < b < rs.len() ==> #[trigger] rs[a].0 != #[trigger] rs[b].0,
                free ==> shallow_and_free(v0, host@, i as nat),
                free ==> shallow_rest(self@, host@, e, rs, k as int),
                fresh ==> !v0.live(e) && self@.entities[e].parent is None,
                claims_sourced(v0, self@, host@, i as nat),
                v0.grows(self@),
                self.param_bound() == pb,
                self@.entity_of(inst.identity) == Some(e),
                self@.live(e),
                was == registered(v0, host@, i as nat),
                was ==> self@ == v0 && v0.entity_of(inst.identity) == Some(e),
                forall|q: int| 0 <= q < k ==> #[trigger] bound_at(self@, host@, i as nat, e, rs[q]),
                fresh ==> flat_and_free(v0, *inst),
                fresh == (old(self)@.entity_of(host@[i as int].identity) is None && old(self).entity_bound() < u64::MAX
                    && flat_and_free(old(self)@, host@[i as int])),
                forall|q: int| 0 <= q < k && #[trigger] rs[q].1 is Branch && rs[q].1->Branch_0 < i ==> registered(
                    self@,
                    host@,
                    rs[q].1->Branch_0 as nat,
                ),
            decreases rs.len() - k,
        {
            let ghost before = self@;
            let reg = &found[k];
            assert(rs[k as int] == reg@);
            proof {
                if was {
                    assert(registered(v0, host@, i as nat));
                    assert(bound_at(v0, host@, i as nat, v0.entity_of(host@[i as int].identity)->Some_0,
                        instance_regs(host@[i as int])->Some_0[k as int]));
                    assert(bound_at(v0, host@, i as nat, e, rs[k as int]));
                    if rs[k as int].1 is Branch {
                        assert(instance_regs(host@[i as int])->Some_0[k as int].1 is Branch);
                        assert(registered(v0, host@, rs[k as int].1->Branch_0 as nat));
                    }
                }
            }
            match reg.target {
                Target::Leaf(h) => {
                    proof {
                        if deep {
                            assert(!self@.name_taken(e, rs[k as int].0));
                            assert(rs[k as int].1 == Target::Leaf(h));
                            assert(!before.entities[e].params.contains_key(reg.name@));
                            assert(before.add_parameter_result(e, reg.name@, h) is Ok);
                        }
                        if free {
                            assert(!self@.name_taken(e, rs[k as int].0));
                            assert(rs[k as int].1 == Target::Leaf(h));
                            assert(!before.entities[e].params.contains_key(reg.name@));
                            assert(before.add_parameter_result(e, reg.name@, h) is Ok);
                        }
                    }
                    match self.add_parameter_to(e, reg.name.as_str(), h) {
                        Ok(()) => {},
                        Err(x) => {
                            return Err(x);
                        },
                    }
                    proof {
                        if !before.entities[e].params.contains_key(reg.name@) {
                            before.lemma_with_parameter_grows(e, reg.name@, h);
                        } else {
                            before.lemma_grows_refl();
                        }
                        assert(before.grows(self@));
                        v0.lemma_grows_trans(before, self@);
                        assert forall|x: u64, n: Seq<char>, leaf: bool| #[trigger] gained(before, self@, x, n, leaf)
                            implies sourced(self@, host@, i as nat, x, n, leaf) by {
                            assert(x == e && n == reg.name@ && leaf);
                            assert(instance_regs(host@[i as int])->Some_0[k as int] == rs[k as int]);
                            assert(declares(host@, i as nat, n, leaf));
                            assert(descendant(host@, i as nat, i as nat));
                        }
                        lemma_gains_step(v0, before, self@, host@, i as nat);
                        assert forall|h2: u64| #[trigger] self@.held(h2) && !before.held(h2) implies handle_below(
                            host@,
                            i as nat,
                            h2,
                        ) by {
                            assert(h2 == h);
                            assert(instance_regs(host@[i as int])->Some_0[k as int] == rs[k as int]);
                            assert(descendant(host@, i as nat, i as nat));
                        }
                        assert(claims_sourced(before, self@, host@, i as nat));
                        lemma_claims_step(v0, before, self@, host@, i as nat);
                        assert forall|id: u64| #[trigger] self@.entity_of(id) is Some && v0.entity_of(id) is None implies !v0.live(
                            self@.entity_of(id)->Some_0,
                        ) by {
                            assert(self@.entity_of(id) == before.entity_of(id));
                        }
                        if deep {
                            assert(self@ == before.with_parameter(e, reg.name@, h));
                            lemma_deep_leaf(before, self@, host@, i as nat, e, rs, k as int, h);
                            assert forall|n: Seq<char>| #[trigger] names_upto(rs, k + 1, true).contains(n) <==> (names_upto(
                                rs,
                                k as int,
                                true,
                            ).contains(n) || n == rs[k as int].0) by {
                                if names_upto(rs, k + 1, true).contains(n) && n != rs[k as int].0 {
                                    let q = choose|q: int| 0 <= q < k + 1 && (#[trigger] rs[q]).0 == n && (rs[q].1 is Leaf) == true;
                                    assert(names_upto(rs, k as int, true).contains(n));
                                }
                                if n == rs[k as int].0 {
                                    assert(rs[k as int].1 is Leaf);
                                }
                            }
                            assert forall|n: Seq<char>| #[trigger] names_upto(rs, k + 1, false).contains(n) <==> names_upto(
                                rs,
                                k as int,
                                false,
                            ).contains(n) by {
                                if names_upto(rs, k + 1, false).contains(n) {
                                    let q = choose|q: int| 0 <= q < k + 1 && (#[trigger] rs[q]).0 == n && (rs[q].1 is Leaf) == false;
                                    assert(q != k);
                                }
                            }
                            assert(self@.entities[e].params.dom() =~= names_upto(rs, k + 1, true));
                            assert(self@.entities[e].subs.dom() =~= names_upto(rs, k + 1, false));
                            assert(branch_size(host@, i as nat, (k + 1) as nat) == branch_size(host@, i as nat, k as nat));
                        }
                        if free {
                            lemma_shallow_leaf(v0, before, self@, host@, i as nat, e, rs, k as int, h);
                        }
                    }
                },
                Target::Branch(j) => {
                    proof {
                        if fresh {
                            assert(rs[k as int].1 is Leaf);
                        }
                    }
                    proof {
                        if deep {
                            assert(instance_regs(host@[i as int])->Some_0[k as int] == rs[k as int]);
                            assert(j < i);
                            assert(tree_shape_ok(host@, j as nat));
                            assert(tree_state_free(before, host@, j as nat));
                            assert(branch_size(host@, i as nat, (k + 1) as nat) == branch_size(host@, i as nat, k as nat)
                                + tree_size(host@, j as nat));
                            lemma_branch_size_mono(host@, i as nat, (k + 1) as nat, rs.len());
                            assert(tree_size(host@, i as nat) == 1 + branch_size(host@, i as nat, rs.len()));
                        }
                        if shallow {
                            assert(instance_regs(host@[i as int])->Some_0[k as int] == rs[k as int]);
                            assert(j < i);
                            assert(!self@.name_taken(e, rs[k as int].0));
                        }
                    }
                    if j >= i {
                        return Err(ModelError::UnorderedHost);
                    }
                    let rj = self.register(host, j);
                    let ghost mid = self@;
                    proof {
                        v0.lemma_grows_trans(before, mid);
                        assert forall|x: u64, n: Seq<char>, leaf: bool| #[trigger] gained(before, mid, x, n, leaf)
                            implies sourced(mid, host@, i as nat, x, n, leaf) by {
                            assert(sourced(mid, host@, j as nat, x, n, leaf));
                            let jj = choose|jj: nat| #[trigger] descendant(host@, j as nat, jj) && mid.entity_of(
                                host@[jj as int].identity,
                            ) == Some(x) && declares(host@, jj, n, leaf);
                            assert(instance_regs(host@[i as int])->Some_0[k as int] == rs[k as int]);
                            lemma_descendant_through(host@, i as nat, k as int, jj);
                            assert(descendant(host@, i as nat, jj));
                        }
                        lemma_gains_step(v0, before, mid, host@, i as nat);
                        assert(instance_regs(host@[i as int])->Some_0[k as int] == rs[k as int]);
                        lemma_claims_through(before, mid, host@, i as nat, k as int);
                        lemma_claims_step(v0, before, mid, host@, i as nat);
                    }
                    let c = match rj {
                        Ok(c) => c,
                        Err(x) => {
                            return Err(x);
                        },
                    };
                    proof {
                        if deep {
                            assert(mid.entity_of(host@[j as int].identity) == Some(c));
                            lemma_deep_child_keeps(before, mid, host@, j as nat, e);
                            assert(c != e);
                            assert(!mid.name_taken(e, reg.name@));
                            assert(!mid.attached(c));
                            assert(mid.add_submodel_result(e, reg.name@, c) is Ok);
                        }
                        if shallow {
                            assert(mid.entity_of(host@[j as int].identity) == Some(c));
                            lemma_leafy_child(before, mid, host@, j as nat, c, e);
                            assert(c != e);
                            assert(!mid.name_taken(e, reg.name@));
                            assert(!mid.attached(c));
                            assert(mid.add_submodel_result(e, reg.name@, c) is Ok);
                        }
                    }
                    match self.add_submodel_to(e, reg.name.as_str(), c) {
                        Ok(()) => {},
                        Err(x) => {
                            return Err(x);
                        },
                    }
                    proof {
                        if !(mid.entities[e].subs.contains_key(reg.name@) && mid.entities[e].subs[reg.name@] == c
                            && mid.entities[c].parent == Some(e)) {
                            mid.lemma_with_submodel_grows(e, reg.name@, c);
                        } else {
                            mid.lemma_grows_refl();
                        }
                        assert(mid.grows(self@));
                        v0.lemma_grows_trans(mid, self@);
                        before.lemma_grows_trans(mid, self@);
                        lemma_registered_grows(mid, self@, host@, j as nat);
                        assert forall|x: u64, n: Seq<char>, leaf: bool| #[trigger] gained(mid, self@, x, n, leaf)
                            implies sourced(self@, host@, i as nat, x, n, leaf) by {
                            assert(x == e && n == reg.name@ && !leaf);
                            assert(instance_regs(host@[i as int])->Some_0[k as int] == rs[k as int]);
                            assert(declares(host@, i as nat, n, leaf));
                            assert(descendant(host@, i as nat, i as nat));
                        }
                        lemma_gains_step(v0, mid, self@, host@, i as nat);
                        assert(claims_sourced(mid, self@, host@, i as nat));
                        lemma_claims_step(v0, mid, self@, host@, i as nat);
                        assert forall|id: u64| #[trigger] self@.entity_of(id) is Some && v0.entity_of(id) is None implies !v0.live(
                            self@.entity_of(id)->Some_0,
                        ) by {
                            assert(self@.entity_of(id) == mid.entity_of(id));
                            if before.entity_of(id) is None {
                                assert(!before.live(mid.entity_of(id)->Some_0));
                            } else {
                                assert(mid.entity_of(id) == before.entity_of(id));
                            }
                        }
                        if deep {
                            assert(self@ == mid.with_submodel(e, reg.name@, c));
                            lemma_deep_child_keeps(before, mid, host@, j as nat, e);
                            lemma_deep_branch(before, mid, self@, host@, i as nat, e, rs, k as int, c);
                            assert forall|n: Seq<char>| #[trigger] names_upto(rs, k + 1, false).contains(n) <==> (names_upto(
                                rs,
                                k as int,
                                false,
                            ).contains(n) || n == rs[k as int].0) by {
                                if names_upto(rs, k + 1, false).contains(n) && n != rs[k as int].0 {
                                    let q = choose|q: int| 0 <= q < k + 1 && (#[trigger] rs[q]).0 == n && (rs[q].1 is Leaf) == false;
                                    assert(names_upto(rs, k as int, false).contains(n));
                                }
                                if n == rs[k as int].0 {
                                    assert(rs[k as int].1 is Branch);
                                }
                            }
                            assert forall|n: Seq<char>| #[trigger] names_upto(rs, k + 1, true).contains(n) <==> names_upto(
                                rs,
                                k as int,
                                true,
                            ).contains(n) by {
                                if names_upto(rs, k + 1, true).contains(n) {
                                    let q = choose|q: int| 0 <= q < k + 1 && (#[trigger] rs[q]).0 == n && (rs[q].1 is Leaf) == true;
                                    assert(q != k);
                                }
                            }
                            assert(self@.entities[e].params.dom() =~= names_upto(rs, k + 1, true));
                            assert(self@.entities[e].subs.dom() =~= names_upto(rs, k + 1, false));
                            assert forall|x: u64| #[trigger] v0.live(x) implies self@.entities[x].parent == v0.entities[x].parent by {
                                assert(before.live(x));
                                assert(mid.entities[x].parent == before.entities[x].parent);
                            }
                        }
                        if shallow {
                            lemma_shallow_branch(v0, before, mid, self@, host@, i as nat, e, rs, k as int, c);
                        }
                    }
                },
            }
            proof {
                assert forall|q: int| 0 <= q < k + 1 implies #[trigger] bound_at(self@, host@, i as nat, e, rs[q]) by {
                    if q < k {
                        assert(bound_at(before, host@, i as nat, e, rs[q]));
                        lemma_bound_grows(before, self@, host@, i as nat, e, rs[q]);
                    }
                }
                assert forall|q: int| 0 <= q < k + 1 && #[trigger] rs[q].1 is Branch && rs[q].1->Branch_0 < i implies registered(
                    self@,
                    host@,
                    rs[q].1->Branch_0 as nat,
                ) by {
                    if q < k {
                        lemma_registered_grows(before, self@, host@, rs[q].1->Branch_0 as nat);
                    }
                }
            }
            k = k + 1;
        }
        assert(registered(self@, host@, i as nat));
        proof {
            if deep {
                assert(names_upto(rs, rs.len() as int, true) =~= Set::new(|n: Seq<char>| declares(host@, i as nat, n, true)));
                assert(names_upto(rs, rs.len() as int, false) =~= Set::new(|n: Seq<char>| declares(host@, i as nat, n, false)));
            }
        }
        Ok(e)
    }
}

/// A model that holds nothing of its own: it stands for an entity reached
/// through another model, under an identity of its own that does not own
/// that entity.
#[derive(Debug)]
pub struct AnyModel {
    identity: u64,
}

impl AnyModel {
    pub closed spec fn view(&self) -> u64 {
        self.identity
    }

    /// The identity this model is registered under.
    pub fn identifier(&self) -> (r: u64)
        ensures
            r == self@,
    {
        self.identity
    }
}

impl Registry {
    /// The entity of `identity`, created if there is none; `Exhausted` when
    /// one would be created and there is no room.
    pub fn entity_for(&mut self, identity: u64) -> (r: Result<u64, ModelError>)
        requires
            old(self).wf(),
        ensures
            final(self).wf(),
            old(self)@.grows(final(self)@),
            final(self).param_bound() == old(self).param_bound(),
            match r {
                Ok(e) => final(self)@.entity_of(identity) == Some(e) && (old(self)@.entity_of(identity) is Some
                    ==> final(self)@ == old(self)@ && final(self).entity_bound() == old(self).entity_bound()),
                Err(x) => x == ModelError::Exhausted && old(self)@.entity_of(identity) is None && final(self)@
                    == old(self)@ && old(self).entity_bound() == u64::MAX,
            },
            old(self)@.entity_of(identity) is None ==> (r is Ok <==> old(self).entity_bound() < u64::MAX),
            old(self)@.entity_of(identity) is None && r is Ok ==> final(self)@.entities == old(self)@.entities.insert(
                r->Ok_0,
                EntityView { params: Map::empty(), subs: Map::empty(), parent: None },
            ) && final(self)@.slots == old(self)@.slots.insert(identity, (r->Ok_0, true)) && r->Ok_0
                == old(self).entity_bound() && final(self).entity_bound() == old(self).entity_bound() + 1
                && final(self)@.owners == old(self)@.owners && (forall|h: u64| #[trigger] final(self)@.held(h)
                <==> old(self)@.held(h)),
    {
        match self.entity_of(identity) {
            Some(e) => {
                proof { self@.lemma_grows_refl(); }
                Ok(e)
            },
            None => {
                if !self.has_room() {
                    proof { self@.lemma_grows_refl(); }
                    return Err(ModelError::Exhausted);
                }
                let e = self.get_or_create(identity);
                proof {
                    assert forall|h: u64| #[trigger] self@.held(h) <==> old(self)@.held(h) by {
                        if self@.held(h) && !old(self)@.held(h) {
                            old(self).lemma_owner_below(h);
                        }
                    }
                }
                Ok(e)
            },
        }
    }

    /// A new parameter, owned by the caller; `None` when handles have run out.
    pub fn new_parameter(&mut self) -> (r: Option<Parameter>)
        requires
            old(self).wf(),
        ensures
            final(self).wf(),
            final(self)@ == old(self)@,
            old(self).param_bound() < u64::MAX ==> (r matches Some(p) && p@ == old(self).param_bound()
                && p.owns() && final(self).param_bound() == old(self).param_bound() + 1),
            old(self).param_bound() == u64::MAX ==> r is None,
    {
        match self.new_parameter_handle() {
            Some(h) => {
                let p = Parameter::from_raw(h, true);
                assert(p@ == p.raw()) by { p.lemma_raw_is_view(); }
                Some(p)
            },
            None => None,
        }
    }

    /// Binds `param` under `name` in the entity of `identity`, which is
    /// created if there is none.
    pub fn add_parameter(&mut self, identity: u64, name: &str, param: &Parameter) -> (r: Result<(), ModelError>)
        requires
            old(self).wf(),
        ensures
            final(self).wf(),
            old(self)@.grows(final(self)@),
            r is Ok ==> (final(self)@.entity_of(identity) matches Some(e) && final(self)@.entities[e].params.contains_key(name@)
                && final(self)@.entities[e].params[name@] == param@),
            old(self)@.entity_of(identity) matches Some(e) ==> r == old(self)@.add_parameter_result(e, name@, param@)
                && final(self)@ == (if r is Ok && !old(self)@.entities[e].params.contains_key(name@) {
                old(self)@.with_parameter(e, name@, param@)
            } else {
                old(self)@
            }),
            old(self)@.entity_of(identity) is None ==> (r is Ok <==> (old(self).entity_bound() < u64::MAX
                && !old(self)@.held(param@))),
    {
        let e = match self.entity_for(identity) {
            Ok(e) => e,
            Err(x) => {
                return Err(x);
            },
        };
        let ghost mid = self@;
        proof {
            if old(self)@.entity_of(identity) is None {
                assert(mid.entities[e].params == Map::<Seq<char>, u64>::empty());
                assert(mid.held(param@) == old(self)@.held(param@));
            }
        }
        let r = self.add_parameter_to(e, name, param.handle());
        proof {
            if r is Ok && !mid.entities[e].params.contains_key(name@) {
                mid.lemma_with_parameter_grows(e, name@, param@);
            } else {
                mid.lemma_grows_refl();
            }
            old(self)@.lemma_grows_trans(mid, self@);
            if r is Ok {
                assert(self@.entity_of(identity) == Some(e)) by {
                    assert(mid.entity_of(identity) == Some(e));
                }
            }
        }
        r
    }

    /// Attaches the entity of `child` under `name` to the entity of
    /// `identity`; both are created if there are none.
    pub fn add_submodel(&mut self, identity: u64, name: &str, child: u64) -> (r: Result<(), ModelError>)
        requires
            old(self).wf(),
        ensures
            final(self).wf(),
            old(self)@.grows(final(self)@),
            r is Ok ==> (final(self)@.entity_of(identity) matches Some(e) && final(self)@.entities[e].subs.contains_key(name@)
                && final(self)@.entity_of(child) == Some(final(self)@.entities[e].subs[name@])
                && final(self)@.entities[final(self)@.entities[e].subs[name@]].parent == Some(e)),
            old(self)@.entity_of(identity) is Some && old(self)@.entity_of(child) is Some ==> ({
                let e = old(self)@.entity_of(identity)->Some_0;
                let c = old(self)@.entity_of(child)->Some_0;
                &&& r == old(self)@.add_submodel_result(e, name@, c)
                &&& final(self)@ == (if r is Ok && !(old(self)@.entities[e].subs.contains_key(name@)
                    && old(self)@.entities[e].subs[name@] == c && old(self)@.entities[c].parent == Some(e)) {
                    old(self)@.with_submodel(e, name@, c)
                } else {
                    old(self)@
                })
            }),
            old(self)@.entity_of(identity) is None && old(self)@.entity_of(child) is None && identity != child
                && old(self).entity_bound() + 1 < u64::MAX ==> r is Ok,
            old(self)@.entity_of(identity) is None && old(self)@.entity_of(child) is Some && !old(self)@.attached(
                old(self)@.entity_of(child)->Some_0,
            ) && old(self).entity_bound() < u64::MAX ==> r is Ok,
            old(self)@.entity_of(identity) is Some && old(self)@.entity_of(child) is None && !old(self)@.name_taken(
                old(self)@.entity_of(identity)->Some_0,
                name@,
            ) && old(self).entity_bound() < u64::MAX ==> r is Ok,
    {
        let c = match self.entity_for(child) {
            Ok(c) => c,
            Err(x) => {
                return Err(x);
            },
        };
        let ghost m1 = self@;
        let e = match self.entity_for(identity) {
            Ok(e) => e,
            Err(x) => {
                proof { old(self)@.lemma_grows_trans(m1, self@); }
                return Err(x);
            },
        };
        let ghost m2 = self@;
        proof { old(self)@.lemma_grows_trans(m1, m2); }
        assert(m2.entity_of(child) == Some(c));
        proof {
            let v = old(self)@;
            if v.entity_of(identity) is None && v.entity_of(child) is None && identity != child {
                if v.slots.contains_key(identity) {
                    old(self).lemma_slot_below(identity);
                }
                assert(m1.entity_of(identity) is None);
                assert(c != e);
                assert(m2.entities[c].parent is None);
                assert(m2.entities[e].subs == Map::<Seq<char>, u64>::empty());
                assert(m2.entities[e].params == Map::<Seq<char>, u64>::empty());
            }
            if v.entity_of(identity) is None && v.entity_of(child) is Some && !v.attached(c) {
                old(self).lemma_live_below(c);
                assert(c != e);
                assert(m2.entities[e].subs == Map::<Seq<char>, u64>::empty());
                assert(m2.entities[e].params == Map::<Seq<char>, u64>::empty());
                if v.entities[c].parent is Some {
                    old(self).lemma_parent_below(c);
                }
                assert(!m2.attached(c));
            }
            if v.entity_of(identity) is Some && v.entity_of(child) is None && !v.name_taken(e, name@) {
                old(self).lemma_live_below(e);
                assert(c != e);
                assert(m2.entities[e] == v.entities[e]);
                assert(m2.entities[c].parent is None);
            }
        }
        let r = self.add_submodel_to(e, name, c);
        proof {
            if r is Ok && !(m2.entities[e].subs.contains_key(name@) && m2.entities[e].subs[name@] == c
                && m2.entities[c].parent == Some(e)) {
                m2.lemma_with_submodel_grows(e, name@, c);
            } else {
                m2.lemma_grows_refl();
            }
            old(self)@.lemma_grows_trans(m2, self@);
            if r is Ok {
                assert(m2.entity_of(identity) == Some(e));
                assert(self@.entity_of(identity) == Some(e));
                assert(self@.entity_of(child) == Some(c));
            }
        }
        r
    }

    /// The parameter bound under `name` in the entity of `identity`.
    pub fn get_parameter(&self, identity: u64, name: &str) -> (r: Option<Parameter>)
        requires
            self.wf(),
        ensures
            match self@.entity_of(identity) {
                Some(e) => match r {
                    Some(p) => self@.entities[e].params.contains_key(name@) && p@ == self@.entities[e].params[name@]
                        && !p.owns(),
                    None => !self@.entities[e].params.contains_key(name@),
                },
                None => r is None,
            },
    {
        let names: [&str; 1] = [name];
        let r = self.find_parameter(identity, names.as_slice());
        proof {
            let p = segments(names@);
            assert(p.drop_last() =~= Seq::<Seq<char>>::empty());
            assert(p.last() == name@);
        }
        r
    }

    /// The parameter at the path `names` below the entity of `identity`.
    pub fn find_parameter(&self, identity: u64, names: &[&str]) -> (r: Option<Parameter>)
        requires
            self.wf(),
        ensures
            match self@.entity_of(identity) {
                Some(e) => match r {
                    Some(p) => self@.find_param(e, segments(names@)) == Some(p@) && !p.owns(),
                    None => self@.find_param(e, segments(names@)) is None,
                },
                None => r is None,
            },
    {
        match self.entity_of(identity) {
            Some(e) => match self.find_parameter_in(e, names) {
                Some(h) => {
                    let p = Parameter::from_raw(h, false);
                    assert(p@ == p.raw()) by { p.lemma_raw_is_view(); }
                    Some(p)
                },
                None => None,
            },
            None => None,
        }
    }

    /// The submodel at the path `names` below the entity of `identity`, made
    /// reachable under `handle`, an identity that does not own it. A handle
    /// that owns a live entity is left in place: `None`, nothing changes.
    pub fn find_submodel(&mut self, identity: u64, names: &[&str], handle: u64) -> (r: Option<AnyModel>)
        requires
            old(self).wf(),
        ensures
            final(self).wf(),
            old(self)@.owns_live(handle) ==> r is None && final(self)@ == old(self)@,
            !old(self)@.owns_live(handle) ==> (match old(self)@.entity_of(identity) {
                    Some(e) => match old(self)@.find_sub(e, segments(names@)) {
                        Some(c) => r matches Some(m) && m@ == handle && final(self)@ == old(self)@.adopt(handle, c),
                        None => r is None && final(self)@ == old(self)@,
                    },
                    None => r is None && final(self)@ == old(self)@,
                }),
    {
        if self.owns_live(handle) {
            return None;
        }
        match self.entity_of(identity) {
            Some(e) => match self.find_submodel_in(e, names) {
                Some(c) => {
                    proof { self@.lemma_find_live(e, segments(names@)); }
                    match self.insert(handle, c, false) {
                        Ok(()) => Some(AnyModel { identity: handle }),
                        Err(_) => None,
                    }
                },
                None => None,
            },
            None => None,
        }
    }

    /// The submodel bound under `name` in the entity of `identity`, made
    /// reachable under `handle`, an identity that does not own it. A handle
    /// that owns a live entity is left in place: `None`, nothing changes.
    pub fn get_submodel(&mut self, identity: u64, name: &str, handle: u64) -> (r: Option<AnyModel>)
        requires
            old(self).wf(),
        ensures
            final(self).wf(),
            old(self)@.owns_live(handle) ==> r is None && final(self)@ == old(self)@,
            !old(self)@.owns_live(handle) ==> (match old(self)@.entity_of(identity) {
                    Some(e) => if old(self)@.entities[e].subs.contains_key(name@) && old(self)@.live(
                        old(self)@.entities[e].subs[name@],
                    ) {
                        r matches Some(m) && m@ == handle && final(self)@ == old(self)@.adopt(
                            handle,
                            old(self)@.entities[e].subs[name@],
                        )
                    } else {
                        r is None && final(self)@ == old(self)@
                    },
                    None => r is None && final(self)@ == old(self)@,
                }),
    {
        let names: [&str; 1] = [name];
        proof {
            let p = segments(names@);
            assert(p.drop_first() =~= Seq::<Seq<char>>::empty());
            assert(p[0] == name@);
            if let Some(e) = old(self)@.entity_of(identity) {
                if old(self)@.entities[e].subs.contains_key(name@) {
                    let c = old(self)@.entities[e].subs[name@];
                    assert(old(self)@.find_entity(c, p.drop_first()) == if old(self)@.live(c) { Some(c) } else { None });
                }
            }
        }
        self.find_submodel(identity, names.as_slice(), handle)
    }

    /// Forgets `identity`, releasing the entity it owns.
    pub fn invalidate(&mut self, identity: u64)
        requires
            old(self).wf(),
        ensures
            final(self).wf(),
            final(self)@ == old(self)@.without(identity),
            final(self).param_bound() == old(self).param_bound(),
            final(self).entity_bound() == old(self).entity_bound(),
    {
        self.remove(identity);
    }
}

proof fn lemma_entries_under(defs: Seq<FieldDef>, plan: Seq<PlanEntry>, vals: Seq<Value>, n: nat)
    requires
        separated(plan),
    ensures
        entries_regs(defs, plan, vals, n) matches Some(s) ==> forall|k: int, m: int|
            0 <= k < s.len() && n <= m < plan.len() ==> !#[trigger] under(s[k].0, plan[m].1),
    decreases n,
{
    if n > 0 && n <= plan.len() {
        lemma_entries_under(defs, plan, vals, (n - 1) as nat);
        let e = plan[n - 1];
        if entries_regs(defs, plan, vals, n) is Some {
            let s = entries_regs(defs, plan, vals, n)->Some_0;
            let before = entries_regs(defs, plan, vals, (n - 1) as nat)->Some_0;
            let here = regs(defs[e.0 as int].ty, e.2, vals[e.0 as int], e.1)->Some_0;
            lemma_regs_under(defs[e.0 as int].ty, e.2, vals[e.0 as int], e.1);
            assert(s == before + here);
            assert forall|k: int, m: int| 0 <= k < s.len() && n <= m < plan.len() implies !#[trigger] under(s[k].0, plan[m].1) by {
                if k >= before.len() {
                    assert(s[k] == here[k - before.len()]);
                    assert(under(s[k].0, plan[n - 1].1));
                } else {
                    assert(s[k] == before[k]);
                }
            }
        }
    }
}

/// The path names a structure registers are pairwise different when its
/// plan entries are separated.
proof fn lemma_entries_distinct(defs: Seq<FieldDef>, plan: Seq<PlanEntry>, vals: Seq<Value>, n: nat)
    requires
        separated(plan),
    ensures
        entries_regs(defs, plan, vals, n) matches Some(s) ==> forall|a: int, b: int|
            0 <= a < b < s.len() ==> #[trigger] s[a].0 != #[trigger] s[b].0,
    decreases n,
{
    if n > 0 && n <= plan.len() {
        lemma_entries_distinct(defs, plan, vals, (n - 1) as nat);
        lemma_entries_under(defs, plan, vals, (n - 1) as nat);
        let e = plan[n - 1];
        if entries_regs(defs, plan, vals, n) is Some {
            let s = entries_regs(defs, plan, vals, n)->Some_0;
            let before = entries_regs(defs, plan, vals, (n - 1) as nat)->Some_0;
            let here = regs(defs[e.0 as int].ty, e.2, vals[e.0 as int], e.1)->Some_0;
            lemma_regs_under(defs[e.0 as int].ty, e.2, vals[e.0 as int], e.1);
            lemma_regs_distinct(defs[e.0 as int].ty, e.2, vals[e.0 as int], e.1);
            assert(s == before + here);
            assert forall|a: int, b: int| 0 <= a < b < s.len() implies #[trigger] s[a].0 != #[trigger] s[b].0 by {
                if b >= before.len() && a < before.len() {
                    assert(s[a] == before[a]);
                    assert(s[b] == here[b - before.len()]);
                    assert(under(here[b - before.len()].0, e.1));
                    assert(!under(before[a].0, plan[n - 1].1));
                } else if a >= before.len() {
                    assert(s[a] == here[a - before.len()]);
                    assert(s[b] == here[b - before.len()]);
                    assert(here[a - before.len()].0 != here[b - before.len()].0);
                } else {
                    assert(s[a] == before[a]);
                    assert(s[b] == before[b]);
                    assert(before[a].0 != before[b].0);
                }
            }
        }
    }
}

/// The plan of the active arm of a well-formed registrar is separated when
/// the type has plain field names.
proof fn lemma_arm_separated(inst: Instance)
    requires
        inst.registrar.wf(),
        plain_def(inst.registrar.def()),
        inst.variant < inst.registrar.arms().len(),
    ensures
        separated(inst.registrar.arms()[inst.variant as int]),
{
    let def = inst.registrar.def();
    let arms = inst.registrar.arms();
    match def.data {
        Data::Struct(f) => {
            assert(fields_plans(f, None) == Ok::<Seq<PlanEntry>, DeriveError>(arms[0]));
            assert(inst.variant == 0);
            match f {
                Fields::Named(v) => lemma_field_plans_separated(v@, true, None),
                Fields::Unnamed(v) => lemma_field_plans_separated(v@, false, None),
                Fields::Unit => {},
            }
        },
        Data::Enum(vs) => {
            let i = inst.variant as int;
            lemma_variant_plans_at(vs@, vs@.len(), i);
            let vd = vs@[i];
            assert(plain_record(vd.fields));
            match vd.fields {
                Fields::Named(v) => lemma_field_plans_separated(v@, true, Some(vd.ident@)),
                Fields::Unnamed(v) => lemma_field_plans_separated(v@, false, Some(vd.ident@)),
                Fields::Unit => {},
            }
        },
        Data::Union => {},
    }
}

/// Registering a structure names every leaf and every branch it holds by a
/// different path: the registrations of a structure whose type has plain
/// field names carry pairwise different path names, so a structure with N
/// leaves and M branches gives N + M distinct names.
pub proof fn law_unique_path_names(inst: Instance)
    requires
        inst.registrar.wf(),
        plain_def(inst.registrar.def()),
    ensures
        instance_regs(inst) matches Some(s) ==> forall|a: int, b: int|
            0 <= a < b < s.len() ==> #[trigger] s[a].0 != #[trigger] s[b].0,
{
    if instance_regs(inst) is Some {
        lemma_arm_separated(inst);
        let plan = inst.registrar.arms()[inst.variant as int];
        lemma_entries_distinct(arm_fields(inst.registrar.def(), inst.variant as nat), plan, inst.fields@, plan.len());
    }
}

proof fn lemma_entries_within(defs: Seq<FieldDef>, plan: Seq<PlanEntry>, vals: Seq<Value>, n: nat, p: Seq<char>)
    requires
        forall|k: int| 0 <= k < plan.len() ==> under(#[trigger] plan[k].1, p),
    ensures
        entries_regs(defs, plan, vals, n) matches Some(s) ==> forall|k: int| 0 <= k < s.len() ==> under(#[trigger] s[k].0, p),
    decreases n,
{
    if n > 0 && n <= plan.len() {
        lemma_entries_within(defs, plan, vals, (n - 1) as nat, p);
        let e = plan[n - 1];
        if entries_regs(defs, plan, vals, n) is Some {
            let s = entries_regs(defs, plan, vals, n)->Some_0;
            let before = entries_regs(defs, plan, vals, (n - 1) as nat)->Some_0;
            let here = regs(defs[e.0 as int].ty, e.2, vals[e.0 as int], e.1)->Some_0;
            lemma_regs_under(defs[e.0 as int].ty, e.2, vals[e.0 as int], e.1);
            assert(s == before + here);
            assert forall|k: int| 0 <= k < s.len() implies under(#[trigger] s[k].0, p) by {
                if k >= before.len() {
                    assert(s[k] == here[k - before.len()]);
                    lemma_under_trans(s[k].0, e.1, p);
                } else {
                    assert(s[k] == before[k]);
                }
            }
        }
    }
}

/// Registering an instance of an enum names everything below the active
/// variant's name: no path name of one variant is produced for another.
pub proof fn law_variant_scoped(inst: Instance, vs: Seq<VariantDef>)
    requires
        inst.registrar.wf(),
        inst.registrar.def().data matches Data::Enum(v) && v@ == vs,
    ensures
        instance_regs(inst) matches Some(s) ==> forall|k: int| 0 <= k < s.len() ==> under(
            #[trigger] s[k].0,
            vs[inst.variant as int].ident@,
        ),
{
    if instance_regs(inst) is Some {
        let i = inst.variant as int;
        let arms = inst.registrar.arms();
        lemma_variant_plans_at(vs, vs.len(), i);
        let vd = vs[i];
        let root = Some(vd.ident@);
        let plan = arms[i];
        let named = vd.fields is Named;
        let fields = fields_of(vd.fields);
        assert(fields_plans(vd.fields, root) == Ok::<Seq<PlanEntry>, DeriveError>(plan));
        if !(vd.fields is Unit) {
            assert(field_plans(fields, named, root, fields.len()) == Ok::<Seq<PlanEntry>, DeriveError>(plan));
            lemma_field_plans_names(fields, named, root, fields.len());
            let p = field_plans(fields, named, root, fields.len())->Ok_0;
            assert(p == plan);
            assert(forall|k: int| 0 <= k < p.len() ==> (#[trigger] p[k]).1 == root_prefix(root)
                + field_base(fields[p[k].0 as int], p[k].0, named));
        }
        assert forall|k: int| 0 <= k < plan.len() implies under(#[trigger] plan[k].1, vd.ident@) by {
            let b = field_base(fields[plan[k].0 as int], plan[k].0, named);
            assert(plan[k].1 == root_prefix(root) + b);
            assert(plan[k].1 =~= child_path(vd.ident@, b));
            lemma_under_child(plan[k].1, vd.ident@, b);
        }
        lemma_entries_within(arm_fields(inst.registrar.def(), inst.variant as nat), plan, inst.fields@, plan.len(), vd.ident@);
    }
}

/// After a successful registration into a new entity that no other
/// structure below shares, the entity binds exactly the structure's own
/// registrations: its leaves are exactly the leaf names and its branches
/// exactly the branch names the structure gives, nothing more.
pub proof fn law_exact_names(v0: RegistryView, host: Seq<Instance>, i: nat, e: u64, v1: RegistryView)
    requires
        registration_outcome(v0, host, i, Ok(e), v1),
        gains_sourced(v0, v1, host, i),
        !v0.live(e),
        forall|j: nat| #[trigger] descendant(host, i, j) && j != i && j < host.len() ==> v1.entity_of(
            host[j as int].identity,
        ) != Some(e),
    ensures
        v1.entities[e].params.dom() == Set::new(|n: Seq<char>| declares(host, i, n, true)),
        v1.entities[e].subs.dom() == Set::new(|n: Seq<char>| declares(host, i, n, false)),
{
    let rs = instance_regs(host[i as int])->Some_0;
    assert(registered(v1, host, i));
    assert(v1.live(e));
    assert forall|n: Seq<char>| v1.entities[e].params.contains_key(n) <==> declares(host, i, n, true) by {
        if v1.entities[e].params.contains_key(n) {
            assert(gained(v0, v1, e, n, true));
            let j = choose|j: nat| #[trigger] descendant(host, i, j) && v1.entity_of(host[j as int].identity) == Some(e)
                && declares(host, j, n, true);
        }
        if declares(host, i, n, true) {
            let q = choose|q: int| 0 <= q < rs.len() && (#[trigger] instance_regs(host[i as int])->Some_0[q]).0 == n
                && (instance_regs(host[i as int])->Some_0[q].1 is Leaf) == true;
            assert(v1.entity_of(host[i as int].identity) == Some(e));
            assert(bound_at(v1, host, i, v1.entity_of(host[i as int].identity)->Some_0, instance_regs(host[i as int])->Some_0[q]));
        }
    }
    assert forall|n: Seq<char>| v1.entities[e].subs.contains_key(n) <==> declares(host, i, n, false) by {
        if v1.entities[e].subs.contains_key(n) {
            assert(gained(v0, v1, e, n, false));
            let j = choose|j: nat| #[trigger] descendant(host, i, j) && v1.entity_of(host[j as int].identity) == Some(e)
                && declares(host, j, n, false);
        }
        if declares(host, i, n, false) {
            let q = choose|q: int| 0 <= q < rs.len() && (#[trigger] instance_regs(host[i as int])->Some_0[q]).0 == n
                && (instance_regs(host[i as int])->Some_0[q].1 is Leaf) == false;
            assert(v1.entity_of(host[i as int].identity) == Some(e));
            assert(bound_at(v1, host, i, v1.entity_of(host[i as int].identity)->Some_0, instance_regs(host[i as int])->Some_0[q]));
        }
    }
    assert(v1.entities[e].params.dom() =~= Set::new(|n: Seq<char>| declares(host, i, n, true)));
    assert(v1.entities[e].subs.dom() =~= Set::new(|n: Seq<char>| declares(host, i, n, false)));
}

} // verus!
