//! The tree-shape compiler: from the declared shape of a host type to the
//! plan that registration follows.
//!
//! Each field's declared type is classified as a parameter, a submodel, an
//! array, a list, a tuple, an optional, or something registration ignores.
//! A field contributes to registration when its classification, resolved
//! through arrays, lists, tuples and optionals, reaches a parameter or a
//! submodel.

use vstd::prelude::*;
use crate::naming::{
    child_path, decimal, dot_free, index_name, join, lemma_decimal_dot_free, lemma_decimal_injective,
    lemma_paths_differ, under,
};

verus! {

/// The declared type of a field, as far as registration reads it.
pub enum TypeExpr {
    /// `[T; n]`.
    Array(Box<TypeExpr>),
    /// `(T0, T1, ...)`.
    Tuple(Vec<TypeExpr>),
    /// A path type: the identifier of its last segment and that segment's
    /// generic arguments.
    Path(String, Vec<GenericArg>),
    /// Any other type (a reference, a pointer, a function type, ...).
    Other,
}

/// A generic argument of a path segment.
pub enum GenericArg {
    Type(TypeExpr),
    /// A lifetime, a constant or a binding.
    Other,
}

/// One item inside `#[primitiv(...)]`.
pub enum MetaItem {
    /// A bare word, such as `parameter`.
    Word(String),
    /// `name = value` or `name(...)`.
    Compound,
    /// A literal.
    Literal,
}

/// An attribute on a field: its path and, when it is written as a list, the
/// items of that list.
pub struct Attribute {
    pub path: String,
    pub list: Option<Vec<MetaItem>>,
}

/// What an attribute says of a field.
#[derive(Debug, Clone, Copy, PartialEq, Eq, Structural)]
pub enum FieldAttr {
    Parameter,
    Submodel,
}

/// Why a type cannot be given a registration plan.
#[derive(Debug, Clone, Copy, PartialEq, Eq, Structural)]
pub enum DeriveError {
    /// Registration is not defined for unions.
    Union,
    /// A `primitiv` attribute that is not a list of items, or holds a literal.
    UnsupportedSyntax,
    /// An item of a `primitiv` attribute other than `parameter` or `submodel`.
    UnsupportedOption,
    /// A `Vec` or `Option` without exactly one type argument.
    MissingTypeArgument,
}

/// The classification of a declared type.
#[derive(Debug, Clone, Copy, PartialEq, Eq, Structural)]
pub enum FieldType {
    Array,
    Vec,
    Tuple,
    Option,
    Parameter,
    Model,
    Other,
}

/// The single type argument of a path type, if it has exactly one.
pub open spec fn subtype_of(ty: TypeExpr) -> Option<TypeExpr> {
    match ty {
        TypeExpr::Path(_, args) => if args@.len() == 1 && args@[0] is Type {
            Some(args@[0]->Type_0)
        } else {
            None
        },
        _ => None,
    }
}

/// How a declared type is classified, given the field's attributes: the last
/// attribute decides for a path type that is not `Vec`, `Option` or
/// `Parameter`.
pub open spec fn classify(ty: TypeExpr, attrs: Seq<FieldAttr>) -> Result<FieldType, DeriveError> {
    match ty {
        TypeExpr::Array(_) => Ok(FieldType::Array),
        TypeExpr::Tuple(_) => Ok(FieldType::Tuple),
        TypeExpr::Path(id, _) => if id@ == "Vec"@ {
            if subtype_of(ty) is Some {
                Ok(FieldType::Vec)
            } else {
                Err(DeriveError::MissingTypeArgument)
            }
        } else if id@ == "Option"@ {
            if subtype_of(ty) is Some {
                Ok(FieldType::Option)
            } else {
                Err(DeriveError::MissingTypeArgument)
            }
        } else if id@ == "Parameter"@ {
            Ok(FieldType::Parameter)
        } else if attrs.len() == 0 {
            Ok(FieldType::Other)
        } else if attrs.last() == FieldAttr::Parameter {
            Ok(FieldType::Parameter)
        } else {
            Ok(FieldType::Model)
        },
        TypeExpr::Other => Ok(FieldType::Other),
    }
}

/// Whether a field of type `ty` contributes to registration.
pub open spec fn contributes(ty: TypeExpr, attrs: Seq<FieldAttr>) -> Result<bool, DeriveError>
    decreases ty, 0nat,
{
    match classify(ty, attrs) {
        Err(x) => Err(x),
        Ok(FieldType::Parameter) => Ok(true),
        Ok(FieldType::Model) => Ok(true),
        Ok(FieldType::Other) => Ok(false),
        Ok(FieldType::Tuple) => match ty {
            TypeExpr::Tuple(elems) => tuple_contributes(elems@, attrs, elems@.len()),
            _ => Ok(false),
        },
        Ok(_) => match ty {
            TypeExpr::Array(elem) => contributes(*elem, attrs),
            TypeExpr::Path(_, args) => if args@.len() == 1 && args@[0] is Type {
                contributes(args@[0]->Type_0, attrs)
            } else {
                Ok(false)
            },
            _ => Ok(false),
        },
    }
}

/// Whether any of the first `n` components of a tuple contributes; the first
/// component that cannot be classified gives the error.
pub open spec fn tuple_contributes(elems: Seq<TypeExpr>, attrs: Seq<FieldAttr>, n: nat) -> Result<bool, DeriveError>
    decreases elems, n,
{
    if n == 0 || n > elems.len() {
        Ok(false)
    } else {
        match tuple_contributes(elems, attrs, (n - 1) as nat) {
            Err(x) => Err(x),
            Ok(before) => match contributes(elems[n - 1], attrs) {
                Err(x) => Err(x),
                Ok(here) => Ok(before || here),
            },
        }
    }
}

impl FieldType {
    /// The single type argument of a path type, if it has exactly one.
    pub fn generic_subtype(ty: &TypeExpr) -> (r: Option<&TypeExpr>)
        ensures
            r == match subtype_of(*ty) {
                Some(t) => Some(&t),
                None => None::<&TypeExpr>,
            },
    {
        match ty {
            TypeExpr::Path(_, args) => {
                if args.len() == 1 {
                    match &args[0] {
                        GenericArg::Type(t) => Some(t),
                        GenericArg::Other => None,
                    }
                } else {
                    None
                }
            },
            _ => None,
        }
    }

    /// Classifies a declared type.
    pub fn from_ty(ty: &TypeExpr, attrs: &Vec<FieldAttr>) -> (r: Result<FieldType, DeriveError>)
        ensures
            r == classify(*ty, attrs@),
    {
        match ty {
            TypeExpr::Array(_) => Ok(FieldType::Array),
            TypeExpr::Tuple(_) => Ok(FieldType::Tuple),
            TypeExpr::Path(id, _) => {
                if *id == "Vec".to_owned() {
                    if FieldType::generic_subtype(ty).is_some() {
                        Ok(FieldType::Vec)
                    } else {
                        Err(DeriveError::MissingTypeArgument)
                    }
                } else if *id == "Option".to_owned() {
                    if FieldType::generic_subtype(ty).is_some() {
                        Ok(FieldType::Option)
                    } else {
                        Err(DeriveError::MissingTypeArgument)
                    }
                } else if *id == "Parameter".to_owned() {
                    Ok(FieldType::Parameter)
                } else if attrs.len() == 0 {
                    Ok(FieldType::Other)
                } else {
                    match attrs[attrs.len() - 1] {
                        FieldAttr::Parameter => Ok(FieldType::Parameter),
                        FieldAttr::Submodel => Ok(FieldType::Model),
                    }
                }
            },
            TypeExpr::Other => Ok(FieldType::Other),
        }
    }
}

/// Whether a field of type `ty` contributes to registration: it does when
/// its classification, resolved through arrays, lists, tuples and optionals,
/// reaches a parameter or a submodel.
pub fn parse_field(ty: &TypeExpr, attrs: &Vec<FieldAttr>) -> (r: Result<bool, DeriveError>)
    ensures
        r == contributes(*ty, attrs@),
    decreases ty,
{
    match FieldType::from_ty(ty, attrs) {
        Err(x) => Err(x),
        Ok(FieldType::Parameter) => Ok(true),
        Ok(FieldType::Model) => Ok(true),
        Ok(FieldType::Other) => Ok(false),
        Ok(FieldType::Tuple) => {
            match ty {
                TypeExpr::Tuple(elems) => {
                    let mut any = false;
                    let mut i: usize = 0;
                    while i < elems.len()
                        invariant
                            0 <= i <= elems@.len(),
                            *ty == TypeExpr::Tuple(*elems),
                            tuple_contributes(elems@, attrs@, i as nat) == Ok::<bool, DeriveError>(any),
                        decreases elems@.len() - i,
                    {
                        match parse_field(&elems[i], attrs) {
                            Err(x) => {
                                assert(tuple_contributes(elems@, attrs@, (i + 1) as nat) == Err::<bool, DeriveError>(x));
                                proof { lemma_tuple_error(elems@, attrs@, (i + 1) as nat, elems@.len()); }
                                return Err(x);
                            },
                            Ok(here) => {
                                any = any || here;
                            },
                        }
                        i = i + 1;
                    }
                    Ok(any)
                },
                _ => Ok(false),
            }
        },
        Ok(_) => {
            match ty {
                TypeExpr::Array(elem) => parse_field(elem, attrs),
                TypeExpr::Path(_, args) => {
                    match &args[0] {
                        GenericArg::Type(t) => parse_field(t, attrs),
                        GenericArg::Other => Ok(false),
                    }
                },
                _ => Ok(false),
            }
        },
    }
}

/// Once a prefix of a tuple's components fails, every longer prefix fails
/// the same way.
proof fn lemma_tuple_error(elems: Seq<TypeExpr>, attrs: Seq<FieldAttr>, n: nat, m: nat)
    requires
        0 < n <= m <= elems.len(),
        tuple_contributes(elems, attrs, n) is Err,
    ensures
        tuple_contributes(elems, attrs, m) == tuple_contributes(elems, attrs, n),
    decreases m,
{
    if m > n {
        lemma_tuple_error(elems, attrs, n, (m - 1) as nat);
    }
}

/// What one item of a `primitiv` attribute says.
pub open spec fn item_attrs(item: MetaItem) -> Result<Seq<FieldAttr>, DeriveError> {
    match item {
        MetaItem::Word(w) => if w@ == "parameter"@ {
            Ok(seq![FieldAttr::Parameter])
        } else if w@ == "submodel"@ {
            Ok(seq![FieldAttr::Submodel])
        } else {
            Err(DeriveError::UnsupportedOption)
        },
        MetaItem::Compound => Err(DeriveError::UnsupportedOption),
        MetaItem::Literal => Err(DeriveError::UnsupportedSyntax),
    }
}

/// What the first `n` items of a `primitiv` attribute say, in order; the
/// first item that cannot be read gives the error.
pub open spec fn items_attrs(items: Seq<MetaItem>, n: nat) -> Result<Seq<FieldAttr>, DeriveError>
    decreases n,
{
    if n == 0 || n > items.len() {
        Ok(seq![])
    } else {
        match items_attrs(items, (n - 1) as nat) {
            Err(x) => Err(x),
            Ok(before) => match item_attrs(items[n - 1]) {
                Err(x) => Err(x),
                Ok(here) => Ok(before + here),
            },
        }
    }
}

/// What one attribute says: nothing unless its path is `primitiv`.
pub open spec fn attribute_attrs(a: Attribute) -> Result<Seq<FieldAttr>, DeriveError> {
    if a.path@ != "primitiv"@ {
        Ok(seq![])
    } else {
        match a.list {
            None => Err(DeriveError::UnsupportedSyntax),
            Some(items) => items_attrs(items@, items@.len()),
        }
    }
}

/// What the first `n` attributes of a field say, in order.
pub open spec fn attributes_attrs(attrs: Seq<Attribute>, n: nat) -> Result<Seq<FieldAttr>, DeriveError>
    decreases n,
{
    if n == 0 || n > attrs.len() {
        Ok(seq![])
    } else {
        match attributes_attrs(attrs, (n - 1) as nat) {
            Err(x) => Err(x),
            Ok(before) => match attribute_attrs(attrs[n - 1]) {
                Err(x) => Err(x),
                Ok(here) => Ok(before + here),
            },
        }
    }
}

proof fn lemma_items_error(items: Seq<MetaItem>, n: nat, m: nat)
    requires
        0 < n <= m <= items.len(),
        items_attrs(items, n) is Err,
    ensures
        items_attrs(items, m) == items_attrs(items, n),
    decreases m,
{
    if m > n {
        lemma_items_error(items, n, (m - 1) as nat);
    }
}

proof fn lemma_attributes_error(attrs: Seq<Attribute>, n: nat, m: nat)
    requires
        0 < n <= m <= attrs.len(),
        attributes_attrs(attrs, n) is Err,
    ensures
        attributes_attrs(attrs, m) == attributes_attrs(attrs, n),
    decreases m,
{
    if m > n {
        lemma_attributes_error(attrs, n, (m - 1) as nat);
    }
}

fn parse_item(item: &MetaItem, out: &mut Vec<FieldAttr>) -> (r: Result<(), DeriveError>)
    ensures
        match item_attrs(*item) {
            Ok(here) => r is Ok && final(out)@ == old(out)@ + here,
            Err(x) => r == Err::<(), DeriveError>(x),
        },
{
    match item {
        MetaItem::Word(w) => {
            if *w == "parameter".to_owned() {
                out.push(FieldAttr::Parameter);
                Ok(())
            } else if *w == "submodel".to_owned() {
                out.push(FieldAttr::Submodel);
                Ok(())
            } else {
                Err(DeriveError::UnsupportedOption)
            }
        },
        MetaItem::Compound => Err(DeriveError::UnsupportedOption),
        MetaItem::Literal => Err(DeriveError::UnsupportedSyntax),
    }
}

/// Reads the `primitiv` attributes of a field, in order.
pub fn parse_attrs(attrs: &Vec<Attribute>) -> (r: Result<Vec<FieldAttr>, DeriveError>)
    ensures
        match attributes_attrs(attrs@, attrs@.len()) {
            Ok(v) => r matches Ok(out) && out@ == v,
            Err(x) => r == Err::<Vec<FieldAttr>, DeriveError>(x),
        },
{
    let mut out: Vec<FieldAttr> = Vec::new();
    let mut i: usize = 0;
    while i < attrs.len()
        invariant
            0 <= i <= attrs@.len(),
            attributes_attrs(attrs@, i as nat) == Ok::<Seq<FieldAttr>, DeriveError>(out@),
        decreases attrs@.len() - i,
    {
        let a = &attrs[i];
        if a.path == "primitiv".to_owned() {
            match &a.list {
                None => {
                    assert(attributes_attrs(attrs@, (i + 1) as nat) == Err::<Seq<FieldAttr>, DeriveError>(DeriveError::UnsupportedSyntax));
                    proof { lemma_attributes_error(attrs@, (i + 1) as nat, attrs@.len()); }
                    return Err(DeriveError::UnsupportedSyntax);
                },
                Some(items) => {
                    let ghost before = out@;
                    let mut j: usize = 0;
                    assert(out@.subrange(before.len() as int, out@.len() as int) =~= seq![]);
                    while j < items.len()
                        invariant
                            0 <= j <= items@.len(),
                            items_attrs(items@, j as nat) == Ok::<Seq<FieldAttr>, DeriveError>(out@.subrange(before.len() as int, out@.len() as int)),
                            out@.subrange(0, before.len() as int) == before,
                            before.len() <= out@.len(),
                            0 <= i < attrs@.len(),
                            *a == attrs@[i as int],
                            a.list == Some(*items),
                            a.path@ == "primitiv"@,
                            attributes_attrs(attrs@, i as nat) == Ok::<Seq<FieldAttr>, DeriveError>(before),
                        decreases items@.len() - j,
                    {
                        let ghost mid = out@;
                        match parse_item(&items[j], &mut out) {
                            Err(x) => {
                                assert(items_attrs(items@, (j + 1) as nat) == Err::<Seq<FieldAttr>, DeriveError>(x));
                                proof { lemma_items_error(items@, (j + 1) as nat, items@.len()); }
                                assert(a.list == Some(*items));
                                assert(attribute_attrs(attrs@[i as int]) == Err::<Seq<FieldAttr>, DeriveError>(x));
                                assert(attributes_attrs(attrs@, (i + 1) as nat) == Err::<Seq<FieldAttr>, DeriveError>(x));
                                proof { lemma_attributes_error(attrs@, (i + 1) as nat, attrs@.len()); }
                                return Err(x);
                            },
                            Ok(()) => {
                                let ghost here = item_attrs(items@[j as int])->Ok_0;
                                assert(out@.subrange(before.len() as int, out@.len() as int) =~= mid.subrange(before.len() as int, mid.len() as int) + here);
                                assert(out@.subrange(0, before.len() as int) =~= mid.subrange(0, before.len() as int));
                            },
                        }
                        j = j + 1;
                    }
                    assert(out@ =~= before + out@.subrange(before.len() as int, out@.len() as int));
                },
            }
        } else {
            assert(attribute_attrs(attrs@[i as int]) == Ok::<Seq<FieldAttr>, DeriveError>(seq![]));
            assert(out@ + seq![] =~= out@);
        }
        i = i + 1;
    }
    Ok(out)
}

/// A field of a host type.
pub struct FieldDef {
    /// The field's name; not read for positional fields.
    pub ident: String,
    pub ty: TypeExpr,
    pub attrs: Vec<Attribute>,
}

/// The fields of a record, of a tuple-like record, or of a unit record.
pub enum Fields {
    Named(Vec<FieldDef>),
    Unnamed(Vec<FieldDef>),
    Unit,
}

/// A variant of a host enum.
pub struct VariantDef {
    pub ident: String,
    pub fields: Fields,
}

/// The body of a host type.
pub enum Data {
    Struct(Fields),
    Enum(Vec<VariantDef>),
    Union,
}

/// A host type: its name and its body.
pub struct TypeDef {
    pub ident: String,
    pub data: Data,
}

/// What registration does with one field: which field, under which path
/// name, with which attributes.
pub struct FieldPlan {
    pub field: usize,
    pub name: String,
    pub attrs: Vec<FieldAttr>,
}

/// A field plan as plain values.
pub type PlanEntry = (nat, Seq<char>, Seq<FieldAttr>);

impl FieldPlan {
    pub open spec fn view(&self) -> PlanEntry {
        (self.field as nat, self.name@, self.attrs@)
    }
}

pub open spec fn plans_view(v: Seq<FieldPlan>) -> Seq<PlanEntry> {
    v.map_values(|p: FieldPlan| p@)
}

/// The path name of field `i`: its name, or its position for positional
/// fields, under the variant's name when there is one.
pub open spec fn field_name(f: FieldDef, i: nat, named: bool, root: Option<Seq<char>>) -> Seq<char> {
    let base = if named {
        f.ident@
    } else {
        decimal(i)
    };
    match root {
        Some(r) => child_path(r, base),
        None => base,
    }
}

/// The plans of the first `n` fields: one for each field that contributes,
/// in field order; the first field that cannot be read gives the error.
pub open spec fn field_plans(fields: Seq<FieldDef>, named: bool, root: Option<Seq<char>>, n: nat) -> Result<Seq<PlanEntry>, DeriveError>
    decreases n,
{
    if n == 0 || n > fields.len() {
        Ok(seq![])
    } else {
        let f = fields[n - 1];
        match field_plans(fields, named, root, (n - 1) as nat) {
            Err(x) => Err(x),
            Ok(before) => match attributes_attrs(f.attrs@, f.attrs@.len()) {
                Err(x) => Err(x),
                Ok(attrs) => match contributes(f.ty, attrs) {
                    Err(x) => Err(x),
                    Ok(true) => Ok(before.push(((n - 1) as nat, field_name(f, (n - 1) as nat, named, root), attrs))),
                    Ok(false) => Ok(before),
                },
            },
        }
    }
}

/// The plans of a record's fields.
pub open spec fn fields_plans(fields: Fields, root: Option<Seq<char>>) -> Result<Seq<PlanEntry>, DeriveError> {
    match fields {
        Fields::Named(v) => field_plans(v@, true, root, v@.len()),
        Fields::Unnamed(v) => field_plans(v@, false, root, v@.len()),
        Fields::Unit => Ok(seq![]),
    }
}

/// The plans of the first `n` variants, each under its variant's name.
pub open spec fn variant_plans(vs: Seq<VariantDef>, n: nat) -> Result<Seq<Seq<PlanEntry>>, DeriveError>
    decreases n,
{
    if n == 0 || n > vs.len() {
        Ok(seq![])
    } else {
        match variant_plans(vs, (n - 1) as nat) {
            Err(x) => Err(x),
            Ok(before) => match fields_plans(vs[n - 1].fields, Some(vs[n - 1].ident@)) {
                Err(x) => Err(x),
                Ok(here) => Ok(before.push(here)),
            },
        }
    }
}

/// The plans of a host type: one arm for a record, one per variant for an
/// enum.
pub open spec fn type_plans(def: TypeDef) -> Result<Seq<Seq<PlanEntry>>, DeriveError> {
    match def.data {
        Data::Struct(fields) => match fields_plans(fields, None) {
            Err(x) => Err(x),
            Ok(p) => Ok(seq![p]),
        },
        Data::Enum(vs) => variant_plans(vs@, vs@.len()),
        Data::Union => Err(DeriveError::Union),
    }
}

proof fn lemma_field_plans_error(fields: Seq<FieldDef>, named: bool, root: Option<Seq<char>>, n: nat, m: nat)
    requires
        0 < n <= m <= fields.len(),
        field_plans(fields, named, root, n) is Err,
    ensures
        field_plans(fields, named, root, m) == field_plans(fields, named, root, n),
    decreases m,
{
    if m > n {
        lemma_field_plans_error(fields, named, root, n, (m - 1) as nat);
    }
}

proof fn lemma_variant_plans_error(vs: Seq<VariantDef>, n: nat, m: nat)
    requires
        0 < n <= m <= vs.len(),
        variant_plans(vs, n) is Err,
    ensures
        variant_plans(vs, m) == variant_plans(vs, n),
    decreases m,
{
    if m > n {
        lemma_variant_plans_error(vs, n, (m - 1) as nat);
    }
}

pub open spec fn root_view(root: Option<&str>) -> Option<Seq<char>> {
    match root {
        Some(s) => Some(s@),
        None => None,
    }
}

/// The plans of a list of fields, named by field name (`named`) or by
/// position, under `root` when it is given.
pub fn map_fields(fields: &Vec<FieldDef>, named: bool, root: Option<&str>) -> (r: Result<Vec<FieldPlan>, DeriveError>)
    ensures
        match field_plans(fields@, named, root_view(root), fields@.len()) {
            Ok(v) => r matches Ok(out) && plans_view(out@) == v,
            Err(x) => r == Err::<Vec<FieldPlan>, DeriveError>(x),
        },
{
    let ghost rv = root_view(root);
    let mut out: Vec<FieldPlan> = Vec::new();
    let mut i: usize = 0;
    assert(plans_view(out@) =~= seq![]);
    while i < fields.len()
        invariant
            0 <= i <= fields@.len(),
            rv == root_view(root),
            field_plans(fields@, named, rv, i as nat) == Ok::<Seq<PlanEntry>, DeriveError>(plans_view(out@)),
        decreases fields@.len() - i,
    {
        let f = &fields[i];
        let attrs = match parse_attrs(&f.attrs) {
            Ok(a) => a,
            Err(x) => {
                proof { lemma_field_plans_error(fields@, named, rv, (i + 1) as nat, fields@.len()); }
                return Err(x);
            },
        };
        match parse_field(&f.ty, &attrs) {
            Err(x) => {
                proof { lemma_field_plans_error(fields@, named, rv, (i + 1) as nat, fields@.len()); }
                return Err(x);
            },
            Ok(true) => {
                let base = if named {
                    f.ident.clone()
                } else {
                    index_name(i)
                };
                let name = match root {
                    Some(r) => join(r, base.as_str()),
                    None => base,
                };
                let ghost before = out@;
                out.push(FieldPlan { field: i, name, attrs });
                assert(plans_view(out@) =~= plans_view(before).push(out@[i as int - i as int + before.len() as int]@));
            },
            Ok(false) => {},
        }
        i = i + 1;
    }
    Ok(out)
}

/// The plans of a record: one for each contributing field.
pub fn impl_body_from_struct(fields: &Fields) -> (r: Result<Vec<FieldPlan>, DeriveError>)
    ensures
        match fields_plans(*fields, None) {
            Ok(v) => r matches Ok(out) && plans_view(out@) == v,
            Err(x) => r == Err::<Vec<FieldPlan>, DeriveError>(x),
        },
{
    match fields {
        Fields::Named(v) => map_fields(v, true, None),
        Fields::Unnamed(v) => map_fields(v, false, None),
        Fields::Unit => {
            let out: Vec<FieldPlan> = Vec::new();
            assert(plans_view(out@) =~= seq![]);
            Ok(out)
        },
    }
}

fn variant_body(v: &VariantDef) -> (r: Result<Vec<FieldPlan>, DeriveError>)
    ensures
        match fields_plans(v.fields, Some(v.ident@)) {
            Ok(p) => r matches Ok(out) && plans_view(out@) == p,
            Err(x) => r == Err::<Vec<FieldPlan>, DeriveError>(x),
        },
{
    let root: Option<&str> = Some(v.ident.as_str());
    assert(root_view(root) == Some(v.ident@));
    match &v.fields {
        Fields::Named(f) => map_fields(f, true, root),
        Fields::Unnamed(f) => map_fields(f, false, root),
        Fields::Unit => {
            let out: Vec<FieldPlan> = Vec::new();
            assert(plans_view(out@) =~= seq![]);
            Ok(out)
        },
    }
}

/// The plans of an enum: one arm per variant, each field path under the
/// variant's name.
pub fn impl_body_from_enum(variants: &Vec<VariantDef>) -> (r: Result<Vec<Vec<FieldPlan>>, DeriveError>)
    ensures
        match variant_plans(variants@, variants@.len()) {
            Ok(v) => r matches Ok(out) && arms_view(out@) == v,
            Err(x) => r == Err::<Vec<Vec<FieldPlan>>, DeriveError>(x),
        },
{
    let mut out: Vec<Vec<FieldPlan>> = Vec::new();
    let mut i: usize = 0;
    assert(arms_view(out@) =~= seq![]);
    while i < variants.len()
        invariant
            0 <= i <= variants@.len(),
            variant_plans(variants@, i as nat) == Ok::<Seq<Seq<PlanEntry>>, DeriveError>(arms_view(out@)),
        decreases variants@.len() - i,
    {
        match variant_body(&variants[i]) {
            Err(x) => {
                proof { lemma_variant_plans_error(variants@, (i + 1) as nat, variants@.len()); }
                return Err(x);
            },
            Ok(arm) => {
                let ghost before = out@;
                out.push(arm);
                assert(arms_view(out@) =~= arms_view(before).push(plans_view(out@[before.len() as int]@)));
            },
        }
        i = i + 1;
    }
    Ok(out)
}

pub open spec fn arms_view(v: Seq<Vec<FieldPlan>>) -> Seq<Seq<PlanEntry>> {
    v.map_values(|a: Vec<FieldPlan>| plans_view(a@))
}

/// A host type together with the plan that registration follows for it.
pub struct Registrar {
    def: TypeDef,
    arms: Vec<Vec<FieldPlan>>,
}

impl Registrar {
    /// The host type the plan was made for.
    pub closed spec fn def(&self) -> TypeDef {
        self.def
    }

    /// One arm per variant (a single arm for a record).
    pub closed spec fn arms(&self) -> Seq<Seq<PlanEntry>> {
        arms_view(self.arms@)
    }

    /// The plan agrees with its type.
    pub open spec fn wf(&self) -> bool {
        type_plans(self.def()) == Ok::<Seq<Seq<PlanEntry>>, DeriveError>(self.arms())
    }

    pub fn type_def(&self) -> (r: &TypeDef)
        ensures
            *r == self.def(),
    {
        &self.def
    }

    pub fn arm_count(&self) -> (r: usize)
        ensures
            r == self.arms().len(),
    {
        self.arms.len()
    }

    pub fn arm(&self, i: usize) -> (r: &Vec<FieldPlan>)
        requires
            i < self.arms().len(),
        ensures
            plans_view(r@) == self.arms()[i as int],
    {
        &self.arms[i]
    }
}

/// Makes the registration plan of a host type.
pub fn expand_derive_model(input: TypeDef) -> (r: Result<Registrar, DeriveError>)
    ensures
        match type_plans(input) {
            Ok(arms) => r matches Ok(reg) && reg.wf() && reg.def() == input && reg.arms() == arms,
            Err(x) => r matches Err(y) && y == x,
        },
{
    let arms = match &input.data {
        Data::Struct(fields) => match impl_body_from_struct(fields) {
            Err(x) => {
                return Err(x);
            },
            Ok(p) => {
                let mut arms: Vec<Vec<FieldPlan>> = Vec::new();
                arms.push(p);
                assert(arms_view(arms@) =~= seq![plans_view(arms@[0]@)]);
                arms
            },
        },
        Data::Enum(vs) => match impl_body_from_enum(vs) {
            Err(x) => {
                return Err(x);
            },
            Ok(a) => a,
        },
        Data::Union => {
            return Err(DeriveError::Union);
        },
    };
    Ok(Registrar { def: input, arms })
}

/// No path lies below the names of two different plan entries.
pub open spec fn separated(plan: Seq<PlanEntry>) -> bool {
    forall|a: int, b: int, x: Seq<char>|
        0 <= a < plan.len() && 0 <= b < plan.len() && a != b && #[trigger] under(x, plan[a].1) ==> !#[trigger] under(
            x,
            plan[b].1,
        )
}

/// What field names put in front of their own segment: the variant's name
/// and a dot, or nothing.
pub open spec fn root_prefix(root: Option<Seq<char>>) -> Seq<char> {
    match root {
        Some(r) => r + seq!['.'],
        None => seq![],
    }
}

/// The segment a field contributes to its path name.
pub open spec fn field_base(f: FieldDef, i: nat, named: bool) -> Seq<char> {
    if named {
        f.ident@
    } else {
        decimal(i)
    }
}

/// Named fields have pairwise different names without dots, as the
/// identifiers of a Rust type do.
pub open spec fn plain_fields(fields: Seq<FieldDef>, named: bool) -> bool {
    named ==> {
        &&& forall|i: int| 0 <= i < fields.len() ==> dot_free(#[trigger] fields[i].ident@)
        &&& forall|i: int, j: int|
            0 <= i < fields.len() && 0 <= j < fields.len() && i != j ==> #[trigger] fields[i].ident@
                != #[trigger] fields[j].ident@
    }
}

pub open spec fn plain_record(f: Fields) -> bool {
    match f {
        Fields::Named(v) => plain_fields(v@, true),
        _ => true,
    }
}

/// Every record and every variant of the type has plain field names.
pub open spec fn plain_def(def: TypeDef) -> bool {
    match def.data {
        Data::Struct(f) => plain_record(f),
        Data::Enum(vs) => forall|i: int| 0 <= i < vs@.len() ==> plain_record(#[trigger] vs@[i].fields),
        Data::Union => true,
    }
}

pub proof fn lemma_field_plans_names(fields: Seq<FieldDef>, named: bool, root: Option<Seq<char>>, n: nat)
    ensures
        field_plans(fields, named, root, n) matches Ok(p) ==> {
            &&& forall|k: int| 0 <= k < p.len() ==> (#[trigger] p[k]).0 < n && p[k].0 < fields.len() && p[k].1
                == root_prefix(root) + field_base(fields[p[k].0 as int], p[k].0, named)
            &&& forall|a: int, b: int| 0 <= a < b < p.len() ==> (#[trigger] p[a]).0 < (#[trigger] p[b]).0
        },
    decreases n,
{
    if n > 0 && n <= fields.len() {
        lemma_field_plans_names(fields, named, root, (n - 1) as nat);
        let f = fields[n - 1];
        let nm = field_name(f, (n - 1) as nat, named, root);
        assert(nm == root_prefix(root) + field_base(f, (n - 1) as nat, named)) by {
            if root is None {
                assert(seq![] + field_base(f, (n - 1) as nat, named) =~= field_base(f, (n - 1) as nat, named));
            }
        }
    }
}

/// The plan of a record with plain field names is separated.
pub proof fn lemma_field_plans_separated(fields: Seq<FieldDef>, named: bool, root: Option<Seq<char>>)
    requires
        plain_fields(fields, named),
    ensures
        field_plans(fields, named, root, fields.len()) matches Ok(p) ==> separated(p),
{
    lemma_field_plans_names(fields, named, root, fields.len());
    if field_plans(fields, named, root, fields.len()) is Ok {
        let p = field_plans(fields, named, root, fields.len())->Ok_0;
        let q = root_prefix(root);
        assert forall|a: int, b: int, x: Seq<char>|
            0 <= a < p.len() && 0 <= b < p.len() && a != b && #[trigger] under(x, p[a].1) implies !#[trigger] under(
            x,
            p[b].1,
        ) by {
            let i = p[a].0;
            let j = p[b].0;
            assert(i != j) by {
                if a < b {
                    assert(p[a].0 < p[b].0);
                } else {
                    assert(p[b].0 < p[a].0);
                }
            }
            let bi = field_base(fields[i as int], i, named);
            let bj = field_base(fields[j as int], j, named);
            if named {
                assert(fields[i as int].ident@ != fields[j as int].ident@);
                assert(dot_free(fields[i as int].ident@));
                assert(dot_free(fields[j as int].ident@));
            } else {
                lemma_decimal_dot_free(i);
                lemma_decimal_dot_free(j);
                if decimal(i) == decimal(j) {
                    lemma_decimal_injective(i, j);
                }
            }
            if under(x, p[b].1) {
                lemma_paths_differ(q, bi, bj, x, x);
            }
        }
    }
}

/// The arms of an enum's plan are the plans of its variants.
pub proof fn lemma_variant_plans_at(vs: Seq<VariantDef>, n: nat, v: int)
    requires
        variant_plans(vs, n) is Ok,
        n <= vs.len(),
        0 <= v < variant_plans(vs, n)->Ok_0.len(),
    ensures
        variant_plans(vs, n)->Ok_0.len() == n,
        fields_plans(vs[v].fields, Some(vs[v].ident@)) == Ok::<Seq<PlanEntry>, DeriveError>(variant_plans(vs, n)->Ok_0[v]),
    decreases n,
{
    lemma_variant_plans_len(vs, n);
    if v < n - 1 {
        lemma_variant_plans_at(vs, (n - 1) as nat, v);
    }
}

proof fn lemma_variant_plans_len(vs: Seq<VariantDef>, n: nat)
    requires
        variant_plans(vs, n) is Ok,
        n <= vs.len(),
    ensures
        variant_plans(vs, n)->Ok_0.len() == n,
    decreases n,
{
    if n > 0 {
        lemma_variant_plans_len(vs, (n - 1) as nat);
    }
}

} // verus!
