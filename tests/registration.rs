use primitiv::lock::{get_or_create_shared, new_shared_registry, register_shared};
use primitiv::model::Instance;
use primitiv::naming::{index_name, join};
use primitiv::parameter::{Parameter, Wrap};
use primitiv::registry::{ModelError, Registry};
use primitiv::serialize::DefaultVisitor;
use primitiv::shape::{
    expand_derive_model, parse_attrs, parse_field, Attribute, Data, DeriveError, FieldAttr, FieldDef, FieldType,
    Fields, GenericArg, MetaItem, TypeDef, TypeExpr, VariantDef,
};
use primitiv::walk::Value;

fn path(name: &str) -> TypeExpr {
    TypeExpr::Path(name.to_string(), vec![])
}

fn param() -> TypeExpr {
    path("Parameter")
}

fn opt(t: TypeExpr) -> TypeExpr {
    TypeExpr::Path("Option".to_string(), vec![GenericArg::Type(t)])
}

fn field(name: &str, ty: TypeExpr) -> FieldDef {
    FieldDef { ident: name.to_string(), ty, attrs: vec![] }
}

fn attr(words: &[&str]) -> Attribute {
    Attribute {
        path: "primitiv".to_string(),
        list: Some(words.iter().map(|w| MetaItem::Word(w.to_string())).collect()),
    }
}

fn submodel_field(name: &str, ty_name: &str) -> FieldDef {
    FieldDef { ident: name.to_string(), ty: path(ty_name), attrs: vec![attr(&["submodel"])] }
}

fn record(name: &str, fields: Vec<FieldDef>) -> TypeDef {
    TypeDef { ident: name.to_string(), data: Data::Struct(Fields::Named(fields)) }
}

fn instance(def: TypeDef, identity: u64, fields: Vec<Value>) -> Instance {
    Instance { registrar: expand_derive_model(def).unwrap(), identity, variant: 0, fields }
}

fn new_param(reg: &mut Registry) -> Parameter {
    reg.new_parameter().unwrap()
}

#[test]
fn index_names_and_joins() {
    assert_eq!(index_name(0), "0");
    assert_eq!(index_name(7), "7");
    assert_eq!(index_name(10), "10");
    assert_eq!(index_name(1234), "1234");
    assert_eq!(join("pw3", "1"), "pw3.1");
    assert_eq!(join("Variant6", "pw1"), "Variant6.pw1");
}

#[test]
fn classification_of_declared_types() {
    let none: Vec<FieldAttr> = vec![];
    assert_eq!(FieldType::from_ty(&param(), &none), Ok(FieldType::Parameter));
    assert_eq!(FieldType::from_ty(&opt(param()), &none), Ok(FieldType::Option));
    assert_eq!(FieldType::from_ty(&TypeExpr::Array(Box::new(param())), &none), Ok(FieldType::Array));
    assert_eq!(FieldType::from_ty(&TypeExpr::Tuple(vec![]), &none), Ok(FieldType::Tuple));
    assert_eq!(FieldType::from_ty(&path("i32"), &none), Ok(FieldType::Other));
    assert_eq!(FieldType::from_ty(&path("Inner"), &vec![FieldAttr::Submodel]), Ok(FieldType::Model));
    assert_eq!(
        FieldType::from_ty(&path("Inner"), &vec![FieldAttr::Submodel, FieldAttr::Parameter]),
        Ok(FieldType::Parameter)
    );
    assert_eq!(FieldType::from_ty(&path("Vec"), &none), Err(DeriveError::MissingTypeArgument));
    assert_eq!(FieldType::from_ty(&TypeExpr::Other, &none), Ok(FieldType::Other));
    assert!(FieldType::generic_subtype(&opt(param())).is_some());
    assert!(FieldType::generic_subtype(&param()).is_none());
}

#[test]
fn fields_that_contribute() {
    let none: Vec<FieldAttr> = vec![];
    assert_eq!(parse_field(&TypeExpr::Tuple(vec![path("i32"), param()]), &none), Ok(true));
    assert_eq!(parse_field(&TypeExpr::Tuple(vec![path("i32"), path("f32")]), &none), Ok(false));
    assert_eq!(parse_field(&opt(path("String")), &none), Ok(false));
    assert_eq!(
        parse_field(&TypeExpr::Tuple(vec![param(), path("Option")]), &none),
        Err(DeriveError::MissingTypeArgument)
    );
}

#[test]
fn attribute_parsing() {
    assert_eq!(parse_attrs(&vec![attr(&["parameter"])]), Ok(vec![FieldAttr::Parameter]));
    assert_eq!(
        parse_attrs(&vec![attr(&["submodel", "parameter"])]),
        Ok(vec![FieldAttr::Submodel, FieldAttr::Parameter])
    );
    let other = Attribute { path: "serde".to_string(), list: Some(vec![MetaItem::Literal]) };
    assert_eq!(parse_attrs(&vec![other]), Ok(vec![]));
    let bare = Attribute { path: "primitiv".to_string(), list: None };
    assert_eq!(parse_attrs(&vec![bare]), Err(DeriveError::UnsupportedSyntax));
    let literal = Attribute { path: "primitiv".to_string(), list: Some(vec![MetaItem::Literal]) };
    assert_eq!(parse_attrs(&vec![literal]), Err(DeriveError::UnsupportedSyntax));
    assert_eq!(parse_attrs(&vec![attr(&["frozen"])]), Err(DeriveError::UnsupportedOption));
    let compound = Attribute { path: "primitiv".to_string(), list: Some(vec![MetaItem::Compound]) };
    assert_eq!(parse_attrs(&vec![compound]), Err(DeriveError::UnsupportedOption));
}

#[test]
fn unions_are_refused() {
    let def = TypeDef { ident: "U".to_string(), data: Data::Union };
    assert!(matches!(expand_derive_model(def), Err(DeriveError::Union)));
    let bad = record("Bad", vec![FieldDef { ident: "x".to_string(), ty: param(), attrs: vec![attr(&["weird"])] }]);
    assert!(matches!(expand_derive_model(bad), Err(DeriveError::UnsupportedOption)));
}

#[test]
fn register_twice_changes_nothing() {
    let mut reg = Registry::new();
    let a = new_param(&mut reg);
    let b = new_param(&mut reg);
    let host = vec![instance(
        record("M", vec![field("pw1", param()), field("pw2", param())]),
        1,
        vec![Value::Parameter(a), Value::Parameter(b)],
    )];
    let e1 = reg.register(&host, 0).unwrap();
    let e2 = reg.register(&host, 0).unwrap();
    assert_eq!(e1, e2);
    assert_eq!(reg.get_parameter(1, "pw1").unwrap().handle(), a.handle());
    assert_eq!(reg.get_parameter(1, "pw2").unwrap().handle(), b.handle());
}

#[test]
fn optional_fields_are_transparent() {
    let mut reg = Registry::new();
    let a = new_param(&mut reg);
    let host = vec![
        instance(record("M", vec![field("w", opt(param()))]), 1, vec![Value::Present(Box::new(Value::Parameter(a)))]),
        instance(record("M", vec![field("w", opt(param()))]), 2, vec![Value::Absent]),
    ];
    reg.register(&host, 0).unwrap();
    reg.register(&host, 1).unwrap();
    assert_eq!(reg.get_parameter(1, "w").unwrap().handle(), a.handle());
    assert!(reg.get_parameter(1, "w.0").is_none());
    assert!(reg.get_parameter(2, "w").is_none());
}

#[test]
fn array_elements_are_indexed() {
    let mut reg = Registry::new();
    let ps: Vec<Parameter> = (0..3).map(|_| new_param(&mut reg)).collect();
    let host = vec![instance(
        record("M", vec![field("xs", TypeExpr::Array(Box::new(param())))]),
        1,
        vec![Value::Items(ps.iter().map(|p| Value::Parameter(*p)).collect())],
    )];
    reg.register(&host, 0).unwrap();
    for (i, p) in ps.iter().enumerate() {
        assert_eq!(reg.get_parameter(1, &format!("xs.{}", i)).unwrap().handle(), p.handle());
    }
    assert!(reg.get_parameter(1, "xs.3").is_none());
    assert!(reg.get_parameter(1, "xs.-1").is_none());
    assert!(reg.get_parameter(1, "xs").is_none());
}

#[test]
fn tuple_components_are_indexed() {
    let mut reg = Registry::new();
    let a = new_param(&mut reg);
    let b = new_param(&mut reg);
    let ty = TypeExpr::Tuple(vec![param(), path("i32"), param()]);
    let host = vec![instance(
        record("M", vec![field("pair", ty)]),
        1,
        vec![Value::Tuple(vec![Value::Parameter(a), Value::Scalar, Value::Parameter(b)])],
    )];
    reg.register(&host, 0).unwrap();
    assert_eq!(reg.get_parameter(1, "pair.0").unwrap().handle(), a.handle());
    assert!(reg.get_parameter(1, "pair.1").is_none());
    assert_eq!(reg.get_parameter(1, "pair.2").unwrap().handle(), b.handle());
}

#[test]
fn variants_do_not_mix() {
    let def = || TypeDef {
        ident: "E".to_string(),
        data: Data::Enum(vec![
            VariantDef { ident: "Variant6".to_string(), fields: Fields::Named(vec![field("pw1", param())]) },
            VariantDef { ident: "Variant8".to_string(), fields: Fields::Named(vec![field("pw1", param())]) },
        ]),
    };
    let mut reg = Registry::new();
    let a = new_param(&mut reg);
    let b = new_param(&mut reg);
    let host = vec![
        Instance { registrar: expand_derive_model(def()).unwrap(), identity: 1, variant: 0, fields: vec![Value::Parameter(a)] },
        Instance { registrar: expand_derive_model(def()).unwrap(), identity: 2, variant: 1, fields: vec![Value::Parameter(b)] },
    ];
    reg.register(&host, 0).unwrap();
    reg.register(&host, 1).unwrap();
    assert!(reg.get_parameter(1, "Variant6.pw1").is_some());
    assert!(reg.get_parameter(1, "Variant8.pw1").is_none());
    assert!(reg.get_parameter(1, "pw1").is_none());
    assert!(reg.get_parameter(2, "Variant8.pw1").is_some());
    assert!(reg.get_parameter(2, "Variant6.pw1").is_none());
}

#[test]
fn submodels_are_registered_first_and_found_by_path() {
    let mut reg = Registry::new();
    let w1 = new_param(&mut reg);
    let w2 = new_param(&mut reg);
    let w = new_param(&mut reg);
    let inner = record("Model1", vec![field("pw1", param()), field("pw2", param())]);
    let outer = record("Model2", vec![submodel_field("model1", "Model1"), field("pw", param())]);
    let host = vec![
        instance(inner, 10, vec![Value::Parameter(w1), Value::Parameter(w2)]),
        instance(outer, 20, vec![Value::Structure(0), Value::Parameter(w)]),
    ];
    reg.register(&host, 1).unwrap();
    assert_eq!(reg.get_parameter(10, "pw1").unwrap().handle(), w1.handle());
    assert_eq!(reg.find_parameter(20, &["model1", "pw2"]).unwrap().handle(), w2.handle());
    assert!(reg.find_parameter(20, &["model1", "pw"]).is_none());
    assert!(reg.find_parameter(20, &[]).is_none());
    assert!(reg.get_parameter(20, "model1").is_none());
    let sub = reg.get_submodel(20, "model1", 99).unwrap();
    assert_eq!(sub.identifier(), 99);
    assert_eq!(reg.get_parameter(99, "pw2").unwrap().handle(), w2.handle());
    assert!(!reg.get_parameter(99, "pw2").unwrap().is_owned());
    reg.invalidate(99);
    assert!(reg.find_parameter(20, &["model1", "pw1"]).is_some());
    assert!(reg.find_submodel(20, &["model1"], 98).is_some());
    assert!(reg.find_submodel(20, &["nothing"], 97).is_none());
}

#[test]
fn duplicate_names_and_held_parameters_are_refused() {
    let mut reg = Registry::new();
    let a = new_param(&mut reg);
    let b = new_param(&mut reg);
    assert_eq!(reg.add_parameter(1, "w", &a), Ok(()));
    assert_eq!(reg.add_parameter(1, "w", &a), Ok(()));
    assert_eq!(reg.add_parameter(1, "w", &b), Err(ModelError::DuplicateName));
    assert_eq!(reg.add_parameter(1, "v", &a), Err(ModelError::ParameterHeld));
    assert_eq!(reg.add_parameter(2, "w", &a), Err(ModelError::ParameterHeld));
    assert_eq!(reg.get_parameter(1, "w").unwrap().handle(), a.handle());
    assert!(reg.get_parameter(1, "v").is_none());
}

#[test]
fn submodel_attachment_rules() {
    let mut reg = Registry::new();
    assert_eq!(reg.add_submodel(1, "child", 2), Ok(()));
    assert_eq!(reg.add_submodel(1, "child", 2), Ok(()));
    assert_eq!(reg.add_submodel(3, "child", 2), Err(ModelError::SubmodelAttached));
    assert_eq!(reg.add_submodel(1, "child", 4), Err(ModelError::DuplicateName));
    assert_eq!(reg.add_submodel(5, "me", 5), Err(ModelError::SelfAttachment));
    let p = new_param(&mut reg);
    assert_eq!(reg.add_parameter(1, "child", &p), Err(ModelError::DuplicateName));
    let e1 = reg.entity_of(1).unwrap();
    assert_eq!(reg.add_submodel_to(e1, "ghost", 12345), Err(ModelError::UnknownEntity));
    reg.invalidate(1);
    assert_eq!(reg.add_submodel(3, "child", 2), Ok(()));
}

#[test]
fn mismatched_shapes_and_unordered_hosts_are_refused() {
    let mut reg = Registry::new();
    let host = vec![instance(record("M", vec![field("w", param())]), 1, vec![Value::Scalar])];
    assert_eq!(reg.register(&host, 0), Err(ModelError::ShapeMismatch));
    assert!(reg.entity_of(1).is_none());
    let host = vec![instance(record("M", vec![submodel_field("inner", "Inner")]), 1, vec![Value::Structure(0)])];
    assert_eq!(reg.register(&host, 0), Err(ModelError::UnorderedHost));
    let host = vec![instance(record("M", vec![field("w", param())]), 1, vec![])];
    assert_eq!(reg.register(&host, 0), Err(ModelError::ShapeMismatch));
}

#[test]
fn get_or_create_converges() {
    let mut reg = Registry::new();
    let e = reg.get_or_create(42);
    assert_eq!(reg.get_or_create(42), e);
    assert_ne!(reg.get_or_create(43), e);
    let shared = new_shared_registry();
    let s1 = get_or_create_shared(&shared, 7).unwrap();
    let other = shared.share();
    let s2 = get_or_create_shared(&other, 7).unwrap();
    assert_eq!(s1, s2);
    let reader = shared.read_only();
    let handle = reader.read();
    assert_eq!(handle.borrow().entity_of(7), Some(s1));
    handle.release_read();
}

#[test]
fn teardown_releases_the_entity() {
    let mut reg = Registry::new();
    let a = new_param(&mut reg);
    assert_eq!(reg.add_parameter(5, "w", &a), Ok(()));
    let old = reg.entity_of(5).unwrap();
    reg.invalidate(5);
    assert!(reg.entity_of(5).is_none());
    let fresh = reg.get_or_create(5);
    assert_ne!(fresh, old);
    assert!(reg.get_parameter(5, "w").is_none());
    assert_eq!(reg.add_parameter(6, "w", &a), Ok(()));
}

#[test]
fn shared_registration() {
    let shared = new_shared_registry();
    let host = vec![instance(record("M", vec![field("w", path("i32"))]), 1, vec![Value::Scalar])];
    assert!(register_shared(&shared, &host, 0).is_ok());
    assert_eq!(register_shared(&shared, &host, 3), Err(ModelError::NoSuchStructure));
    let bad = vec![instance(record("M", vec![field("w", param())]), 2, vec![Value::Absent])];
    assert_eq!(register_shared(&shared, &bad, 0), Err(ModelError::ShapeMismatch));
}

#[test]
fn parameters_wrap_handles() {
    let p = Parameter::from_raw(9, true);
    assert_eq!(p.as_raw(), 9);
    assert!(p.is_owned());
    let mut reg = Registry::new();
    let a = reg.new_parameter().unwrap();
    let b = reg.new_parameter().unwrap();
    assert_ne!(a.handle(), b.handle());
}

#[test]
fn empty_representation_visitor() {
    let v: DefaultVisitor<Parameter> = DefaultVisitor::new();
    assert!(v.visit_seq().is_ok());
    assert!(v.visit_map(false).is_ok());
    assert!(v.visit_map(true).is_err());
}

#[test]
fn walked_names_are_distinct_and_ordered() {
    let mut reg = Registry::new();
    let list = |t: TypeExpr| TypeExpr::Path("Vec".to_string(), vec![GenericArg::Type(t)]);
    let def = record(
        "M",
        vec![
            field("a", TypeExpr::Array(Box::new(TypeExpr::Tuple(vec![param(), param()])))),
            field("b", list(opt(param()))),
            field("c", path("usize")),
        ],
    );
    let mut pair = || Value::Tuple(vec![Value::Parameter(new_param(&mut reg)), Value::Parameter(new_param(&mut reg))]);
    let a = Value::Items(vec![pair(), pair()]);
    let b = Value::Items(vec![
        Value::Present(Box::new(Value::Parameter(new_param(&mut reg)))),
        Value::Absent,
        Value::Present(Box::new(Value::Parameter(new_param(&mut reg)))),
    ]);
    let inst = instance(def, 1, vec![a, b, Value::Scalar]);
    let found = primitiv::model::instance_walk(&inst).unwrap();
    let names: Vec<String> = found.iter().map(|r| r.name.clone()).collect();
    assert_eq!(names, vec!["a.0.0", "a.0.1", "a.1.0", "a.1.1", "b.0", "b.2"]);
    let mut sorted = names.clone();
    sorted.sort();
    sorted.dedup();
    assert_eq!(sorted.len(), names.len());
}

#[test]
fn adopting_needs_a_live_entity() {
    let mut reg = Registry::new();
    assert_eq!(reg.insert(1, 77, false), Err(ModelError::UnknownEntity));
    assert!(reg.entity_of(1).is_none());
    let e = reg.get_or_create(2);
    assert_eq!(reg.insert(1, e, false), Ok(()));
    assert_eq!(reg.entity_of(1), Some(e));
    reg.remove(1);
    assert_eq!(reg.entity_of(2), Some(e));
    reg.remove(2);
    assert!(reg.entity_of(2).is_none());
}

#[test]
fn owning_handles_are_not_reused_for_submodels() {
    let mut reg = Registry::new();
    assert_eq!(reg.add_submodel(1, "child", 2), Ok(()));
    let owner = reg.get_or_create(5);
    assert!(reg.get_submodel(1, "child", 5).is_none());
    assert_eq!(reg.entity_of(5), Some(owner));
    assert!(reg.find_submodel(1, &["child"], 1).is_none());
    assert!(reg.entity_of(1).is_some());
    assert!(reg.get_submodel(1, "child", 6).is_some());
}

#[test]
fn nested_submodels_register_at_any_depth() {
    let mut reg = Registry::new();
    let w1 = new_param(&mut reg);
    let w2 = new_param(&mut reg);
    let w3 = new_param(&mut reg);
    let host = vec![
        instance(record("Inner", vec![field("pw1", param())]), 1, vec![Value::Parameter(w1)]),
        instance(
            record("Middle", vec![submodel_field("inner", "Inner"), field("pw", param())]),
            2,
            vec![Value::Structure(0), Value::Parameter(w2)],
        ),
        instance(
            record("Outer", vec![submodel_field("middle", "Middle"), field("w", param())]),
            3,
            vec![Value::Structure(1), Value::Parameter(w3)],
        ),
    ];
    reg.register(&host, 2).unwrap();
    assert_eq!(reg.find_parameter(3, &["middle", "inner", "pw1"]).unwrap().handle(), w1.handle());
    assert_eq!(reg.find_parameter(3, &["middle", "pw"]).unwrap().handle(), w2.handle());
    assert_eq!(reg.get_parameter(3, "w").unwrap().handle(), w3.handle());
    assert!(reg.get_parameter(3, "pw").is_none());
    assert!(reg.find_parameter(3, &["middle", "inner", "pw"]).is_none());
}
