use primitiv::model::Instance;
use primitiv::registry::Registry;
use primitiv::shape::{expand_derive_model, Attribute, Data, FieldDef, Fields, GenericArg, TypeDef, TypeExpr, VariantDef};
use primitiv::walk::Value;

fn path(name: &str) -> TypeExpr {
    TypeExpr::Path(name.to_string(), vec![])
}

fn param() -> TypeExpr {
    path("Parameter")
}

fn generic(name: &str, t: TypeExpr) -> TypeExpr {
    TypeExpr::Path(name.to_string(), vec![GenericArg::Type(t)])
}

fn opt(t: TypeExpr) -> TypeExpr {
    generic("Option", t)
}

fn list(t: TypeExpr) -> TypeExpr {
    generic("Vec", t)
}

fn arr(t: TypeExpr) -> TypeExpr {
    TypeExpr::Array(Box::new(t))
}

fn tup(ts: Vec<TypeExpr>) -> TypeExpr {
    TypeExpr::Tuple(ts)
}

fn field(name: &str, ty: TypeExpr) -> FieldDef {
    FieldDef { ident: name.to_string(), ty, attrs: Vec::<Attribute>::new() }
}

fn p(reg: &mut Registry) -> Value {
    Value::Parameter(reg.new_parameter().unwrap())
}

fn some(v: Value) -> Value {
    Value::Present(Box::new(v))
}

fn items(reg: &mut Registry, n: usize) -> Value {
    Value::Items((0..n).map(|_| p(reg)).collect())
}

fn pair(reg: &mut Registry) -> Value {
    Value::Tuple(vec![p(reg), p(reg)])
}

fn model1_def() -> TypeDef {
    TypeDef {
        ident: "Model1".to_string(),
        data: Data::Struct(Fields::Named(vec![
            field("pw1", param()),
            field("pw2", opt(param())),
            field("pw3", tup(vec![param(), param()])),
            field("pw4", arr(param())),
            field("pw5", list(param())),
            field("pw6", opt(opt(param()))),
            field("pw7", opt(tup(vec![param(), param()]))),
            field("pw8", opt(arr(param()))),
            field("pw9", opt(list(param()))),
            field("pw10", tup(vec![opt(param()), opt(param())])),
            field("pw11", tup(vec![tup(vec![param(), param()]), tup(vec![param(), param()])])),
            field("pw12", tup(vec![arr(param()), arr(param())])),
            field("pw13", tup(vec![list(param()), list(param())])),
            field("pw14", arr(opt(param()))),
            field("pw15", arr(tup(vec![param(), param()]))),
            field("pw16", arr(arr(param()))),
            field("pw17", arr(list(param()))),
            field("pw18", list(opt(param()))),
            field("pw19", list(tup(vec![param(), param()]))),
            field("pw20", list(arr(param()))),
            field("pw21", list(list(param()))),
        ])),
    }
}

fn model1_new(reg: &mut Registry, identity: u64) -> Instance {
    let fields = vec![
        p(reg),
        some(p(reg)),
        pair(reg),
        items(reg, 3),
        items(reg, 4),
        some(some(p(reg))),
        some(pair(reg)),
        some(items(reg, 3)),
        some(items(reg, 4)),
        Value::Tuple(vec![some(p(reg)), some(p(reg))]),
        Value::Tuple(vec![pair(reg), pair(reg)]),
        Value::Tuple(vec![items(reg, 3), items(reg, 3)]),
        Value::Tuple(vec![items(reg, 4), items(reg, 4)]),
        Value::Items((0..3).map(|_| some(p(reg))).collect()),
        Value::Items((0..3).map(|_| pair(reg)).collect()),
        Value::Items((0..3).map(|_| items(reg, 3)).collect()),
        Value::Items((0..3).map(|_| items(reg, 4)).collect()),
        Value::Items((0..4).map(|_| some(p(reg))).collect()),
        Value::Items((0..4).map(|_| pair(reg)).collect()),
        Value::Items((0..4).map(|_| items(reg, 3)).collect()),
        Value::Items((0..4).map(|_| items(reg, 4)).collect()),
    ];
    Instance { registrar: expand_derive_model(model1_def()).unwrap(), identity, variant: 0, fields }
}

fn has(reg: &Registry, id: u64, name: &str) -> bool {
    reg.get_parameter(id, name).is_some()
}

#[test]
fn derive_named_struct_test() {
    let mut reg = Registry::new();
    let host = vec![model1_new(&mut reg, 1)];
    reg.register(&host, 0).unwrap();
    let m = 1;
    assert!(has(&reg, m, "pw1"));

    assert!(has(&reg, m, "pw2"));
    assert!(has(&reg, m, "pw3.0"));
    assert!(has(&reg, m, "pw3.1"));
    assert!(!has(&reg, m, "pw3.2"));
    for i in 0..3 {
        assert!(has(&reg, m, &format!("pw4.{}", i)));
    }
    assert!(!has(&reg, m, &format!("pw4.{}", 3)));
    for i in 0..4 {
        assert!(has(&reg, m, &format!("pw5.{}", i)));
    }
    assert!(!has(&reg, m, &format!("pw5.{}", 4)));

    assert!(has(&reg, m, "pw6"));
    assert!(has(&reg, m, "pw7.0"));
    assert!(has(&reg, m, "pw7.1"));
    assert!(!has(&reg, m, "pw7.2"));
    for i in 0..3 {
        assert!(has(&reg, m, &format!("pw8.{}", i)));
    }
    assert!(!has(&reg, m, &format!("pw8.{}", 3)));
    for i in 0..4 {
        assert!(has(&reg, m, &format!("pw9.{}", i)));
    }
    assert!(!has(&reg, m, &format!("pw9.{}", 4)));

    assert!(has(&reg, m, "pw10.0"));
    assert!(has(&reg, m, "pw10.1"));
    assert!(!has(&reg, m, "pw10.2"));
    assert!(has(&reg, m, "pw11.0.0"));
    assert!(has(&reg, m, "pw11.0.1"));
    assert!(!has(&reg, m, "pw11.0.2"));
    assert!(has(&reg, m, "pw11.1.0"));
    assert!(has(&reg, m, "pw11.1.1"));
    assert!(!has(&reg, m, "pw11.1.2"));
    assert!(!has(&reg, m, "pw11.2.0"));
    for i in 0..3 {
        assert!(has(&reg, m, &format!("pw12.0.{}", i)));
    }
    assert!(!has(&reg, m, &format!("pw12.0.{}", 3)));
    for i in 0..3 {
        assert!(has(&reg, m, &format!("pw12.1.{}", i)));
    }
    assert!(!has(&reg, m, &format!("pw12.1.{}", 3)));
    for i in 0..4 {
        assert!(has(&reg, m, &format!("pw13.0.{}", i)));
    }
    assert!(!has(&reg, m, &format!("pw13.0.{}", 4)));
    for i in 0..4 {
        assert!(has(&reg, m, &format!("pw13.1.{}", i)));
    }
    assert!(!has(&reg, m, &format!("pw13.1.{}", 4)));

    for i in 0..3 {
        assert!(has(&reg, m, &format!("pw14.{}", i)));
    }
    for i in 0..3 {
        assert!(has(&reg, m, &format!("pw15.{}.0", i)));
        assert!(has(&reg, m, &format!("pw15.{}.1", i)));
        assert!(!has(&reg, m, &format!("pw15.{}.2", i)));
    }
    for i in 0..3 {
        for j in 0..3 {
            assert!(has(&reg, m, &format!("pw16.{}.{}", i, j)));
        }
        assert!(!has(&reg, m, &format!("pw16.{}.{}", i, 3)));
    }
    for i in 0..3 {
        for j in 0..4 {
            assert!(has(&reg, m, &format!("pw17.{}.{}", i, j)));
        }
        assert!(!has(&reg, m, &format!("pw17.{}.{}", i, 4)));
    }

    for i in 0..4 {
        assert!(has(&reg, m, &format!("pw18.{}", i)));
    }
    for i in 0..4 {
        assert!(has(&reg, m, &format!("pw19.{}.0", i)));
        assert!(has(&reg, m, &format!("pw19.{}.1", i)));
        assert!(!has(&reg, m, &format!("pw19.{}.2", i)));
    }
    for i in 0..4 {
        for j in 0..3 {
            assert!(has(&reg, m, &format!("pw20.{}.{}", i, j)));
        }
        assert!(!has(&reg, m, &format!("pw20.{}.{}", i, 3)));
    }
    for i in 0..4 {
        for j in 0..4 {
            assert!(has(&reg, m, &format!("pw21.{}.{}", i, j)));
        }
        assert!(!has(&reg, m, &format!("pw21.{}.{}", i, 4)));
    }
}

fn model2_new(reg: &mut Registry, identity: u64) -> Instance {
    let def = TypeDef {
        ident: "Model2".to_string(),
        data: Data::Struct(Fields::Unnamed(vec![
            field("", param()),
            field("", opt(param())),
            field("", tup(vec![param(), param()])),
            field("", arr(param())),
            field("", list(param())),
        ])),
    };
    let fields = vec![p(reg), some(p(reg)), pair(reg), items(reg, 3), items(reg, 4)];
    Instance { registrar: expand_derive_model(def).unwrap(), identity, variant: 0, fields }
}

#[test]
fn derive_unnamed_struct_test() {
    let mut reg = Registry::new();
    let host = vec![model2_new(&mut reg, 7)];
    reg.register(&host, 0).unwrap();
    let m = 7;
    assert!(has(&reg, m, "0"));
    assert!(has(&reg, m, "1"));
    assert!(has(&reg, m, "2.0"));
    assert!(has(&reg, m, "2.1"));
    assert!(!has(&reg, m, "2.2"));
    for i in 0..3 {
        assert!(has(&reg, m, &format!("3.{}", i)));
    }
    assert!(!has(&reg, m, &format!("3.{}", 3)));
    for i in 0..4 {
        assert!(has(&reg, m, &format!("4.{}", i)));
    }
    assert!(!has(&reg, m, &format!("4.{}", 4)));
}

#[test]
fn derive_unit_struct_test() {
    let mut reg = Registry::new();
    let def = TypeDef { ident: "Model3".to_string(), data: Data::Struct(Fields::Unit) };
    let host = vec![Instance { registrar: expand_derive_model(def).unwrap(), identity: 3, variant: 0, fields: vec![] }];
    reg.register(&host, 0).unwrap();
}

fn model4_def() -> TypeDef {
    let variant = |name: &str, fields: Fields| VariantDef { ident: name.to_string(), fields };
    TypeDef {
        ident: "Model4".to_string(),
        data: Data::Enum(vec![
            variant("Variant1", Fields::Unit),
            variant("Variant2", Fields::Unnamed(vec![field("", path("i32"))])),
            variant("Variant3", Fields::Unnamed(vec![field("", param())])),
            variant("Variant4", Fields::Unnamed(vec![field("", tup(vec![param(), path("i32"), param()]))])),
            variant(
                "Variant5",
                Fields::Unnamed(vec![field("", param()), field("", path("i32")), field("", param())]),
            ),
            variant("Variant6", Fields::Named(vec![field("pw1", param())])),
            variant("Variant7", Fields::Named(vec![field("pw1", tup(vec![param(), path("i32"), param()]))])),
            variant(
                "Variant8",
                Fields::Named(vec![field("pw1", param()), field("int_val", path("i32")), field("pw2", param())]),
            ),
        ]),
    }
}

fn model4(variant: usize, fields: Vec<Value>) -> Vec<Instance> {
    vec![Instance { registrar: expand_derive_model(model4_def()).unwrap(), identity: 4, variant, fields }]
}

#[test]
fn derive_enum_test() {
    {
        let mut reg = Registry::new();
        let host = model4(0, vec![]);
        reg.register(&host, 0).unwrap();
    }
    {
        let mut reg = Registry::new();
        let host = model4(1, vec![Value::Scalar]);
        reg.register(&host, 0).unwrap();
        assert!(!has(&reg, 4, "pw1"));
    }
    {
        let mut reg = Registry::new();
        let host = model4(2, vec![p(&mut reg)]);
        reg.register(&host, 0).unwrap();
        assert!(has(&reg, 4, "Variant3.0"));
    }
    {
        let mut reg = Registry::new();
        let t = Value::Tuple(vec![p(&mut reg), Value::Scalar, p(&mut reg)]);
        let host = model4(3, vec![t]);
        reg.register(&host, 0).unwrap();
        assert!(has(&reg, 4, "Variant4.0.0"));
        assert!(!has(&reg, 4, "Variant4.0.1"));
        assert!(has(&reg, 4, "Variant4.0.2"));
    }
    {
        let mut reg = Registry::new();
        let fields = vec![p(&mut reg), Value::Scalar, p(&mut reg)];
        let host = model4(4, fields);
        reg.register(&host, 0).unwrap();
        assert!(has(&reg, 4, "Variant5.0"));
        assert!(!has(&reg, 4, "Variant5.1"));
        assert!(has(&reg, 4, "Variant5.2"));
    }
    {
        let mut reg = Registry::new();
        let host = model4(5, vec![p(&mut reg)]);
        reg.register(&host, 0).unwrap();
        assert!(has(&reg, 4, "Variant6.pw1"));
    }
    {
        let mut reg = Registry::new();
        let t = Value::Tuple(vec![p(&mut reg), Value::Scalar, p(&mut reg)]);
        let host = model4(6, vec![t]);
        reg.register(&host, 0).unwrap();
        assert!(has(&reg, 4, "Variant7.pw1.0"));
        assert!(!has(&reg, 4, "Variant7.pw1.1"));
        assert!(has(&reg, 4, "Variant7.pw1.2"));
    }
    {
        let mut reg = Registry::new();
        let fields = vec![p(&mut reg), Value::Scalar, p(&mut reg)];
        let host = model4(7, fields);
        reg.register(&host, 0).unwrap();
        assert!(has(&reg, 4, "Variant8.pw1"));
        assert!(!has(&reg, 4, "Variant8.int_val"));
        assert!(has(&reg, 4, "Variant8.pw2"));
    }
}
