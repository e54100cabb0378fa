use easegress_sdk::marshal::marshal_string_vec;
use easegress_sdk::program::{Instance, Params, Program, Stage};
use easegress_sdk::shape::{expand_macro, Generated, Item, Member, ShapeError};

struct Quiet;

impl Program for Quiet {
    fn new(_params: Params) -> Self {
        Quiet
    }
}

struct Counter {
    code: i32,
    keys: usize,
}

impl Program for Counter {
    fn new(params: Params) -> Self {
        let code = match params.get(&"code".to_string()) {
            Some(v) => v.parse::<i32>().unwrap(),
            None => -1,
        };
        Counter { code, keys: params.entries().len() }
    }

    fn run(&self) -> i32 {
        self.code
    }
}

fn blob(items: &[&str]) -> Vec<u8> {
    let list: Vec<String> = items.iter().map(|s| s.to_string()).collect();
    marshal_string_vec(&list)
}

#[test]
fn params_keep_the_last_value_of_a_key() {
    let mut p = Params::new();
    p.insert("a".to_string(), "1".to_string());
    p.insert("b".to_string(), "2".to_string());
    p.insert("a".to_string(), "3".to_string());
    assert_eq!(p.entries().len(), 2);
    assert_eq!(p.get(&"a".to_string()).unwrap(), "3");
    assert_eq!(p.get(&"b".to_string()).unwrap(), "2");
    assert!(p.get(&"c".to_string()).is_none());
    assert_eq!(p.entries()[0], ("a".to_string(), "3".to_string()));
    assert_eq!(p.position(&"b".to_string()), 1);
}

#[test]
fn params_from_alternating_keys_and_values() {
    let list = vec![
        "k1".to_string(),
        "v1".to_string(),
        "k2".to_string(),
        "v2".to_string(),
        "k1".to_string(),
        "v3".to_string(),
    ];
    let p = Params::from_list(&list);
    assert_eq!(p.entries().len(), 2);
    assert_eq!(p.get(&"k1".to_string()).unwrap(), "v3");
    assert_eq!(p.get(&"k2".to_string()).unwrap(), "v2");
    assert_eq!(Params::from_list(&Vec::new()).entries().len(), 0);
}

#[test]
fn run_without_the_method_reports_zero() {
    let instance = Instance::<Quiet>::load();
    assert_eq!(instance.run(), 0);
    assert_eq!(instance.current_stage(), Stage::Defaulted);
}

#[test]
fn run_before_init_uses_the_program_built_from_nothing() {
    let instance = Instance::<Counter>::load();
    assert_eq!(instance.current_stage(), Stage::Defaulted);
    assert_eq!(instance.stored().keys, 0);
    assert_eq!(instance.run(), -1);
    assert_eq!(instance.run(), -1);
}

#[test]
fn second_init_replaces_the_program() {
    let mut instance = Instance::<Counter>::load();
    let first = blob(&["code", "5", "extra", "x"]);
    instance.init(&first, 0);
    assert_eq!(instance.current_stage(), Stage::Initialized);
    assert_eq!(instance.run(), 5);
    assert_eq!(instance.stored().keys, 2);
    let second = blob(&["code", "9"]);
    instance.init(&second, 0);
    assert_eq!(instance.current_stage(), Stage::Initialized);
    assert_eq!(instance.run(), 9);
    assert_eq!(instance.run(), 9);
    assert_eq!(instance.stored().keys, 1);
}

#[test]
fn init_with_an_empty_list_builds_from_nothing() {
    let mut instance = Instance::<Counter>::load();
    instance.init(&blob(&["code", "4"]), 0);
    instance.init(&blob(&[]), 0);
    assert_eq!(instance.current_stage(), Stage::Initialized);
    assert_eq!(instance.run(), -1);
    assert_eq!(instance.stored().keys, 0);
}

#[test]
fn replace_stores_a_new_program() {
    let mut instance = Instance::<Counter>::load();
    let mut p = Params::new();
    p.insert("code".to_string(), "12".to_string());
    instance.replace(p);
    assert_eq!(instance.run(), 12);
}

fn program_impl(members: Vec<Member>) -> Item {
    Item::Impl { trait_name: Some("Program".to_string()), members }
}

#[test]
fn struct_gets_the_storage() {
    assert_eq!(expand_macro(&Item::Struct), Ok(Generated::Storage));
}

#[test]
fn program_impl_gets_the_entry_points() {
    let item = program_impl(vec![
        Member::Method("new".to_string()),
        Member::Method("run".to_string()),
    ]);
    assert_eq!(expand_macro(&item), Ok(Generated::EntryPoints));
    assert_eq!(expand_macro(&program_impl(Vec::new())), Ok(Generated::EntryPoints));
}

#[test]
fn impl_of_another_trait_is_refused() {
    let inherent = Item::Impl { trait_name: None, members: Vec::new() };
    assert_eq!(expand_macro(&inherent), Err(ShapeError::NotProgramImpl));
    let other = Item::Impl {
        trait_name: Some("Display".to_string()),
        members: vec![Member::Other],
    };
    assert_eq!(expand_macro(&other), Err(ShapeError::NotProgramImpl));
}

#[test]
fn member_that_is_no_method_is_refused() {
    let item = program_impl(vec![Member::Method("new".to_string()), Member::Other]);
    assert_eq!(expand_macro(&item), Err(ShapeError::NotAMethod(1)));
}

#[test]
fn method_with_another_name_is_refused() {
    let item = program_impl(vec![
        Member::Method("new".to_string()),
        Member::Method("stop".to_string()),
        Member::Other,
    ]);
    assert_eq!(expand_macro(&item), Err(ShapeError::UnknownMethod(1)));
}

#[test]
fn other_items_are_refused() {
    assert_eq!(expand_macro(&Item::Other), Err(ShapeError::UnsupportedItem));
}

#[test]
fn shape_errors_have_messages() {
    assert_eq!(ShapeError::NotProgramImpl.message(), "Must be a Program trait impl");
    assert_eq!(ShapeError::NotAMethod(0).message(), "Impl block must only contain methods");
    assert_eq!(
        ShapeError::UnknownMethod(3).message(),
        "Impl block must only contain the methods new and run"
    );
    assert_eq!(
        ShapeError::UnsupportedItem.message(),
        "Easegress Object macro can only be applied to structs and their impl of Program trait"
    );
}
