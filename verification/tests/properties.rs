use ui_compiler::property::{PropertyFactory, ValueItem};

#[derive(Clone, Debug, PartialEq)]
enum Val {
    Int(i32),
    Bool(bool),
    Str(String),
}

impl ValueItem for Val {
    fn initial_spec() -> Self {
        Val::Int(0)
    }
    fn initial() -> Self {
        Val::Int(0)
    }
    fn same(&self, other: &Self) -> bool {
        self == other
    }
    fn copy_of(&self) -> Self {
        self.clone()
    }
}

const IS_SEVEN: usize = 0;
const FIRST_BYTE_LESS_91: usize = 1;
const LOWERCASE: usize = 2;
const SUM: usize = 3;

fn eval(transform: usize, values: &Vec<Val>) -> Val {
    match (transform, &values[..]) {
        (IS_SEVEN, [Val::Int(a)]) => Val::Bool(*a == 7),
        (FIRST_BYTE_LESS_91, [Val::Str(c)]) => Val::Int((c.as_bytes()[0] - 91) as i32),
        (LOWERCASE, [Val::Str(d)]) => Val::Str(d.to_lowercase()),
        (SUM, vs) => Val::Int(vs.iter().map(|v| if let Val::Int(i) = v { *i } else { 0 }).sum()),
        _ => Val::Int(-1),
    }
}

#[test]
fn tests() {
    let mut factory = PropertyFactory::new_factory(eval);
    let a = factory.new(Val::Int(7), None);
    let b = factory.bind(&vec![a], IS_SEVEN, None);

    assert!(factory.get(a) == Val::Int(7));
    assert!(factory.get(b) == Val::Bool(true));

    let c = factory.new(Val::Str("a".to_owned()), None);
    factory.try_bind(a, &vec![c], FIRST_BYTE_LESS_91).unwrap();

    assert!(factory.get(a) == Val::Int(6)); // binding sets the value immediately
    assert!(factory.get(b) == Val::Bool(true)); // children are not updated yet
    assert!(factory.get(c) == Val::Str("a".to_owned()));

    factory.commit_changes();

    assert!(factory.get(a) == Val::Int(6));
    assert!(factory.get(b) == Val::Bool(false)); // `b` was put in the change set and updated
    assert!(factory.get(c) == Val::Str("a".to_owned()));

    let d = factory.new(Val::Str("B".to_owned()), None);
    factory.try_bind(c, &vec![d], LOWERCASE).unwrap();
    factory.commit_changes();

    assert!(factory.get(a) == Val::Int(7)); // "B" lowercased is "b", and 'b' - 91 is 7
    assert!(factory.get(b) == Val::Bool(true));
    assert!(factory.get(c) == Val::Str("b".to_owned()));
    assert!(factory.get(d) == Val::Str("B".to_owned()));
}

#[test]
fn a_bound_property_cannot_be_set_or_bound_again() {
    let mut factory = PropertyFactory::new_factory(eval);
    let a = factory.new(Val::Int(1), None);
    let b = factory.bind(&vec![a], SUM, None);
    assert_eq!(factory.try_set(b, Val::Int(5)).err().unwrap(), "cannot rebind child binding without unbinding it first");
    assert_eq!(factory.try_bind(b, &vec![a], SUM).err().unwrap(), "cannot rebind child binding without unbinding it first");
    factory.freeze(a);
    assert_eq!(factory.try_set(a, Val::Int(2)).err().unwrap(), "cannot rebind readonly binding");
    assert_eq!(factory.try_unbind(a).err().unwrap(), "cannot rebind readonly binding");
    assert!(factory.check_is_settable(b, true).is_ok());
}

#[test]
fn setting_a_parent_updates_its_children_on_commit() {
    let mut factory = PropertyFactory::new_factory(eval);
    let a = factory.new(Val::Int(1), None);
    let b = factory.new(Val::Int(2), None);
    let s = factory.bind(&vec![a, b], SUM, Some(40));
    let t = factory.bind(&vec![s, s], SUM, Some(41));
    assert_eq!(factory.get(s), Val::Int(3));
    assert_eq!(factory.get(t), Val::Int(6));
    factory.commit_changes();
    factory.set(a, Val::Int(10));
    assert_eq!(factory.get(s), Val::Int(3));
    let listeners = factory.commit_changes();
    assert_eq!(factory.get(s), Val::Int(12));
    assert_eq!(factory.get(t), Val::Int(24));
    assert_eq!(listeners, vec![40, 41]);
    assert_eq!(factory.count(), 4);
}

#[test]
fn an_unbound_property_no_longer_follows() {
    let mut factory = PropertyFactory::new_factory(eval);
    let a = factory.new(Val::Int(1), None);
    let b = factory.bind(&vec![a], SUM, None);
    factory.commit_changes();
    factory.unbind(b);
    assert_eq!(factory.get(b), Val::Int(0));
    factory.set(a, Val::Int(9));
    factory.commit_changes();
    assert_eq!(factory.get(b), Val::Int(0));
    factory.set(b, Val::Int(4));
    factory.commit_changes();
    assert_eq!(factory.get(b), Val::Int(4));
}

#[test]
fn setting_the_same_value_changes_nothing() {
    let mut factory = PropertyFactory::new_factory(eval);
    let a = factory.new(Val::Int(1), Some(7));
    factory.set(a, Val::Int(1));
    assert!(factory.commit_changes().is_empty());
    factory.set(a, Val::Int(2));
    assert_eq!(factory.commit_changes(), vec![7]);
}

#[test]
fn dropping_a_property_lowers_the_count_and_resets_what_reads_it() {
    let mut factory = PropertyFactory::new_factory(eval);
    let a = factory.new(Val::Int(5), None);
    let b = factory.bind(&vec![a], SUM, None);
    factory.commit_changes();
    assert_eq!(factory.count(), 2);
    assert_eq!(factory.get(b), Val::Int(5));
    factory.drop_property(a);
    assert_eq!(factory.count(), 1);
    assert_eq!(factory.get(b), Val::Int(5));
    factory.commit_changes();
    assert_eq!(factory.get(b), Val::Int(0));
}
