use reee::effect::Effect;
use reee::entity::Entity;
use reee::errors::Error;
use reee::supervisor::{Progress, Supervisor};
use reee::transform::Core;

fn ascii(s: &str) -> Effect {
    Effect::Ascii(s.to_string())
}

fn env_count(sv: &Supervisor<Core>, name: &str) -> usize {
    sv.environment(name).unwrap().num_received_effects()
}

fn entity_count(sv: &Supervisor<Core>, uuid: &str) -> usize {
    sv.entity(uuid).unwrap().num_received_effects()
}

fn is_app<T>(r: &Result<T, Error>) -> bool {
    matches!(r, Err(Error::App(_)))
}

#[test]
fn each_entity_has_uuid() {
    let entity = Entity::<Core>::new();
    assert!(!entity.uuid().is_empty())
}

#[test]
fn create_two_different_environments() {
    let mut sv = Supervisor::<Core>::new();
    sv.create_environment("X").unwrap();
    sv.create_environment("Y").unwrap();
    assert_eq!(2, sv.num_environments());
}

#[should_panic]
#[test]
fn forbid_creating_the_same_environment_twice() {
    let mut sv = Supervisor::<Core>::new();
    sv.create_environment("X").unwrap();
    sv.create_environment("X").unwrap();
}

#[test]
fn create_and_delete_environment() {
    let mut sv = Supervisor::<Core>::new();
    sv.create_environment("X").unwrap();
    assert_eq!(1, sv.num_environments());
    sv.delete_environment("X").unwrap();
    assert_eq!(0, sv.num_environments());
}

#[test]
fn submit_two_effects() {
    let mut sv = Supervisor::<Core>::new();
    sv.create_environment("X").unwrap();
    let a = sv.create_entity().unwrap();
    sv.join_environments(&a, vec!["X"]).unwrap();
    sv.submit_effect(ascii("hello"), "X").unwrap();
    sv.submit_effect(ascii("world"), "X").unwrap();
    sv.run_rounds(100);
    assert_eq!(2, env_count(&sv, "X"));
    assert_eq!(2, entity_count(&sv, &a));
}

#[test]
fn submit_many_effects_to_two_entities() {
    let mut sv = Supervisor::<Core>::new();
    sv.create_environment("X").unwrap();
    let a = sv.create_entity().unwrap();
    let b = sv.create_entity().unwrap();
    sv.join_environments(&a, vec!["X"]).unwrap();
    sv.join_environments(&b, vec!["X"]).unwrap();
    for i in 0..729 {
        sv.submit_effect(ascii(&i.to_string()), "X").unwrap();
    }
    sv.run_rounds(100);
    assert_eq!(729, env_count(&sv, "X"));
    assert_eq!(729, entity_count(&sv, &a));
    assert_eq!(729, entity_count(&sv, &b));
}

#[test]
fn pipe() {
    let mut sv = Supervisor::<Core>::new();
    sv.create_environment("X").unwrap();
    sv.create_environment("Y").unwrap();
    let a = sv.create_entity().unwrap();
    sv.join_environments(&a, vec!["X"]).unwrap();
    sv.affect_environments(&a, vec!["Y"]).unwrap();
    sv.submit_effect(ascii("hello"), "X").unwrap();
}
