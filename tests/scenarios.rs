use reee::effect::Effect;
use reee::entity::Entity;
use reee::environment::Environment;
use reee::errors::Error;
use reee::supervisor::{Progress, Supervisor};
use reee::transform::{outputs_of, reverse_text, Core, EffectCore};

fn ascii(s: &str) -> Effect {
    Effect::Ascii(s.to_string())
}

fn env_count(sv: &Supervisor<Core>, name: &str) -> usize {
    sv.environment(name).unwrap().num_received_effects()
}

fn entity_count(sv: &Supervisor<Core>, uuid: &str) -> usize {
    sv.entity(uuid).unwrap().num_received_effects()
}

fn inbound_len(sv: &Supervisor<Core>, name: &str) -> usize {
    sv.environment(name).unwrap().num_inbound()
}

fn is_app<T>(r: &Result<T, Error>) -> bool {
    matches!(r, Err(Error::App(_)))
}

#[test]
fn one_effect_reaches_environment_and_entity() {
    let mut sv = Supervisor::<Core>::new();
    sv.create_environment("X").unwrap();
    let a = sv.create_entity().unwrap();
    sv.join_environments(&a, vec!["X"]).unwrap();
    sv.submit_effect(ascii("hello"), "X").unwrap();
    sv.run_rounds(3);
    assert_eq!(1, env_count(&sv, "X"));
    assert_eq!(1, entity_count(&sv, &a));
}

#[test]
fn two_environments_two_entities() {
    let mut sv = Supervisor::<Core>::new();
    sv.create_environment("X").unwrap();
    sv.create_environment("Y").unwrap();
    let a = sv.create_entity().unwrap();
    let b = sv.create_entity().unwrap();
    sv.join_environments(&a, vec!["X", "Y"]).unwrap();
    sv.join_environments(&b, vec!["Y"]).unwrap();
    sv.submit_effect(ascii("hello"), "X").unwrap();
    sv.submit_effect(ascii("world"), "Y").unwrap();
    sv.run_rounds(3);
    assert_eq!(1, env_count(&sv, "X"));
    assert_eq!(1, env_count(&sv, "Y"));
    assert_eq!(2, entity_count(&sv, &a));
    assert_eq!(1, entity_count(&sv, &b));
}

#[test]
fn delivery_keeps_submission_order() {
    let mut sv = Supervisor::<Core>::new();
    sv.create_environment("X").unwrap();
    sv.create_environment("Z").unwrap();
    let a = sv.create_entity().unwrap();
    sv.join_environments(&a, vec!["X"]).unwrap();
    sv.affect_environments(&a, vec!["Z"]).unwrap();
    sv.inject_core(&a, Core::Identity).unwrap();
    let text = "ABCDEFGHIJKLMNOPQRSTUVWXYZ0123456789";
    for c in text.chars() {
        sv.submit_effect(Effect::Ascii(c.to_string()), "X").unwrap();
    }
    let expected: Vec<Effect> = text.chars().map(|c| Effect::Ascii(c.to_string())).collect();
    let (p, broadcast) = sv.poll_environment("X").unwrap();
    assert_eq!(Progress::NotReady, p);
    assert_eq!(expected, broadcast);
    let (p, received) = sv.poll_entity(&a).unwrap();
    assert_eq!(Progress::NotReady, p);
    assert_eq!(expected, received);
    assert_eq!(36, env_count(&sv, "X"));
    assert_eq!(36, entity_count(&sv, &a));
    assert_eq!(36, inbound_len(&sv, "Z"));
    let (_, published) = sv.poll_environment("Z").unwrap();
    assert_eq!(expected, published);
}

#[test]
fn reverse_and_uppercase_cores() {
    let mut sv = Supervisor::<Core>::new();
    sv.create_environment("X").unwrap();
    sv.create_environment("Y").unwrap();
    sv.create_environment("Z").unwrap();
    let a = sv.create_entity().unwrap();
    sv.inject_core(&a, Core::Reverse).unwrap();
    sv.join_environments(&a, vec!["X"]).unwrap();
    sv.affect_environments(&a, vec!["Y"]).unwrap();
    let b = sv.create_entity().unwrap();
    sv.inject_core(&b, Core::Uppercase).unwrap();
    sv.join_environments(&b, vec!["X"]).unwrap();
    sv.affect_environments(&b, vec!["Z"]).unwrap();
    sv.submit_effect(ascii("hello"), "X").unwrap();
    sv.poll_environment("X").unwrap();
    sv.poll_entity(&a).unwrap();
    sv.poll_entity(&b).unwrap();
    assert_eq!(1, inbound_len(&sv, "Y"));
    assert_eq!(1, inbound_len(&sv, "Z"));
    assert_eq!(vec![ascii("olleh")], sv.poll_environment("Y").unwrap().1);
    assert_eq!(vec![ascii("HELLO")], sv.poll_environment("Z").unwrap().1);
    sv.run_rounds(3);
    assert_eq!(1, env_count(&sv, "Y"));
    assert_eq!(1, env_count(&sv, "Z"));
}

#[test]
fn many_effects_after_quiescence() {
    let mut sv = Supervisor::<Core>::new();
    sv.create_environment("X").unwrap();
    let a = sv.create_entity().unwrap();
    let b = sv.create_entity().unwrap();
    sv.join_environments(&a, vec!["X"]).unwrap();
    sv.join_environments(&b, vec!["X"]).unwrap();
    for i in 0..729 {
        sv.submit_effect(Effect::Ascii(i.to_string()), "X").unwrap();
    }
    sv.run_rounds(2);
    assert_eq!(729, env_count(&sv, "X"));
    assert_eq!(729, entity_count(&sv, &a));
    assert_eq!(729, entity_count(&sv, &b));
}

#[test]
fn deleted_environment_is_left() {
    let mut sv = Supervisor::<Core>::new();
    sv.create_environment("X").unwrap();
    let a = sv.create_entity().unwrap();
    sv.join_environments(&a, vec!["X"]).unwrap();
    assert!(sv.entity(&a).unwrap().has_joined("X"));
    sv.delete_environment("X").unwrap();
    assert!(sv.entity(&a).unwrap().has_joined("X"));
    sv.poll_entity(&a).unwrap();
    assert!(!sv.entity(&a).unwrap().has_joined("X"));
    assert_eq!(0, sv.entity(&a).unwrap().num_joined());
    assert!(is_app(&sv.submit_effect(ascii("late"), "X")));
    sv.run_rounds(2);
    assert_eq!(0, entity_count(&sv, &a));
}

#[test]
fn effects_already_broadcast_arrive_before_leaving() {
    let mut sv = Supervisor::<Core>::new();
    sv.create_environment("X").unwrap();
    let a = sv.create_entity().unwrap();
    sv.join_environments(&a, vec!["X"]).unwrap();
    sv.submit_effect(ascii("hello"), "X").unwrap();
    sv.poll_environment("X").unwrap();
    sv.delete_environment("X").unwrap();
    sv.poll_entity(&a).unwrap();
    assert_eq!(1, entity_count(&sv, &a));
    assert!(!sv.entity(&a).unwrap().has_joined("X"));
}

#[test]
fn submissions_are_counted() {
    let mut sv = Supervisor::<Core>::new();
    sv.create_environment("X").unwrap();
    for i in 0..5 {
        sv.submit_effect(Effect::Ascii(i.to_string()), "X").unwrap();
    }
    assert_eq!(5, inbound_len(&sv, "X"));
    assert_eq!(0, env_count(&sv, "X"));
    sv.poll_environment("X").unwrap();
    assert_eq!(5, env_count(&sv, "X"));
    assert_eq!(0, inbound_len(&sv, "X"));
}

#[test]
fn duplicate_environment_is_an_app_error() {
    let mut sv = Supervisor::<Core>::new();
    sv.create_environment("X").unwrap();
    assert!(is_app(&sv.create_environment("X")));
    assert_eq!(1, sv.num_environments());
}

#[test]
fn duplicate_join_and_affect_are_app_errors() {
    let mut sv = Supervisor::<Core>::new();
    sv.create_environment("X").unwrap();
    sv.create_environment("Y").unwrap();
    let a = sv.create_entity().unwrap();
    sv.join_environments(&a, vec!["X"]).unwrap();
    assert!(is_app(&sv.join_environments(&a, vec!["X"])));
    assert!(is_app(&sv.join_environments(&a, vec!["Y", "X"])));
    assert!(!sv.entity(&a).unwrap().has_joined("Y"));
    assert!(is_app(&sv.join_environments(&a, vec!["Y", "Y"])));
    sv.affect_environments(&a, vec!["Y"]).unwrap();
    assert!(is_app(&sv.affect_environments(&a, vec!["Y"])));
    assert_eq!(1, sv.entity(&a).unwrap().num_affected());
    assert_eq!(1, sv.environment("X").unwrap().num_joined());
    assert_eq!(1, sv.environment("Y").unwrap().num_affecting());
}

#[test]
fn entity_rejects_duplicate_edges() {
    let mut e = Entity::<Core>::with_uuid("a".to_string());
    e.join_environment("X").unwrap();
    assert!(is_app(&e.join_environment("X")));
    e.affect_environment("Y").unwrap();
    assert!(is_app(&e.affect_environment("Y")));
    assert_eq!(vec!["X".to_string()], e.joined_environments());
    assert_eq!(vec!["Y".to_string()], e.affected_environments());
    assert!(e.has_joined("X"));
    assert!(!e.has_joined("Y"));
    assert!(e.is_affecting("Y"));
    assert!(!e.is_affecting("X"));
}

#[test]
fn environment_broadcast_order() {
    let mut x = Environment::new("X");
    x.submit(ascii("a"));
    x.submit_all(&vec![ascii("b"), ascii("c")]);
    assert_eq!(3, x.num_inbound());
    assert_eq!(vec![ascii("a"), ascii("b"), ascii("c")], x.take_inbound());
    assert_eq!(3, x.num_received_effects());
    assert_eq!(0, x.num_inbound());
    assert!(x.take_inbound().is_empty());
}

#[test]
fn environment_registers_entities() {
    let mut x = Environment::new("X");
    let mut e = Entity::<Core>::with_uuid("a".to_string());
    x.register_joining_entity(&mut e).unwrap();
    x.register_affecting_entity(&mut e).unwrap();
    assert!(is_app(&x.register_joining_entity(&mut e)));
    assert!(is_app(&x.register_affecting_entity(&mut e)));
    assert_eq!("X", x.name());
    assert!(x.is_joined_by(&"a".to_string()));
    assert_eq!(1, x.num_joined());
    assert_eq!(1, x.num_affecting());
    assert!(e.has_joined("X"));
    assert!(e.is_affecting("X"));
}

#[test]
fn joined_environments_keep_join_order() {
    let mut sv = Supervisor::<Core>::new();
    for n in ["X", "Y", "Z"] {
        sv.create_environment(n).unwrap();
    }
    let a = sv.create_entity().unwrap();
    sv.join_environments(&a, vec!["Z", "X"]).unwrap();
    sv.join_environments(&a, vec!["Y"]).unwrap();
    let names = sv.entity(&a).unwrap().joined_environments();
    assert_eq!(vec!["Z".to_string(), "X".to_string(), "Y".to_string()], names);
}

#[test]
fn shutdown_makes_every_poll_ready() {
    let mut sv = Supervisor::<Core>::new();
    sv.create_environment("X").unwrap();
    let a = sv.create_entity().unwrap();
    sv.join_environments(&a, vec!["X"]).unwrap();
    assert_eq!(Progress::NotReady, sv.poll());
    assert_eq!(Progress::NotReady, sv.poll_environment("X").unwrap().0);
    assert_eq!(Progress::NotReady, sv.poll_entity(&a).unwrap().0);
    sv.send_sig_term();
    assert_eq!(Progress::Ready, sv.poll());
    assert_eq!(Progress::Ready, sv.poll_environment("X").unwrap().0);
    assert_eq!(Progress::Ready, sv.poll_entity(&a).unwrap().0);
}

#[test]
fn terminated_entity_completes() {
    let mut e = Entity::<Core>::with_uuid("t".to_string());
    e.send_sig_term();
    assert!(e.is_terminated());
    let mut sv = Supervisor::<Core>::new();
    let u = sv.add_entity(e).unwrap();
    assert_eq!("t", u);
    assert_eq!(Progress::Ready, sv.poll_entity("t").unwrap().0);
}

#[test]
fn unknown_names_are_app_errors() {
    let mut sv = Supervisor::<Core>::new();
    assert!(is_app(&sv.submit_effect(ascii("x"), "nowhere")));
    assert!(is_app(&sv.delete_environment("nowhere")));
    assert!(is_app(&sv.delete_entity("nobody")));
    assert!(is_app(&sv.inject_core("nobody", Core::Identity)));
    assert!(is_app(&sv.poll_environment("nowhere")));
    assert!(is_app(&sv.poll_entity("nobody")));
    assert!(is_app(&sv.join_environments("nobody", vec![])));
    let a = sv.create_entity().unwrap();
    assert!(is_app(&sv.join_environments(&a, vec!["nowhere"])));
    assert!(is_app(&sv.affect_environments(&a, vec!["nowhere"])));
    assert!(sv.environment("nowhere").is_none());
    assert!(sv.entity("nobody").is_none());
}

#[test]
fn duplicate_uuid_is_refused() {
    let mut sv = Supervisor::<Core>::new();
    sv.add_entity(Entity::<Core>::with_uuid("a".to_string())).unwrap();
    assert!(is_app(&sv.add_entity(Entity::<Core>::with_uuid("a".to_string()))));
    assert_eq!(1, sv.num_entities());
}

#[test]
fn create_and_delete_entity() {
    let mut sv = Supervisor::<Core>::new();
    let a = sv.create_entity().unwrap();
    let b = sv.create_entity().unwrap();
    assert_eq!(36, a.chars().count());
    assert_ne!(a, b);
    assert_eq!(2, sv.num_entities());
    sv.delete_entity(&a).unwrap();
    assert_eq!(1, sv.num_entities());
    assert!(sv.entity(&a).is_none());
    assert!(sv.entity(&b).is_some());
}

#[test]
fn entity_without_core_publishes_nothing() {
    let mut sv = Supervisor::<Core>::new();
    sv.create_environment("X").unwrap();
    sv.create_environment("Y").unwrap();
    let a = sv.create_entity().unwrap();
    sv.join_environments(&a, vec!["X"]).unwrap();
    sv.affect_environments(&a, vec!["Y"]).unwrap();
    sv.submit_effect(ascii("hello"), "X").unwrap();
    sv.run_rounds(3);
    assert_eq!(1, entity_count(&sv, &a));
    assert_eq!(0, env_count(&sv, "Y"));
}

#[test]
fn empty_core_output_is_not_published() {
    let mut sv = Supervisor::<Core>::new();
    sv.create_environment("X").unwrap();
    sv.create_environment("Y").unwrap();
    let a = sv.create_entity().unwrap();
    sv.inject_core(&a, Core::Reverse).unwrap();
    sv.join_environments(&a, vec!["X"]).unwrap();
    sv.affect_environments(&a, vec!["Y"]).unwrap();
    sv.submit_effect(Effect::Bytes(vec![1, 2, 3]), "X").unwrap();
    sv.submit_effect(Effect::Empty, "X").unwrap();
    sv.run_rounds(3);
    assert_eq!(2, entity_count(&sv, &a));
    assert_eq!(0, env_count(&sv, "Y"));
}

#[test]
fn reverse_text_reverses() {
    assert_eq!("olleh", reverse_text("hello"));
    assert_eq!("", reverse_text(""));
    assert_eq!("ba", reverse_text("ab"));
}

#[test]
fn cores_transform_effects() {
    assert_eq!(ascii("olleh"), Core::Reverse.process_effect(&ascii("hello")));
    assert_eq!(ascii("HELLO"), Core::Uppercase.process_effect(&ascii("hello")));
    assert_eq!(ascii("hello"), Core::Identity.process_effect(&ascii("hello")));
    assert_eq!(Effect::Empty, Core::Uppercase.process_effect(&Effect::Bytes2([1, 2])));
    assert_eq!(Effect::Bytes2([1, 2]), Core::Identity.process_effect(&Effect::Bytes2([1, 2])));
}

#[test]
fn outputs_skip_empty_results() {
    let received = vec![ascii("ab"), Effect::Trits(vec![1, 0, -1]), ascii("cd")];
    assert_eq!(vec![ascii("ba"), ascii("dc")], outputs_of(&Some(Core::Reverse), &received));
    assert!(outputs_of(&None::<Core>, &received).is_empty());
    assert_eq!(3, outputs_of(&Some(Core::Identity), &received).len());
}

#[test]
fn duplicate_copies_payload() {
    let e = Effect::Bytes(vec![9, 8, 7]);
    assert_eq!(e, e.duplicate());
    assert!(Effect::Empty.is_empty());
    assert!(!e.is_empty());
}

#[test]
fn entity_core_is_installed() {
    let mut e = Entity::<Core>::new();
    assert_eq!(36, e.uuid().chars().count());
    assert_eq!(&None, e.installed_core());
    e.inject_core(Core::Uppercase);
    assert_eq!(&Some(Core::Uppercase), e.installed_core());
}

#[test]
fn wakers_schedule_polls() {
    let mut sv = Supervisor::<Core>::new();
    sv.create_environment("X").unwrap();
    let a = sv.create_entity().unwrap();
    sv.join_environments(&a, vec!["X"]).unwrap();
    assert!(!sv.is_idle());
    sv.run_round();
    assert!(sv.is_idle());
    sv.submit_effect(ascii("hi"), "X").unwrap();
    assert!(sv.environment("X").unwrap().is_woken());
    assert!(!sv.entity(&a).unwrap().is_woken());
    sv.poll_environment("X").unwrap();
    assert!(!sv.environment("X").unwrap().is_woken());
    assert!(sv.entity(&a).unwrap().is_woken());
    sv.run_round();
    assert!(sv.is_idle());
    assert_eq!(1, entity_count(&sv, &a));
    sv.submit_effect(ascii("a"), "X").unwrap();
    sv.submit_effect(ascii("b"), "X").unwrap();
    sv.run_round();
    assert!(sv.is_idle());
    assert_eq!(3, env_count(&sv, "X"));
    assert_eq!(3, entity_count(&sv, &a));
}

#[test]
fn shutdown_wakes_every_task() {
    let mut sv = Supervisor::<Core>::new();
    sv.create_environment("X").unwrap();
    sv.create_environment("Y").unwrap();
    let a = sv.create_entity().unwrap();
    sv.join_environments(&a, vec!["X"]).unwrap();
    sv.run_rounds(2);
    assert!(sv.is_idle());
    sv.send_sig_term();
    assert!(sv.environment("X").unwrap().is_woken());
    assert!(sv.environment("Y").unwrap().is_woken());
    assert!(sv.entity(&a).unwrap().is_woken());
    assert_eq!(Progress::Ready, sv.poll());
    sv.run_round();
    assert!(sv.is_idle());
    assert_eq!(Progress::Ready, sv.poll_environment("Y").unwrap().0);
}

#[test]
fn deleting_an_environment_wakes_its_entities() {
    let mut sv = Supervisor::<Core>::new();
    sv.create_environment("X").unwrap();
    let a = sv.create_entity().unwrap();
    sv.join_environments(&a, vec!["X"]).unwrap();
    sv.run_rounds(2);
    assert!(sv.is_idle());
    sv.delete_environment("X").unwrap();
    assert!(sv.entity(&a).unwrap().is_woken());
    sv.run_round();
    assert!(!sv.entity(&a).unwrap().has_joined("X"));
    assert!(sv.is_idle());
}

#[test]
fn deleted_environment_is_no_longer_affected() {
    let mut sv = Supervisor::<Core>::new();
    sv.create_environment("X").unwrap();
    sv.create_environment("Y").unwrap();
    let a = sv.create_entity().unwrap();
    sv.inject_core(&a, Core::Identity).unwrap();
    sv.join_environments(&a, vec!["X"]).unwrap();
    sv.affect_environments(&a, vec!["Y"]).unwrap();
    sv.delete_environment("Y").unwrap();
    assert!(!sv.entity(&a).unwrap().is_affecting("Y"));
    assert_eq!(0, sv.entity(&a).unwrap().num_affected());
    sv.create_environment("Y").unwrap();
    sv.submit_effect(ascii("hello"), "X").unwrap();
    sv.run_rounds(3);
    assert_eq!(1, entity_count(&sv, &a));
    assert_eq!(0, env_count(&sv, "Y"));
}

#[test]
fn create_entity_succeeds_on_an_empty_registry() {
    let mut sv = Supervisor::<Core>::new();
    assert!(sv.create_entity().is_ok());
}

