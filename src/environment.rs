//! Environments: named broadcast nodes that fan the effects they receive out
//! to the entities that joined them.
use vstd::prelude::*;

use crate::effect::{effects_view, Effect, EffectModel};
use crate::entity::{fresh_joined, Entity, EntityModel};
use crate::errors::{is_app_error, Error};
use crate::inbox::{inbox_items, inbox_len, inbox_pop, inbox_push, new_inbox, Inbox};
use crate::transform::EffectCore;

verus! {

/// An environment in the EEE model.
pub struct Environment {
    name: String,
    joined_entities: Vec<String>,
    affecting_entities: Vec<String>,
    in_chan: Inbox,
    woken: bool,
    num_received_effects: usize,
}

/// The content of an [`Environment`]: its name, the uuids of the entities
/// that joined it and of those that affect it, in registration order, the
/// effects submitted to it and not yet broadcast, whether its waker was
/// notified since its last poll, and how many effects it received.
pub struct EnvironmentModel {
    pub name: Seq<char>,
    pub joined: Seq<Seq<char>>,
    pub affecting: Seq<Seq<char>>,
    pub inbox: Seq<EffectModel>,
    pub woken: bool,
    pub num_received: usize,
}

impl View for Environment {
    type V = EnvironmentModel;

    closed spec fn view(&self) -> EnvironmentModel {
        EnvironmentModel {
            name: self.name@,
            joined: self.joined_entities@.map_values(|s: String| s@),
            affecting: self.affecting_entities@.map_values(|s: String| s@),
            inbox: effects_view(inbox_items(self.in_chan)),
            woken: self.woken,
            num_received: self.num_received_effects,
        }
    }
}

impl EnvironmentModel {
    /// A new environment named `name`.
    pub open spec fn fresh(name: Seq<char>) -> EnvironmentModel {
        EnvironmentModel {
            name,
            joined: Seq::empty(),
            affecting: Seq::empty(),
            inbox: Seq::empty(),
            woken: true,
            num_received: 0,
        }
    }

    /// The environment after `effect` was submitted to it and its waker
    /// notified.
    pub open spec fn submitted(self, effect: EffectModel) -> EnvironmentModel {
        EnvironmentModel { inbox: self.inbox.push(effect), woken: true, ..self }
    }

    /// The environment after `effects` were published to it, its waker
    /// notified for each.
    pub open spec fn published(self, effects: Seq<EffectModel>) -> EnvironmentModel {
        EnvironmentModel { inbox: self.inbox + effects, woken: self.woken || effects.len() > 0, ..self }
    }

    /// The environment after a poll took everything submitted to it.
    pub open spec fn drained(self) -> EnvironmentModel {
        EnvironmentModel {
            inbox: Seq::empty(),
            woken: false,
            num_received: self.num_received.saturating_add(self.inbox.len() as usize),
            ..self
        }
    }
}

impl Environment {
    /// Creates a new environment.
    pub fn new(name: &str) -> (r: Environment)
        ensures
            r@ == EnvironmentModel::fresh(name@),
    {
        let r = Environment {
            name: name.to_owned(),
            joined_entities: Vec::new(),
            affecting_entities: Vec::new(),
            in_chan: new_inbox(),
            woken: true,
            num_received_effects: 0,
        };
        assert(r@.joined =~= Seq::empty());
        assert(r@.affecting =~= Seq::empty());
        assert(r@.inbox =~= Seq::empty());
        r
    }

    /// Registers an entity that wants to join this environment.
    pub fn register_joining_entity<C: EffectCore>(&mut self, entity: &mut Entity<C>) -> (r: Result<(), Error>)
        requires
            old(entity)@.wf(),
        ensures
            final(entity)@.wf(),
            old(entity)@.has_joined(old(self)@.name) ==> is_app_error(r) && final(self)@ == old(self)@
                && final(entity)@ == old(entity)@,
            !old(entity)@.has_joined(old(self)@.name) ==> r is Ok && final(self)@ == (EnvironmentModel {
                joined: old(self)@.joined.push(old(entity)@.uuid),
                ..old(self)@
            }) && final(entity)@ == (EntityModel {
                joined: old(entity)@.joined.push(fresh_joined(old(self)@.name)),
                ..old(entity)@
            }),
    {
        entity.join_environment(self.name.as_str())?;
        let ghost before = self@;
        let uuid = entity.uuid();
        self.joined_entities.push(uuid);
        proof {
            assert(self@.joined =~= before.joined.push(entity@.uuid));
        }
        Ok(())
    }

    /// Registers an entity that wants to affect this environment.
    pub fn register_affecting_entity<C: EffectCore>(&mut self, entity: &mut Entity<C>) -> (r: Result<(), Error>)
        requires
            old(entity)@.wf(),
        ensures
            final(entity)@.wf(),
            old(entity)@.is_affecting(old(self)@.name) ==> is_app_error(r) && final(self)@
                == old(self)@ && final(entity)@ == old(entity)@,
            !old(entity)@.is_affecting(old(self)@.name) ==> r is Ok && final(self)@ == (
            EnvironmentModel { affecting: old(self)@.affecting.push(old(entity)@.uuid), ..old(self)@ })
                && final(entity)@ == (EntityModel {
                affected: old(entity)@.affected.push(old(self)@.name),
                ..old(entity)@
            }),
    {
        entity.affect_environment(self.name.as_str())?;
        let ghost before = self@;
        let uuid = entity.uuid();
        self.affecting_entities.push(uuid);
        proof {
            assert(self@.affecting =~= before.affecting.push(entity@.uuid));
        }
        Ok(())
    }

    /// Returns the name of this environment.
    pub fn name(&self) -> (r: String)
        ensures
            r@ == self@.name,
    {
        self.name.clone()
    }

    /// Returns the number of effects that this environment has received.
    pub fn num_received_effects(&self) -> (r: usize)
        ensures
            r == self@.num_received,
    {
        self.num_received_effects
    }

    /// The number of effects submitted to this environment and not yet
    /// broadcast.
    pub fn num_inbound(&self) -> (r: usize)
        ensures
            r == self@.inbox.len(),
    {
        inbox_len(&self.in_chan)
    }

    /// Whether this environment's waker was notified since its last poll.
    pub fn is_woken(&self) -> (r: bool)
        ensures
            r == self@.woken,
    {
        self.woken
    }

    /// Notifies this environment's waker: it is to be polled again.
    pub fn wake(&mut self)
        ensures
            final(self)@ == (EnvironmentModel { woken: true, ..old(self)@ }),
    {
        self.woken = true;
    }

    /// Returns the number of entities that joined this environment.
    pub fn num_joined(&self) -> (r: usize)
        ensures
            r == self@.joined.len(),
    {
        self.joined_entities.len()
    }

    /// Returns the number of entities that affect this environment.
    pub fn num_affecting(&self) -> (r: usize)
        ensures
            r == self@.affecting.len(),
    {
        self.affecting_entities.len()
    }

    /// Whether the entity with uuid `uuid` joined this environment.
    pub fn is_joined_by(&self, uuid: &String) -> (r: bool)
        ensures
            r == self@.joined.contains(uuid@),
    {
        let mut i: usize = 0;
        while i < self.joined_entities.len()
            invariant
                i <= self.joined_entities@.len(),
                forall|k: int| 0 <= k < i ==> self@.joined[k] != uuid@,
            decreases self.joined_entities@.len() - i,
        {
            if self.joined_entities[i] == *uuid {
                assert(self@.joined[i as int] == uuid@);
                return true;
            }
            i = i + 1;
        }
        false
    }

    /// Puts an effect on this environment's inbound channel.
    pub fn submit(&mut self, effect: Effect)
        ensures
            final(self)@ == old(self)@.submitted(effect@),
    {
        let ghost prev = inbox_items(self.in_chan);
        inbox_push(&mut self.in_chan, effect);
        self.woken = true;
        proof {
            crate::effect::lemma_effects_view_push(prev, effect);
        }
    }

    /// Puts copies of `effects`, in order, on this environment's inbound
    /// channel.
    pub fn submit_all(&mut self, effects: &Vec<Effect>)
        ensures
            final(self)@ == old(self)@.published(effects_view(effects@)),
    {
        let mut k: usize = 0;
        while k < effects.len()
            invariant
                k <= effects@.len(),
                self@ == (EnvironmentModel {
                    inbox: old(self)@.inbox + effects_view(effects@.subrange(0, k as int)),
                    woken: old(self)@.woken || k > 0,
                    ..old(self)@
                }),
            decreases effects@.len() - k,
        {
            let e = effects[k].duplicate();
            self.submit(e);
            proof {
                crate::effect::lemma_effects_view_push(effects@.subrange(0, k as int), effects@[k as int]);
                assert(effects@.subrange(0, k + 1 as int) =~= effects@.subrange(0, k as int).push(effects@[k as int]));
            }
            k = k + 1;
            assert(self@.inbox =~= old(self)@.inbox + effects_view(effects@.subrange(0, k as int)));
        }
        assert(effects@.subrange(0, k as int) =~= effects@);
    }

    /// Takes every effect from the inbound channel, in the order they came,
    /// and counts them as received.
    pub fn take_inbound(&mut self) -> (r: Vec<Effect>)
        ensures
            effects_view(r@) == old(self)@.inbox,
            final(self)@ == old(self)@.drained(),
    {
        let mut r: Vec<Effect> = Vec::new();
        loop
            invariant
                self.name == old(self).name,
                self.joined_entities == old(self).joined_entities,
                self.affecting_entities == old(self).affecting_entities,
                self.num_received_effects == old(self).num_received_effects,
                self.woken == old(self).woken,
                effects_view(r@) + self@.inbox == old(self)@.inbox,
            ensures
                self.name == old(self).name,
                self.joined_entities == old(self).joined_entities,
                self.affecting_entities == old(self).affecting_entities,
                self.num_received_effects == old(self).num_received_effects,
                self.woken == old(self).woken,
                effects_view(r@) + self@.inbox == old(self)@.inbox,
                inbox_items(self.in_chan).len() == 0,
            decreases inbox_items(self.in_chan).len(),
        {
            let ghost before = inbox_items(self.in_chan);
            match inbox_pop(&mut self.in_chan) {
                Some(e) => {
                    let ghost prev = r@;
                    r.push(e);
                    proof {
                        crate::effect::lemma_effects_view_push(prev, e);
                        assert(effects_view(before) =~= seq![e@] + effects_view(before.drop_first()));
                        assert(effects_view(r@) + self@.inbox =~= effects_view(prev) + effects_view(before));
                    }
                },
                None => {
                    break;
                },
            }
        }
        proof {
            assert(self@.inbox.len() == 0);
            assert(effects_view(r@) =~= old(self)@.inbox);
        }
        self.num_received_effects = self.num_received_effects.saturating_add(r.len());
        self.woken = false;
        assert(self@.inbox =~= Seq::empty());
        r
    }
}

} // verus!
