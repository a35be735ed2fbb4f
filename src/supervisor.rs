//! The Supervisor: the registry that owns every environment and entity,
//! wires join and affect edges, takes submitted effects and drives the polls
//! that move effects along.
use vstd::prelude::*;

use crate::effect::{effects_view, Effect, EffectModel};
use crate::entity::{fresh_joined, Entity, EntityModel};
use crate::environment::{Environment, EnvironmentModel};
use crate::errors::{is_app_error, Error};
use crate::transform::{outputs, outputs_of, EffectCore};

verus! {

/// What a poll of a task reports: it has completed, or it waits to be polled
/// again.
#[derive(Clone, Copy, PartialEq, Eq, Structural, Debug)]
pub enum Progress {
    Ready,
    NotReady,
}

/// Registry for environments and entities.
pub struct Supervisor<C> {
    environments: Vec<Environment>,
    entities: Vec<Entity<C>>,
    shutdown: bool,
}

/// The content of a [`Supervisor`]: its environments and entities in the
/// order they were created, and whether shutdown was signalled.
pub struct SupervisorModel<C> {
    pub environments: Seq<EnvironmentModel>,
    pub entities: Seq<EntityModel<C>>,
    pub shutdown: bool,
}

impl<C> View for Supervisor<C> {
    type V = SupervisorModel<C>;

    closed spec fn view(&self) -> SupervisorModel<C> {
        SupervisorModel {
            environments: self.environments@.map_values(|e: Environment| e@),
            entities: self.entities@.map_values(|e: Entity<C>| e@),
            shutdown: self.shutdown,
        }
    }
}

impl<C: EffectCore> SupervisorModel<C> {
    /// An empty registry.
    pub open spec fn empty() -> SupervisorModel<C> {
        SupervisorModel { environments: Seq::empty(), entities: Seq::empty(), shutdown: false }
    }

    /// Environment names are unique, entity uuids are unique, and each entity
    /// is well formed.
    pub open spec fn wf(self) -> bool {
        &&& forall|i: int, j: int|
            0 <= i < j < self.environments.len() ==> #[trigger] self.environments[i].name
                != #[trigger] self.environments[j].name
        &&& forall|i: int, j: int|
            0 <= i < j < self.entities.len() ==> #[trigger] self.entities[i].uuid
                != #[trigger] self.entities[j].uuid
        &&& forall|i: int| 0 <= i < self.entities.len() ==> #[trigger] self.entities[i].wf()
    }

    pub open spec fn has_env(self, name: Seq<char>) -> bool {
        exists|i: int| 0 <= i < self.environments.len() && #[trigger] self.environments[i].name == name
    }

    /// The position of the environment named `name`.
    pub open spec fn env_index(self, name: Seq<char>) -> int {
        choose|i: int| 0 <= i < self.environments.len() && #[trigger] self.environments[i].name == name
    }

    /// The environment named `name`.
    pub open spec fn env(self, name: Seq<char>) -> EnvironmentModel {
        self.environments[self.env_index(name)]
    }

    pub open spec fn has_entity(self, uuid: Seq<char>) -> bool {
        exists|i: int| 0 <= i < self.entities.len() && #[trigger] self.entities[i].uuid == uuid
    }

    /// The position of the entity with uuid `uuid`.
    pub open spec fn entity_index(self, uuid: Seq<char>) -> int {
        choose|i: int| 0 <= i < self.entities.len() && #[trigger] self.entities[i].uuid == uuid
    }

    /// The entity with uuid `uuid`.
    pub open spec fn entity(self, uuid: Seq<char>) -> EntityModel<C> {
        self.entities[self.entity_index(uuid)]
    }

    /// The registry after a new environment named `name` was added.
    pub open spec fn env_created(self, name: Seq<char>) -> SupervisorModel<C> {
        SupervisorModel { environments: self.environments.push(EnvironmentModel::fresh(name)), ..self }
    }

    /// The registry after the environment named `name` was removed and every
    /// entity was told that it is gone.
    pub open spec fn env_deleted(self, name: Seq<char>) -> SupervisorModel<C> {
        SupervisorModel {
            environments: self.environments.remove(self.env_index(name)),
            entities: Seq::new(self.entities.len(), |k: int| self.entities[k].closed(name)),
            ..self
        }
    }

    /// The registry after `entity` was added.
    pub open spec fn entity_added(self, entity: EntityModel<C>) -> SupervisorModel<C> {
        SupervisorModel { entities: self.entities.push(entity), ..self }
    }

    /// The registry after the entity with uuid `uuid` was removed.
    pub open spec fn entity_deleted(self, uuid: Seq<char>) -> SupervisorModel<C> {
        SupervisorModel { entities: self.entities.remove(self.entity_index(uuid)), ..self }
    }

    /// The registry after `effect` was submitted to the environment `name`.
    pub open spec fn submitted(self, effect: EffectModel, name: Seq<char>) -> SupervisorModel<C> {
        let i = self.env_index(name);
        SupervisorModel {
            environments: self.environments.update(i, self.environments[i].submitted(effect)),
            ..self
        }
    }

    /// The registry after `effects` were submitted one by one to the
    /// environment `name`.
    pub open spec fn submitted_all(self, effects: Seq<EffectModel>, name: Seq<char>) -> SupervisorModel<C>
        decreases effects.len(),
    {
        if effects.len() == 0 {
            self
        } else {
            self.submitted_all(effects.drop_last(), name).submitted(effects.last(), name)
        }
    }

    /// The registry after the entity `uuid` got the core `core`.
    pub open spec fn core_injected(self, uuid: Seq<char>, core: C) -> SupervisorModel<C> {
        let k = self.entity_index(uuid);
        SupervisorModel {
            entities: self.entities.update(k, EntityModel { core: Some(core), ..self.entities[k] }),
            ..self
        }
    }

    /// Whether the entity `uuid` can join every environment of `names`: it
    /// exists, every name is a known environment, no name is listed twice,
    /// and it joined none of them yet.
    pub open spec fn can_join(self, uuid: Seq<char>, names: Seq<Seq<char>>) -> bool {
        self.can_link(uuid, names, true)
    }

    /// The registry after the entity `uuid` joined the environments `names`,
    /// in that order.
    pub open spec fn joined_all(self, uuid: Seq<char>, names: Seq<Seq<char>>) -> SupervisorModel<C> {
        self.linked_all(uuid, names, true)
    }

    /// Whether the entity `uuid` can affect every environment of `names`:
    /// it exists, every name is a known environment, no name is listed
    /// twice, and it affects none of them yet.
    pub open spec fn can_affect(self, uuid: Seq<char>, names: Seq<Seq<char>>) -> bool {
        self.can_link(uuid, names, false)
    }

    /// The registry after the entity `uuid` started to affect the
    /// environments `names`, in that order.
    pub open spec fn affected_all(self, uuid: Seq<char>, names: Seq<Seq<char>>) -> SupervisorModel<C> {
        self.linked_all(uuid, names, false)
    }

    /// Whether the entity `uuid` can join (`joining`) or affect every
    /// environment of `names`.
    pub open spec fn can_link(self, uuid: Seq<char>, names: Seq<Seq<char>>, joining: bool) -> bool {
        &&& self.has_entity(uuid)
        &&& forall|a: int| 0 <= a < names.len() ==> self.has_env(#[trigger] names[a])
        &&& names.no_duplicates()
        &&& forall|a: int| 0 <= a < names.len() ==> !is_linked(self.entity(uuid), #[trigger] names[a], joining)
    }

    /// The registry after the entity `uuid` joined (`joining`) or started to
    /// affect the environments `names`, in that order.
    pub open spec fn linked_all(self, uuid: Seq<char>, names: Seq<Seq<char>>, joining: bool) -> SupervisorModel<C> {
        let k = self.entity_index(uuid);
        SupervisorModel {
            environments: Seq::new(
                self.environments.len(),
                |j: int|
                    if names.contains(self.environments[j].name) {
                        env_linked(self.environments[j], uuid, joining)
                    } else {
                        self.environments[j]
                    },
            ),
            entities: self.entities.update(k, entity_linked(self.entities[k], names, joining)),
            ..self
        }
    }

    /// The registry after the environment at position `i` was polled: it
    /// took everything from its inbox and broadcast it, in order, to each
    /// entity that joined it, and notified each of them.
    pub open spec fn env_polled(self, i: int) -> SupervisorModel<C> {
        let env = self.environments[i];
        SupervisorModel {
            environments: self.environments.update(i, env.drained()),
            entities: Seq::new(
                self.entities.len(),
                |k: int|
                    if env.joined.contains(self.entities[k].uuid) {
                        EntityModel { woken: true, ..self.entities[k].delivered(env.name, env.inbox) }
                    } else {
                        self.entities[k]
                    },
            ),
            ..self
        }
    }

    /// The registry after the entity at position `k` was polled: it received
    /// everything waiting for it, left the dropped environments, and
    /// published what its core made of the received effects to every
    /// environment it affects.
    pub open spec fn entity_polled(self, k: int) -> SupervisorModel<C> {
        let e = self.entities[k];
        let outs = outputs(e.core, e.pending());
        SupervisorModel {
            environments: Seq::new(
                self.environments.len(),
                |j: int|
                    if e.affected.contains(self.environments[j].name) {
                        self.environments[j].published(outs)
                    } else {
                        self.environments[j]
                    },
            ),
            entities: self.entities.update(k, e.received()),
            ..self
        }
    }

    /// What a poll of the entity at position `k` reports.
    pub open spec fn entity_progress(self, k: int) -> Progress {
        if self.shutdown || self.entities[k].terminated {
            Progress::Ready
        } else {
            Progress::NotReady
        }
    }

    /// The environment at position `i` is polled if it was woken.
    pub open spec fn env_step(self, i: int) -> SupervisorModel<C> {
        if self.environments[i].woken {
            self.env_polled(i)
        } else {
            self
        }
    }

    /// The entity at position `k` is polled if it was woken.
    pub open spec fn entity_step(self, k: int) -> SupervisorModel<C> {
        if self.entities[k].woken {
            self.entity_polled(k)
        } else {
            self
        }
    }

    /// The registry after the first `n` environments had their step, in
    /// order.
    pub open spec fn envs_polled_upto(self, n: int) -> SupervisorModel<C>
        decreases n,
    {
        if n <= 0 {
            self
        } else {
            self.envs_polled_upto(n - 1).env_step(n - 1)
        }
    }

    /// The registry after the first `n` entities had their step, in order.
    pub open spec fn entities_polled_upto(self, n: int) -> SupervisorModel<C>
        decreases n,
    {
        if n <= 0 {
            self
        } else {
            self.entities_polled_upto(n - 1).entity_step(n - 1)
        }
    }

    /// The registry after shutdown was signalled: the signal wakes every
    /// environment and every entity.
    pub open spec fn sig_termed(self) -> SupervisorModel<C> {
        SupervisorModel {
            environments: Seq::new(
                self.environments.len(),
                |j: int| EnvironmentModel { woken: true, ..self.environments[j] },
            ),
            entities: Seq::new(self.entities.len(), |k: int| EntityModel { woken: true, ..self.entities[k] }),
            shutdown: true,
        }
    }

    /// No environment and no entity was woken.
    pub open spec fn idle(self) -> bool {
        &&& forall|j: int| 0 <= j < self.environments.len() ==> !(#[trigger] self.environments[j]).woken
        &&& forall|k: int| 0 <= k < self.entities.len() ==> !(#[trigger] self.entities[k]).woken
    }

    /// The registry after one round: every woken environment polled in
    /// order, then every woken entity.
    pub open spec fn round(self) -> SupervisorModel<C> {
        let s = self.envs_polled_upto(self.environments.len() as int);
        s.entities_polled_upto(s.entities.len() as int)
    }

    /// The registry after `n` rounds.
    pub open spec fn rounds(self, n: nat) -> SupervisorModel<C>
        decreases n,
    {
        if n == 0 {
            self
        } else {
            self.rounds((n - 1) as nat).round()
        }
    }

    /// What a poll of any task reports in this state, for a task that was
    /// not told to terminate on its own.
    pub open spec fn progress(self) -> Progress {
        if self.shutdown {
            Progress::Ready
        } else {
            Progress::NotReady
        }
    }
}

/// Whether `e` joined (`joining`) or affects the environment `name`.
pub open spec fn is_linked<C>(e: EntityModel<C>, name: Seq<char>, joining: bool) -> bool {
    if joining {
        e.has_joined(name)
    } else {
        e.is_affecting(name)
    }
}

/// The environment `env` after the entity `uuid` joined (`joining`) or
/// started to affect it.
pub open spec fn env_linked(env: EnvironmentModel, uuid: Seq<char>, joining: bool) -> EnvironmentModel {
    if joining {
        EnvironmentModel { joined: env.joined.push(uuid), ..env }
    } else {
        EnvironmentModel { affecting: env.affecting.push(uuid), ..env }
    }
}

/// The entity `e` after it joined (`joining`) or started to affect the
/// environments `names`, in that order.
pub open spec fn entity_linked<C>(e: EntityModel<C>, names: Seq<Seq<char>>, joining: bool) -> EntityModel<C> {
    if joining {
        EntityModel { joined: e.joined + names.map_values(|n: Seq<char>| fresh_joined(n)), ..e }
    } else {
        EntityModel { affected: e.affected + names, ..e }
    }
}

/// The names of `names` as character sequences.
pub open spec fn names_view(names: Seq<&str>) -> Seq<Seq<char>> {
    names.map_values(|s: &str| s@)
}

impl<C: EffectCore> Supervisor<C> {
    /// Creates a new supervisor.
    pub fn new() -> (r: Supervisor<C>)
        ensures
            r@ == SupervisorModel::<C>::empty(),
            r@.wf(),
    {
        let r = Supervisor { environments: Vec::new(), entities: Vec::new(), shutdown: false };
        assert(r@.environments =~= Seq::empty());
        assert(r@.entities =~= Seq::empty());
        r
    }

    /// The position of the environment named `name`, if there is one.
    fn find_environment(&self, name: &str) -> (r: Option<usize>)
        requires
            self@.wf(),
        ensures
            r is None <==> !self@.has_env(name@),
            r matches Some(i) ==> i == self@.env_index(name@) && i < self@.environments.len(),
    {
        let key = name.to_owned();
        let mut i: usize = 0;
        while i < self.environments.len()
            invariant
                self@.wf(),
                key@ == name@,
                i <= self@.environments.len(),
                forall|k: int| 0 <= k < i ==> #[trigger] self@.environments[k].name != name@,
            decreases self@.environments.len() - i,
        {
            let n = self.environments[i].name();
            if n == key {
                assert(self@.environments[i as int].name == name@);
                let ghost c = self@.env_index(name@);
                assert(self@.environments[c].name == name@);
                return Some(i);
            }
            i = i + 1;
        }
        None
    }

    /// The position of the entity with uuid `uuid`, if there is one.
    fn find_entity(&self, uuid: &str) -> (r: Option<usize>)
        requires
            self@.wf(),
        ensures
            r is None <==> !self@.has_entity(uuid@),
            r matches Some(i) ==> i == self@.entity_index(uuid@) && i < self@.entities.len(),
    {
        let key = uuid.to_owned();
        let mut i: usize = 0;
        while i < self.entities.len()
            invariant
                self@.wf(),
                key@ == uuid@,
                i <= self@.entities.len(),
                forall|k: int| 0 <= k < i ==> #[trigger] self@.entities[k].uuid != uuid@,
            decreases self@.entities.len() - i,
        {
            let n = self.entities[i].uuid();
            if n == key {
                assert(self@.entities[i as int].uuid == uuid@);
                let ghost c = self@.entity_index(uuid@);
                assert(self@.entities[c].uuid == uuid@);
                return Some(i);
            }
            i = i + 1;
        }
        None
    }

    /// Creates a new environment.
    pub fn create_environment(&mut self, name: &str) -> (r: Result<(), Error>)
        requires
            old(self)@.wf(),
        ensures
            final(self)@.wf(),
            old(self)@.has_env(name@) ==> is_app_error(r) && final(self)@ == old(self)@,
            !old(self)@.has_env(name@) ==> r is Ok && final(self)@ == old(self)@.env_created(name@),
    {
        if self.find_environment(name).is_some() {
            return Err(Error::App("Environment with that name already exists."));
        }
        let ghost before = self@;
        self.environments.push(Environment::new(name));
        proof {
            assert(self@.environments =~= before.environments.push(EnvironmentModel::fresh(name@)));
            assert forall|i: int, j: int|
                0 <= i < j < self@.environments.len() implies #[trigger] self@.environments[i].name
                    != #[trigger] self@.environments[j].name by {
                if j == self@.environments.len() - 1 {
                    assert(before.environments[i].name != name@);
                }
            }
        }
        Ok(())
    }

    /// Deletes an environment; the entities that joined it leave it on their
    /// next poll.
    pub fn delete_environment(&mut self, env_name: &str) -> (r: Result<(), Error>)
        requires
            old(self)@.wf(),
        ensures
            final(self)@.wf(),
            !old(self)@.has_env(env_name@) ==> is_app_error(r) && final(self)@ == old(self)@,
            old(self)@.has_env(env_name@) ==> r is Ok && final(self)@ == old(self)@.env_deleted(env_name@),
    {
        let i = match self.find_environment(env_name) {
            Some(i) => i,
            None => {
                return Err(
                    Error::App("There is no environment with that name managed by this supervisor."),
                );
            },
        };
        let ghost before = self@;
        let ghost target = before.env_deleted(env_name@);
        let _ = self.environments.remove(i);
        let key = env_name.to_owned();
        let mut k: usize = 0;
        while k < self.entities.len()
            invariant
                key@ == env_name@,
                target == before.env_deleted(env_name@),
                self@.environments == target.environments,
                self@.shutdown == before.shutdown,
                k <= self.entities@.len(),
                self.entities@.len() == before.entities.len(),
                before.wf(),
                forall|m: int|
                    0 <= m < k ==> #[trigger] self.entities@[m]@ == before.entities[m].closed(env_name@)
                        && self.entities@[m]@.wf(),
                forall|m: int| k <= m < self.entities@.len() ==> #[trigger] self.entities@[m]@ == before.entities[m],
            decreases self.entities@.len() - k,
        {
            self.entities[k].close_joined(&key);
            k = k + 1;
        }
        proof {
            assert(self@.environments =~= target.environments);
            assert(self@.entities =~= target.entities);
            assert forall|a: int, b: int|
                0 <= a < b < self@.entities.len() implies #[trigger] self@.entities[a].uuid
                    != #[trigger] self@.entities[b].uuid by {
                assert(self@.entities[a].uuid == before.entities[a].uuid);
                assert(self@.entities[b].uuid == before.entities[b].uuid);
            }
            assert forall|a: int| 0 <= a < self@.entities.len() implies #[trigger] self@.entities[a].wf() by {
                assert(self@.entities[a] == self.entities@[a]@);
            }
            assert forall|i: int, j: int|
                0 <= i < j < self@.environments.len() implies #[trigger] self@.environments[i].name
                    != #[trigger] self@.environments[j].name by {
                let c = before.env_index(env_name@);
                let i0 = if i < c { i } else { i + 1 };
                let j0 = if j < c { j } else { j + 1 };
                assert(self@.environments[i] == before.environments[i0]);
                assert(self@.environments[j] == before.environments[j0]);
            }
        }
        Ok(())
    }

    /// Creates an entity with a fresh random uuid and returns that uuid.
    /// Fails only if an entity with the drawn uuid is already registered, so
    /// it succeeds on a registry that holds no 36-character uuid.
    pub fn create_entity(&mut self) -> (r: Result<String, Error>)
        requires
            old(self)@.wf(),
        ensures
            final(self)@.wf(),
            is_app_error(r) ==> final(self)@ == old(self)@,
            r matches Ok(u) ==> u@.len() == 36 && !old(self)@.has_entity(u@)
                && final(self)@ == old(self)@.entity_added(EntityModel::<C>::fresh(u@)),
            r is Ok || is_app_error(r),
            is_app_error(r) ==> exists|i: int|
                0 <= i < old(self)@.entities.len() && #[trigger] old(self)@.entities[i].uuid.len() == 36,
    {
        let e = Entity::<C>::new();
        self.add_entity(e)
    }

    /// Registers `entity` and returns its uuid. Fails if an entity with the
    /// same uuid is already registered.
    pub fn add_entity(&mut self, entity: Entity<C>) -> (r: Result<String, Error>)
        requires
            old(self)@.wf(),
            entity@.wf(),
        ensures
            final(self)@.wf(),
            old(self)@.has_entity(entity@.uuid) ==> is_app_error(r) && final(self)@ == old(self)@,
            !old(self)@.has_entity(entity@.uuid) ==> (r matches Ok(u) && u@ == entity@.uuid
                && final(self)@ == old(self)@.entity_added(entity@)),
    {
        let uuid = entity.uuid();
        if self.find_entity(uuid.as_str()).is_some() {
            return Err(Error::App("An entity with that uuid is already managed by this supervisor."));
        }
        let ghost before = self@;
        let ghost em = entity@;
        self.entities.push(entity);
        proof {
            assert(self@.entities =~= before.entities.push(em));
            assert(self@.environments =~= before.environments);
            assert forall|a: int| 0 <= a < self@.entities.len() implies #[trigger] self@.entities[a].wf() by {
                if a < before.entities.len() {
                    assert(self@.entities[a] == before.entities[a]);
                }
            }
            assert forall|i: int, j: int|
                0 <= i < j < self@.entities.len() implies #[trigger] self@.entities[i].uuid
                    != #[trigger] self@.entities[j].uuid by {
                if j == self@.entities.len() - 1 {
                    assert(before.entities[i].uuid != em.uuid);
                }
            }
        }
        Ok(uuid)
    }

    /// Deletes an entity.
    pub fn delete_entity(&mut self, uuid: &str) -> (r: Result<(), Error>)
        requires
            old(self)@.wf(),
        ensures
            final(self)@.wf(),
            !old(self)@.has_entity(uuid@) ==> is_app_error(r) && final(self)@ == old(self)@,
            old(self)@.has_entity(uuid@) ==> r is Ok && final(self)@ == old(self)@.entity_deleted(uuid@),
    {
        let k = match self.find_entity(uuid) {
            Some(k) => k,
            None => {
                return Err(Error::App("There is no entity with that uuid managed by this supervisor."));
            },
        };
        let ghost before = self@;
        let _ = self.entities.remove(k);
        proof {
            assert(self@.entities =~= before.entities.remove(k as int));
            assert(self@.environments =~= before.environments);
            assert forall|i: int, j: int|
                0 <= i < j < self@.entities.len() implies #[trigger] self@.entities[i].uuid
                    != #[trigger] self@.entities[j].uuid by {
                let i0 = if i < k { i } else { i + 1 };
                let j0 = if j < k { j } else { j + 1 };
                assert(self@.entities[i] == before.entities[i0]);
                assert(self@.entities[j] == before.entities[j0]);
            }
            assert forall|i: int| 0 <= i < self@.entities.len() implies #[trigger] self@.entities[i].wf() by {
                let i0 = if i < k { i } else { i + 1 };
                assert(self@.entities[i] == before.entities[i0]);
            }
        }
        Ok(())
    }

    /// Checks the names handed to `join_environments` or
    /// `affect_environments`: each names a known environment, none is listed
    /// twice, and the entity at `k` neither joined (`joining`) nor affects
    /// (otherwise) any of them.
    fn check_names(&self, k: usize, names: &Vec<&str>, joining: bool) -> (r: bool)
        requires
            self@.wf(),
            k < self@.entities.len(),
        ensures
            r <==> (forall|a: int| 0 <= a < names@.len() ==> self@.has_env(#[trigger] names_view(names@)[a]))
                && names_view(names@).no_duplicates()
                && (joining ==> forall|a: int|
                0 <= a < names@.len() ==> !self@.entities[k as int].has_joined(#[trigger] names_view(names@)[a]))
                && (!joining ==> forall|a: int|
                0 <= a < names@.len() ==> !self@.entities[k as int].is_affecting(#[trigger] names_view(names@)[a])),
    {
        let ghost nv = names_view(names@);
        let mut i: usize = 0;
        while i < names.len()
            invariant
                self@.wf(),
                k < self@.entities.len(),
                nv == names_view(names@),
                i <= names@.len(),
                forall|a: int| 0 <= a < i ==> self@.has_env(#[trigger] nv[a]),
                forall|a: int, b: int| 0 <= a < b < i ==> #[trigger] nv[a] != #[trigger] nv[b],
                joining ==> forall|a: int| 0 <= a < i ==> !self@.entities[k as int].has_joined(#[trigger] nv[a]),
                !joining ==> forall|a: int| 0 <= a < i ==> !self@.entities[k as int].is_affecting(#[trigger] nv[a]),
            decreases names@.len() - i,
        {
            let name = names[i];
            assert(nv[i as int] == name@);
            if self.find_environment(name).is_none() {
                return false;
            }
            if joining {
                if self.entities[k].has_joined(name) {
                    return false;
                }
            } else {
                if self.entities[k].is_affecting(name) {
                    return false;
                }
            }
            let key = name.to_owned();
            let mut j: usize = 0;
            while j < i
                invariant
                    j <= i,
                    i < names@.len(),
                    nv == names_view(names@),
                    key@ == nv[i as int],
                    forall|b: int| 0 <= b < j ==> #[trigger] nv[b] != nv[i as int],
                decreases i - j,
            {
                let other = names[j].to_owned();
                assert(nv[j as int] == other@);
                if other == key {
                    assert(nv[j as int] == nv[i as int]);
                    assert(!nv.no_duplicates());
                    return false;
                }
                j = j + 1;
            }
            i = i + 1;
        }
        true
    }

    /// Lets the specified entity join one or more environments. Nothing
    /// changes unless every name is a known environment, listed once and not
    /// yet joined by the entity.
    pub fn join_environments(&mut self, uuid: &str, environments: Vec<&str>) -> (r: Result<(), Error>)
        requires
            old(self)@.wf(),
        ensures
            final(self)@.wf(),
            !old(self)@.can_join(uuid@, names_view(environments@)) ==> is_app_error(r) && final(self)@
                == old(self)@,
            old(self)@.can_join(uuid@, names_view(environments@)) ==> r is Ok && final(self)@
                == old(self)@.joined_all(uuid@, names_view(environments@)),
    {
        self.link_environments(uuid, &environments, true)
    }

    /// Lets the specified entity affect one or more environments. Nothing
    /// changes unless every name is a known environment, listed once and not
    /// yet affected by the entity.
    pub fn affect_environments(&mut self, uuid: &str, environments: Vec<&str>) -> (r: Result<(), Error>)
        requires
            old(self)@.wf(),
        ensures
            final(self)@.wf(),
            !old(self)@.can_affect(uuid@, names_view(environments@)) ==> is_app_error(r) && final(self)@
                == old(self)@,
            old(self)@.can_affect(uuid@, names_view(environments@)) ==> r is Ok && final(self)@
                == old(self)@.affected_all(uuid@, names_view(environments@)),
    {
        self.link_environments(uuid, &environments, false)
    }

    /// Lets the entity `uuid` join (`joining`) or affect the environments
    /// `environments`, all of them or none.
    fn link_environments(&mut self, uuid: &str, environments: &Vec<&str>, joining: bool) -> (r: Result<(), Error>)
        requires
            old(self)@.wf(),
        ensures
            final(self)@.wf(),
            !old(self)@.can_link(uuid@, names_view(environments@), joining) ==> is_app_error(r)
                && final(self)@ == old(self)@,
            old(self)@.can_link(uuid@, names_view(environments@), joining) ==> r is Ok && final(self)@
                == old(self)@.linked_all(uuid@, names_view(environments@), joining),
    {
        let ghost nv = names_view(environments@);
        let k = match self.find_entity(uuid) {
            Some(k) => k,
            None => {
                return Err(Error::App("There is no entity with that uuid managed by this supervisor."));
            },
        };
        if !self.check_names(k, environments, joining) {
            return Err(
                if joining {
                    Error::App(
                        "At least one of the specified environments is unknown to this supervisor or already joined.",
                    )
                } else {
                    Error::App(
                        "At least one of the specified environments is unknown to this supervisor or already affected.",
                    )
                },
            );
        }
        let ghost before = self@;
        let ghost target = before.linked_all(uuid@, nv, joining);
        let ghost ek = before.entities[k as int];
        let mut i: usize = 0;
        while i < environments.len()
            invariant
                before.wf(),
                before.can_link(uuid@, nv, joining),
                k == before.entity_index(uuid@),
                k < before.entities.len(),
                ek == before.entities[k as int],
                ek.uuid == uuid@,
                target == before.linked_all(uuid@, nv, joining),
                self@.wf(),
                nv == names_view(environments@),
                i <= nv.len(),
                self@.shutdown == before.shutdown,
                self.environments@.len() == before.environments.len(),
                self.entities@.len() == before.entities.len(),
                forall|j: int|
                    0 <= j < self.environments@.len() ==> #[trigger] self.environments@[j]@ == (if nv.subrange(
                        0,
                        i as int,
                    ).contains(before.environments[j].name) {
                        env_linked(before.environments[j], uuid@, joining)
                    } else {
                        before.environments[j]
                    }),
                forall|m: int| 0 <= m < self.entities@.len() && m != k ==> #[trigger] self.entities@[m]@ == before.entities[m],
                self.entities@[k as int]@ == entity_linked(ek, nv.subrange(0, i as int), joining),
                self.entities@[k as int]@.wf(),
            decreases nv.len() - i,
        {
            let name = environments[i];
            assert(nv[i as int] == name@);
            let j = match self.find_environment(name) {
                Some(j) => j,
                None => {
                    proof {
                        assert(before.has_env(nv[i as int]));
                        let c = choose|c: int|
                            0 <= c < before.environments.len() && #[trigger] before.environments[c].name == nv[i as int];
                        assert(self@.environments[c] == self.environments@[c]@);
                        assert(self@.environments[c].name == nv[i as int]);
                    }
                    return Err(Error::App("At least one of the specified environments is unknown to this supervisor."));
                },
            };
            let ghost e0 = self.entities@[k as int]@;
            let ghost env0 = self.environments@[j as int]@;
            let ghost prefix = nv.subrange(0, i as int);
            proof {
                assert(env0.name == nv[i as int]);
                assert(before.environments[j as int].name == nv[i as int]);
                assert(!prefix.contains(nv[i as int])) by {
                    if prefix.contains(nv[i as int]) {
                        let c = choose|c: int| 0 <= c < prefix.len() && prefix[c] == nv[i as int];
                        assert(nv[c] == nv[i as int]);
                    }
                }
                assert(env0 == before.environments[j as int]);
                assert(before.entity(uuid@) == ek);
                assert(!is_linked(ek, nv[i as int], joining));
                if joining {
                    assert(!e0.has_joined(nv[i as int])) by {
                        if e0.has_joined(nv[i as int]) {
                            let c = choose|c: int| 0 <= c < e0.joined.len() && #[trigger] e0.joined[c].name == nv[i as int];
                            if c < ek.joined.len() {
                                assert(ek.joined[c].name == nv[i as int]);
                                assert(ek.has_joined(nv[i as int]));
                            } else {
                                assert(prefix[c - ek.joined.len()] == nv[i as int]);
                            }
                        }
                    }
                } else {
                    assert(!e0.is_affecting(nv[i as int])) by {
                        if e0.is_affecting(nv[i as int]) {
                            let c = choose|c: int| 0 <= c < e0.affected.len() && #[trigger] e0.affected[c] == nv[i as int];
                            if c < ek.affected.len() {
                                assert(ek.affected[c] == nv[i as int]);
                                assert(ek.is_affecting(nv[i as int]));
                            } else {
                                assert(prefix[c - ek.affected.len()] == nv[i as int]);
                            }
                        }
                    }
                }
            }
            let res = if joining {
                self.environments[j].register_joining_entity(&mut self.entities[k])
            } else {
                self.environments[j].register_affecting_entity(&mut self.entities[k])
            };
            proof {
                assert(res is Ok);
                let next = nv.subrange(0, i + 1 as int);
                assert(next =~= prefix.push(nv[i as int]));
                if joining {
                    assert(next.map_values(|n: Seq<char>| fresh_joined(n)) =~= prefix.map_values(
                        |n: Seq<char>| fresh_joined(n),
                    ).push(fresh_joined(nv[i as int])));
                    assert(self.entities@[k as int]@.joined =~= ek.joined + next.map_values(
                        |n: Seq<char>| fresh_joined(n),
                    ));
                } else {
                    assert(self.entities@[k as int]@.affected =~= ek.affected + next);
                }
                assert forall|m: int| 0 <= m < self.environments@.len() implies #[trigger] self.environments@[m]@
                    == (if next.contains(before.environments[m].name) {
                    env_linked(before.environments[m], uuid@, joining)
                } else {
                    before.environments[m]
                }) by {
                    if m != j {
                        assert(before.environments[m].name != nv[i as int]);
                        assert(next.contains(before.environments[m].name) == prefix.contains(
                            before.environments[m].name,
                        )) by {
                            if next.contains(before.environments[m].name) {
                                let c = choose|c: int| 0 <= c < next.len() && next[c] == before.environments[m].name;
                                assert(prefix[c] == before.environments[m].name);
                            }
                            if prefix.contains(before.environments[m].name) {
                                let c = choose|c: int| 0 <= c < prefix.len() && prefix[c] == before.environments[m].name;
                                assert(next[c] == before.environments[m].name);
                            }
                        }
                    } else {
                        assert(next[i as int] == nv[i as int]);
                    }
                }
            }
            i = i + 1;
        }
        proof {
            assert(nv.subrange(0, nv.len() as int) =~= nv);
            assert(self@.environments =~= target.environments);
            assert(self@.entities =~= target.entities);
            assert forall|a: int, b: int|
                0 <= a < b < self@.environments.len() implies #[trigger] self@.environments[a].name
                    != #[trigger] self@.environments[b].name by {
                assert(self@.environments[a].name == before.environments[a].name);
                assert(self@.environments[b].name == before.environments[b].name);
            }
            assert forall|a: int, b: int|
                0 <= a < b < self@.entities.len() implies #[trigger] self@.entities[a].uuid
                    != #[trigger] self@.entities[b].uuid by {
                assert(self@.entities[a].uuid == before.entities[a].uuid);
                assert(self@.entities[b].uuid == before.entities[b].uuid);
            }
            assert forall|a: int| 0 <= a < self@.entities.len() implies #[trigger] self@.entities[a].wf() by {
                assert(self@.entities[a] == self.entities@[a]@);
                if a != k {
                    assert(before.entities[a].wf());
                }
            }
        }
        Ok(())
    }

    /// Submits an effect to an environment.
    pub fn submit_effect(&mut self, effect: Effect, env_name: &str) -> (r: Result<(), Error>)
        requires
            old(self)@.wf(),
        ensures
            final(self)@.wf(),
            !old(self)@.has_env(env_name@) ==> is_app_error(r) && final(self)@ == old(self)@,
            old(self)@.has_env(env_name@) ==> r is Ok && final(self)@ == old(self)@.submitted(effect@, env_name@),
    {
        let i = match self.find_environment(env_name) {
            Some(i) => i,
            None => {
                return Err(Error::App("No environment with this name available"));
            },
        };
        let ghost before = self@;
        self.environments[i].submit(effect);
        proof {
            assert(self@.environments =~= before.submitted(effect@, env_name@).environments);
            assert forall|a: int, b: int|
                0 <= a < b < self@.environments.len() implies #[trigger] self@.environments[a].name
                    != #[trigger] self@.environments[b].name by {
                assert(self@.environments[a].name == before.environments[a].name);
                assert(self@.environments[b].name == before.environments[b].name);
            }
        }
        Ok(())
    }

    /// Installs a core function in the entity `uuid`.
    pub fn inject_core(&mut self, uuid: &str, transformer: C) -> (r: Result<(), Error>)
        requires
            old(self)@.wf(),
        ensures
            final(self)@.wf(),
            !old(self)@.has_entity(uuid@) ==> is_app_error(r) && final(self)@ == old(self)@,
            old(self)@.has_entity(uuid@) ==> r is Ok && final(self)@ == old(self)@.core_injected(uuid@, transformer),
    {
        let k = match self.find_entity(uuid) {
            Some(k) => k,
            None => {
                return Err(Error::App("There is no entity with that uuid managed by this supervisor."));
            },
        };
        let ghost before = self@;
        self.entities[k].inject_core(transformer);
        proof {
            assert(self@.entities =~= before.core_injected(uuid@, transformer).entities);
            assert forall|a: int, b: int|
                0 <= a < b < self@.entities.len() implies #[trigger] self@.entities[a].uuid
                    != #[trigger] self@.entities[b].uuid by {
                assert(self@.entities[a].uuid == before.entities[a].uuid);
                assert(self@.entities[b].uuid == before.entities[b].uuid);
            }
            assert forall|a: int| 0 <= a < self@.entities.len() implies #[trigger] self@.entities[a].wf() by {
                assert(before.entities[a].wf());
                assert(self@.entities[a].joined == before.entities[a].joined);
                assert(self@.entities[a].affected == before.entities[a].affected);
            }
        }
        Ok(())
    }

    /// Returns the number of supervised environments.
    pub fn num_environments(&self) -> (r: usize)
        ensures
            r == self@.environments.len(),
    {
        self.environments.len()
    }

    /// Returns the number of supervised entities.
    pub fn num_entities(&self) -> (r: usize)
        ensures
            r == self@.entities.len(),
    {
        self.entities.len()
    }

    /// Returns the environment named `name`, if there is one.
    pub fn environment(&self, name: &str) -> (r: Option<&Environment>)
        requires
            self@.wf(),
        ensures
            r is None <==> !self@.has_env(name@),
            r matches Some(e) ==> e@ == self@.env(name@),
    {
        match self.find_environment(name) {
            Some(i) => Some(&self.environments[i]),
            None => None,
        }
    }

    /// Returns the entity with uuid `uuid`, if there is one.
    pub fn entity(&self, uuid: &str) -> (r: Option<&Entity<C>>)
        requires
            self@.wf(),
        ensures
            r is None <==> !self@.has_entity(uuid@),
            r matches Some(e) ==> e@ == self@.entity(uuid@),
    {
        match self.find_entity(uuid) {
            Some(k) => Some(&self.entities[k]),
            None => None,
        }
    }

    /// Polls the environment at position `i` and returns what it broadcast.
    fn poll_environment_at(&mut self, i: usize) -> (r: Vec<Effect>)
        requires
            old(self)@.wf(),
            i < old(self)@.environments.len(),
        ensures
            final(self)@ == old(self)@.env_polled(i as int),
            final(self)@.wf(),
            effects_view(r@) == old(self)@.environments[i as int].inbox,
    {
        let ghost before = self@;
        let ghost target = before.env_polled(i as int);
        let ghost env = before.environments[i as int];
        proof {
            assert(self.environments@[i as int]@ == env);
        }
        let effects = self.environments[i].take_inbound();
        let name = self.environments[i].name();
        let mut k: usize = 0;
        while k < self.entities.len()
            invariant
                before.wf(),
                target == before.env_polled(i as int),
                env == before.environments[i as int],
                i < before.environments.len(),
                effects_view(effects@) == env.inbox,
                name@ == env.name,
                self.shutdown == before.shutdown,
                self.environments@.len() == before.environments.len(),
                self.environments@[i as int]@ == env.drained(),
                forall|j: int|
                    0 <= j < self.environments@.len() && j != i ==> #[trigger] self.environments@[j]@
                        == before.environments[j],
                k <= self.entities@.len(),
                self.entities@.len() == before.entities.len(),
                forall|m: int|
                    0 <= m < k ==> #[trigger] self.entities@[m]@ == target.entities[m]
                        && self.entities@[m]@.wf(),
                forall|m: int| k <= m < self.entities@.len() ==> #[trigger] self.entities@[m]@ == before.entities[m],
            decreases self.entities@.len() - k,
        {
            let u = self.entities[k].uuid();
            proof {
                assert(before.entities[k as int].wf());
            }
            if self.environments[i].is_joined_by(&u) {
                self.entities[k].deliver(&name, &effects);
                self.entities[k].wake();
            }
            k = k + 1;
        }
        proof {
            assert(self@.environments =~= target.environments) by {
                assert forall|j: int| 0 <= j < self@.environments.len() implies self@.environments[j]
                    == target.environments[j] by {
                    assert(self@.environments[j] == self.environments@[j]@);
                }
            }
            assert(self@.entities =~= target.entities) by {
                assert forall|m: int| 0 <= m < self@.entities.len() implies self@.entities[m]
                    == target.entities[m] by {
                    assert(self@.entities[m] == self.entities@[m]@);
                }
            }
            assert forall|a: int, b: int|
                0 <= a < b < self@.environments.len() implies #[trigger] self@.environments[a].name
                    != #[trigger] self@.environments[b].name by {
                assert(self@.environments[a].name == before.environments[a].name);
                assert(self@.environments[b].name == before.environments[b].name);
            }
            assert forall|a: int, b: int|
                0 <= a < b < self@.entities.len() implies #[trigger] self@.entities[a].uuid
                    != #[trigger] self@.entities[b].uuid by {
                assert(self@.entities[a].uuid == before.entities[a].uuid);
                assert(self@.entities[b].uuid == before.entities[b].uuid);
            }
            assert forall|a: int| 0 <= a < self@.entities.len() implies #[trigger] self@.entities[a].wf() by {
                assert(self@.entities[a] == self.entities@[a]@);
            }
        }
        effects
    }

    /// Polls the entity at position `k`; reports whether it completed and
    /// what it received.
    fn poll_entity_at(&mut self, k: usize) -> (r: (Progress, Vec<Effect>))
        requires
            old(self)@.wf(),
            k < old(self)@.entities.len(),
        ensures
            final(self)@ == old(self)@.entity_polled(k as int),
            final(self)@.wf(),
            r.0 == old(self)@.entity_progress(k as int),
            effects_view(r.1@) == old(self)@.entities[k as int].pending(),
    {
        let ghost before = self@;
        let ghost target = before.entity_polled(k as int);
        let ghost e = before.entities[k as int];
        proof {
            assert(self.entities@[k as int]@ == e);
            assert(e.wf());
        }
        let received = self.entities[k].receive_pending();
        let outs = outputs_of(self.entities[k].installed_core(), &received);
        let mut j: usize = 0;
        while j < self.environments.len()
            invariant
                before.wf(),
                target == before.entity_polled(k as int),
                e == before.entities[k as int],
                k < before.entities.len(),
                effects_view(outs@) == outputs(e.core, e.pending()),
                self.shutdown == before.shutdown,
                self.entities@.len() == before.entities.len(),
                self.entities@[k as int]@ == e.received(),
                self.entities@[k as int]@.wf(),
                forall|m: int|
                    0 <= m < self.entities@.len() && m != k ==> #[trigger] self.entities@[m]@
                        == before.entities[m],
                j <= self.environments@.len(),
                self.environments@.len() == before.environments.len(),
                forall|a: int| 0 <= a < j ==> #[trigger] self.environments@[a]@ == target.environments[a],
                forall|a: int|
                    j <= a < self.environments@.len() ==> #[trigger] self.environments@[a]@
                        == before.environments[a],
            decreases self.environments@.len() - j,
        {
            let n = self.environments[j].name();
            if self.entities[k].is_affecting(n.as_str()) {
                self.environments[j].submit_all(&outs);
            }
            j = j + 1;
        }
        proof {
            assert(self@.environments =~= target.environments) by {
                assert forall|a: int| 0 <= a < self@.environments.len() implies self@.environments[a]
                    == target.environments[a] by {
                    assert(self@.environments[a] == self.environments@[a]@);
                }
            }
            assert(self@.entities =~= target.entities) by {
                assert forall|m: int| 0 <= m < self@.entities.len() implies self@.entities[m]
                    == target.entities[m] by {
                    assert(self@.entities[m] == self.entities@[m]@);
                }
            }
            assert forall|a: int, b: int|
                0 <= a < b < self@.environments.len() implies #[trigger] self@.environments[a].name
                    != #[trigger] self@.environments[b].name by {
                assert(self@.environments[a].name == before.environments[a].name);
                assert(self@.environments[b].name == before.environments[b].name);
            }
            assert forall|a: int, b: int|
                0 <= a < b < self@.entities.len() implies #[trigger] self@.entities[a].uuid
                    != #[trigger] self@.entities[b].uuid by {
                assert(self@.entities[a].uuid == before.entities[a].uuid);
                assert(self@.entities[b].uuid == before.entities[b].uuid);
            }
            assert forall|a: int| 0 <= a < self@.entities.len() implies #[trigger] self@.entities[a].wf() by {
                assert(self@.entities[a] == self.entities@[a]@);
                if a != k {
                    assert(before.entities[a].wf());
                }
            }
        }
        let progress = if self.shutdown || self.entities[k].is_terminated() {
            Progress::Ready
        } else {
            Progress::NotReady
        };
        (progress, received)
    }

    /// Polls the environment named `env_name`: it broadcasts everything
    /// submitted to it to the entities that joined it, and returns those
    /// effects. Reports `Ready` once shutdown was signalled.
    pub fn poll_environment(&mut self, env_name: &str) -> (r: Result<(Progress, Vec<Effect>), Error>)
        requires
            old(self)@.wf(),
        ensures
            final(self)@.wf(),
            !old(self)@.has_env(env_name@) ==> is_app_error(r) && final(self)@ == old(self)@,
            old(self)@.has_env(env_name@) ==> (r matches Ok((p, v)) && p == old(self)@.progress()
                && effects_view(v@) == old(self)@.env(env_name@).inbox
                && final(self)@ == old(self)@.env_polled(old(self)@.env_index(env_name@))),
    {
        match self.find_environment(env_name) {
            Some(i) => {
                let effects = self.poll_environment_at(i);
                Ok((self.poll(), effects))
            },
            None => Err(Error::App("No environment with this name available")),
        }
    }

    /// Polls the entity with uuid `uuid`: it receives what waits for it,
    /// leaves dropped environments and publishes to the environments it
    /// affects; the received effects are returned. Reports `Ready` once
    /// shutdown was signalled or the entity was told to terminate.
    pub fn poll_entity(&mut self, uuid: &str) -> (r: Result<(Progress, Vec<Effect>), Error>)
        requires
            old(self)@.wf(),
        ensures
            final(self)@.wf(),
            !old(self)@.has_entity(uuid@) ==> is_app_error(r) && final(self)@ == old(self)@,
            old(self)@.has_entity(uuid@) ==> (r matches Ok((p, v)) && p == old(self)@.entity_progress(
                old(self)@.entity_index(uuid@),
            ) && effects_view(v@) == old(self)@.entity(uuid@).pending()
                && final(self)@ == old(self)@.entity_polled(old(self)@.entity_index(uuid@))),
    {
        match self.find_entity(uuid) {
            Some(k) => Ok(self.poll_entity_at(k)),
            None => Err(Error::App("There is no entity with that uuid managed by this supervisor.")),
        }
    }

    /// Polls every woken environment once, in order, and then every woken
    /// entity.
    pub fn run_round(&mut self)
        requires
            old(self)@.wf(),
        ensures
            final(self)@.wf(),
            final(self)@ == old(self)@.round(),
    {
        let ghost before = self@;
        let n = self.environments.len();
        let mut i: usize = 0;
        while i < n
            invariant
                n == before.environments.len(),
                i <= n,
                self@.wf(),
                self@ == before.envs_polled_upto(i as int),
                self@.environments.len() == n,
            decreases n - i,
        {
            if self.environments[i].is_woken() {
                let _ = self.poll_environment_at(i);
            }
            i = i + 1;
        }
        let ghost mid = self@;
        let m = self.entities.len();
        let mut k: usize = 0;
        while k < m
            invariant
                m == mid.entities.len(),
                k <= m,
                self@.wf(),
                self@ == mid.entities_polled_upto(k as int),
                self@.entities.len() == m,
            decreases m - k,
        {
            if self.entities[k].is_woken() {
                let _ = self.poll_entity_at(k);
            }
            k = k + 1;
        }
    }

    /// Runs `n` rounds.
    pub fn run_rounds(&mut self, n: usize)
        requires
            old(self)@.wf(),
        ensures
            final(self)@.wf(),
            final(self)@ == old(self)@.rounds(n as nat),
    {
        let mut i: usize = 0;
        while i < n
            invariant
                i <= n,
                self@.wf(),
                self@ == old(self)@.rounds(i as nat),
            decreases n - i,
        {
            self.run_round();
            i = i + 1;
        }
    }

    /// Signals shutdown and wakes every task: from now on every poll reports
    /// `Ready`.
    pub fn send_sig_term(&mut self)
        requires
            old(self)@.wf(),
        ensures
            final(self)@.wf(),
            final(self)@ == old(self)@.sig_termed(),
    {
        let ghost before = self@;
        let ghost target = before.sig_termed();
        let mut j: usize = 0;
        while j < self.environments.len()
            invariant
                target == before.sig_termed(),
                self.entities == old(self).entities,
                self.entities@.len() == before.entities.len(),
                forall|a: int| 0 <= a < self.entities@.len() ==> #[trigger] self.entities@[a]@ == before.entities[a],
                self.environments@.len() == before.environments.len(),
                j <= self.environments@.len(),
                forall|a: int| 0 <= a < j ==> #[trigger] self.environments@[a]@ == target.environments[a],
                forall|a: int|
                    j <= a < self.environments@.len() ==> #[trigger] self.environments@[a]@ == before.environments[a],
            decreases self.environments@.len() - j,
        {
            self.environments[j].wake();
            j = j + 1;
        }
        let mut k: usize = 0;
        while k < self.entities.len()
            invariant
                target == before.sig_termed(),
                self.entities@.len() == before.entities.len(),
                forall|a: int| 0 <= a < self.environments@.len() ==> #[trigger] self.environments@[a]@ == target.environments[a],
                self.environments@.len() == before.environments.len(),
                k <= self.entities@.len(),
                forall|a: int| 0 <= a < k ==> #[trigger] self.entities@[a]@ == target.entities[a],
                forall|a: int| k <= a < self.entities@.len() ==> #[trigger] self.entities@[a]@ == before.entities[a],
            decreases self.entities@.len() - k,
        {
            self.entities[k].wake();
            k = k + 1;
        }
        self.shutdown = true;
        proof {
            assert(self@.environments =~= target.environments) by {
                assert forall|a: int| 0 <= a < self@.environments.len() implies self@.environments[a]
                    == target.environments[a] by {
                    assert(self@.environments[a] == self.environments@[a]@);
                }
            }
            assert(self@.entities =~= target.entities) by {
                assert forall|a: int| 0 <= a < self@.entities.len() implies self@.entities[a]
                    == target.entities[a] by {
                    assert(self@.entities[a] == self.entities@[a]@);
                }
            }
            assert forall|a: int, b: int|
                0 <= a < b < self@.environments.len() implies #[trigger] self@.environments[a].name
                    != #[trigger] self@.environments[b].name by {
                assert(self@.environments[a].name == before.environments[a].name);
                assert(self@.environments[b].name == before.environments[b].name);
            }
            assert forall|a: int, b: int|
                0 <= a < b < self@.entities.len() implies #[trigger] self@.entities[a].uuid
                    != #[trigger] self@.entities[b].uuid by {
                assert(self@.entities[a].uuid == before.entities[a].uuid);
                assert(self@.entities[b].uuid == before.entities[b].uuid);
            }
            assert forall|a: int| 0 <= a < self@.entities.len() implies #[trigger] self@.entities[a].wf() by {
                assert(before.entities[a].wf());
                assert(self@.entities[a].joined == before.entities[a].joined);
                assert(self@.entities[a].affected == before.entities[a].affected);
            }
        }
    }

    /// Whether no environment and no entity is waiting to be polled.
    pub fn is_idle(&self) -> (r: bool)
        ensures
            r == self@.idle(),
    {
        let mut j: usize = 0;
        while j < self.environments.len()
            invariant
                j <= self.environments@.len(),
                forall|a: int| 0 <= a < j ==> !(#[trigger] self@.environments[a]).woken,
            decreases self.environments@.len() - j,
        {
            if self.environments[j].is_woken() {
                assert(self@.environments[j as int].woken);
                return false;
            }
            j = j + 1;
        }
        let mut k: usize = 0;
        while k < self.entities.len()
            invariant
                forall|a: int| 0 <= a < self@.environments.len() ==> !(#[trigger] self@.environments[a]).woken,
                k <= self.entities@.len(),
                forall|a: int| 0 <= a < k ==> !(#[trigger] self@.entities[a]).woken,
            decreases self.entities@.len() - k,
        {
            if self.entities[k].is_woken() {
                assert(self@.entities[k as int].woken);
                return false;
            }
            k = k + 1;
        }
        true
    }

    /// Polls the supervisor's own task, which only watches for shutdown.
    pub fn poll(&self) -> (r: Progress)
        ensures
            r == self@.progress(),
    {
        if self.shutdown {
            Progress::Ready
        } else {
            Progress::NotReady
        }
    }
}

} // verus!
