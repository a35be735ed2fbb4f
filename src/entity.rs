//! Entities: subscribers that receive effects from the environments they
//! joined and may publish into the environments they affect.
use vstd::prelude::*;

use crate::effect::{effects_view, lemma_effects_view_push, Effect, EffectModel};
use crate::errors::{is_app_error, Error};
use crate::transform::EffectCore;

verus! {

/// One environment joined by an entity: its name, the effects broadcast to
/// this entity and not yet received, and whether the environment has been
/// dropped.
pub struct JoinedEnvironment {
    name: String,
    in_chan: Vec<Effect>,
    closed: bool,
}

/// The content of a [`JoinedEnvironment`].
pub struct JoinedModel {
    pub name: Seq<char>,
    pub queue: Seq<EffectModel>,
    pub closed: bool,
}

impl View for JoinedEnvironment {
    type V = JoinedModel;

    closed spec fn view(&self) -> JoinedModel {
        JoinedModel { name: self.name@, queue: effects_view(self.in_chan@), closed: self.closed }
    }
}

/// A freshly joined environment.
pub open spec fn fresh_joined(name: Seq<char>) -> JoinedModel {
    JoinedModel { name, queue: Seq::empty(), closed: false }
}

impl JoinedEnvironment {
    /// Appends copies of `effects` to what waits from this environment.
    fn append(&mut self, effects: &Vec<Effect>)
        ensures
            final(self)@ == (JoinedModel {
                queue: old(self)@.queue + effects_view(effects@),
                ..old(self)@
            }),
    {
        let mut k: usize = 0;
        while k < effects.len()
            invariant
                k <= effects@.len(),
                self@ == (JoinedModel {
                    queue: old(self)@.queue + effects_view(effects@.subrange(0, k as int)),
                    ..old(self)@
                }),
            decreases effects@.len() - k,
        {
            let e = effects[k].duplicate();
            let ghost prev = self.in_chan@;
            self.in_chan.push(e);
            proof {
                lemma_effects_view_push(prev, e);
                lemma_effects_view_push(effects@.subrange(0, k as int), effects@[k as int]);
                assert(effects@.subrange(0, k + 1 as int) =~= effects@.subrange(0, k as int).push(effects@[k as int]));
            }
            k = k + 1;
            assert(self@.queue =~= old(self)@.queue + effects_view(effects@.subrange(0, k as int)));
        }
        assert(effects@.subrange(0, k as int) =~= effects@);
    }
}

/// Each joined environment that remains after a poll was joined before it
/// under the same name and was not dropped.
pub proof fn lemma_remaining_names(js: Seq<JoinedModel>, a: int)
    requires
        0 <= a < remaining_of(js).len(),
    ensures
        exists|b: int|
            0 <= b < js.len() && js[b].name == #[trigger] remaining_of(js)[a].name && !js[b].closed,
    decreases js.len(),
{
    if js.len() > 0 {
        let prev = js.drop_last();
        if js.last().closed || a < remaining_of(prev).len() {
            lemma_remaining_names(prev, a);
            let b = choose|b: int|
                0 <= b < prev.len() && prev[b].name == remaining_of(prev)[a].name && !prev[b].closed;
            assert(js[b].name == remaining_of(js)[a].name && !js[b].closed);
        } else {
            assert(js[js.len() - 1].name == remaining_of(js)[a].name);
        }
    }
}

/// Unique names stay unique after a poll.
pub proof fn lemma_remaining_unique(js: Seq<JoinedModel>)
    requires
        forall|i: int, j: int| 0 <= i < j < js.len() ==> #[trigger] js[i].name != #[trigger] js[j].name,
    ensures
        forall|i: int, j: int|
            0 <= i < j < remaining_of(js).len() ==> #[trigger] remaining_of(js)[i].name
                != #[trigger] remaining_of(js)[j].name,
    decreases js.len(),
{
    if js.len() > 0 {
        let prev = js.drop_last();
        lemma_remaining_unique(prev);
        if !js.last().closed {
            let r = remaining_of(js);
            assert forall|i: int, j: int| 0 <= i < j < r.len() implies #[trigger] r[i].name != #[trigger] r[j].name by {
                if j == r.len() - 1 && i < j {
                    lemma_remaining_names(prev, i);
                    let b = choose|b: int|
                        0 <= b < prev.len() && prev[b].name == remaining_of(prev)[i].name && !prev[b].closed;
                    assert(js[b].name != js[js.len() - 1].name);
                }
            }
        }
    }
}

/// An entity in the EEE model.
pub struct Entity<C> {
    uuid: String,
    joined_environments: Vec<JoinedEnvironment>,
    affected_environments: Vec<String>,
    core: Option<C>,
    terminated: bool,
    woken: bool,
    num_received_effects: usize,
}

/// The content of an [`Entity`]: its uuid, the environments it joined in the
/// order it joined them, the names of those it affects, its core, whether it
/// was told to terminate, whether it was woken, and how many effects it
/// received.
pub struct EntityModel<C> {
    pub uuid: Seq<char>,
    pub joined: Seq<JoinedModel>,
    pub affected: Seq<Seq<char>>,
    pub core: Option<C>,
    pub terminated: bool,
    pub woken: bool,
    pub num_received: usize,
}

impl<C> View for Entity<C> {
    type V = EntityModel<C>;

    closed spec fn view(&self) -> EntityModel<C> {
        EntityModel {
            uuid: self.uuid@,
            joined: self.joined_environments@.map_values(|j: JoinedEnvironment| j@),
            affected: self.affected_environments@.map_values(|s: String| s@),
            core: self.core,
            terminated: self.terminated,
            woken: self.woken,
            num_received: self.num_received_effects,
        }
    }
}

/// The effects waiting in `js`, environment by environment in join order.
pub open spec fn pending_of(js: Seq<JoinedModel>) -> Seq<EffectModel>
    decreases js.len(),
{
    if js.len() == 0 {
        Seq::empty()
    } else {
        pending_of(js.drop_last()) + js.last().queue
    }
}

/// The joined environments that remain after a poll: the dropped ones go,
/// the others keep their place with nothing left waiting.
pub open spec fn remaining_of(js: Seq<JoinedModel>) -> Seq<JoinedModel>
    decreases js.len(),
{
    if js.len() == 0 {
        Seq::empty()
    } else if js.last().closed {
        remaining_of(js.drop_last())
    } else {
        remaining_of(js.drop_last()).push(fresh_joined(js.last().name))
    }
}

/// `j` with `effects` appended to its queue if it is named `name`.
pub open spec fn appended_if(j: JoinedModel, name: Seq<char>, effects: Seq<EffectModel>) -> JoinedModel {
    if j.name == name {
        JoinedModel { name: j.name, queue: j.queue + effects, closed: j.closed }
    } else {
        j
    }
}

/// `j` marked as dropped if it is named `name`.
pub open spec fn closed_if(j: JoinedModel, name: Seq<char>) -> JoinedModel {
    if j.name == name {
        JoinedModel { name: j.name, queue: j.queue, closed: true }
    } else {
        j
    }
}

/// `names` with `name` left out, the others in order.
pub open spec fn without(names: Seq<Seq<char>>, name: Seq<char>) -> Seq<Seq<char>>
    decreases names.len(),
{
    if names.len() == 0 {
        Seq::empty()
    } else if names.last() == name {
        without(names.drop_last(), name)
    } else {
        without(names.drop_last(), name).push(names.last())
    }
}

/// What `without` keeps: every other name, and no name twice if there was
/// none twice before.
pub proof fn lemma_without(names: Seq<Seq<char>>, name: Seq<char>)
    ensures
        forall|x: Seq<char>| #[trigger] without(names, name).contains(x) <==> names.contains(x) && x != name,
        names.no_duplicates() ==> without(names, name).no_duplicates(),
    decreases names.len(),
{
    if names.len() > 0 {
        let prev = names.drop_last();
        lemma_without(prev, name);
        let w = without(names, name);
        assert forall|x: Seq<char>| #[trigger] w.contains(x) <==> names.contains(x) && x != name by {
            if names.contains(x) && x != name {
                let c = choose|c: int| 0 <= c < names.len() && names[c] == x;
                if c < prev.len() {
                    assert(prev[c] == x);
                    assert(without(prev, name).contains(x));
                    let d = choose|d: int| 0 <= d < without(prev, name).len() && without(prev, name)[d] == x;
                    assert(w[d] == x);
                } else {
                    assert(w[w.len() - 1] == x);
                }
            }
            if w.contains(x) {
                let d = choose|d: int| 0 <= d < w.len() && w[d] == x;
                if d < without(prev, name).len() {
                    assert(without(prev, name)[d] == x);
                    assert(without(prev, name).contains(x));
                    let c = choose|c: int| 0 <= c < prev.len() && prev[c] == x;
                    assert(names[c] == x);
                } else {
                    assert(names[names.len() - 1] == x);
                }
            }
        }
        if names.no_duplicates() {
            assert(prev.no_duplicates()) by {
                assert forall|i: int, j: int| 0 <= i < prev.len() && 0 <= j < prev.len() && i != j implies prev[i]
                    != prev[j] by {
                    assert(prev[i] == names[i] && prev[j] == names[j]);
                }
            }
            if names.last() != name {
                assert(!prev.contains(names.last())) by {
                    if prev.contains(names.last()) {
                        let c = choose|c: int| 0 <= c < prev.len() && prev[c] == names.last();
                        assert(names[c] == names[names.len() - 1]);
                    }
                }
                let wp = without(prev, name);
                assert(!wp.contains(names.last()));
                assert forall|i: int, j: int| 0 <= i < w.len() && 0 <= j < w.len() && i != j implies w[i]
                    != w[j] by {
                    if i == w.len() - 1 {
                        assert(wp.contains(w[j]));
                    } else if j == w.len() - 1 {
                        assert(wp.contains(w[i]));
                    } else {
                        assert(w[i] == wp[i] && w[j] == wp[j]);
                    }
                }
            }
        }
    }
}

/// The joined environments after the environment `name` broadcast
/// `effects`.
pub open spec fn delivered_to(js: Seq<JoinedModel>, name: Seq<char>, effects: Seq<EffectModel>) -> Seq<JoinedModel> {
    Seq::new(js.len(), |k: int| appended_if(js[k], name, effects))
}

/// Some environment of `js` is named `name`.
pub open spec fn has_name(js: Seq<JoinedModel>, name: Seq<char>) -> bool {
    exists|i: int| 0 <= i < js.len() && #[trigger] js[i].name == name
}

/// The names of `js` are unique.
pub open spec fn unique_names(js: Seq<JoinedModel>) -> bool {
    forall|i: int, j: int| 0 <= i < j < js.len() ==> #[trigger] js[i].name != #[trigger] js[j].name
}

/// A broadcast by `name` adds its effects once to what waits, if the
/// environment was joined, and nothing otherwise.
pub proof fn lemma_pending_len_delivered(js: Seq<JoinedModel>, name: Seq<char>, effects: Seq<EffectModel>)
    requires
        unique_names(js),
    ensures
        pending_of(delivered_to(js, name, effects)).len() == pending_of(js).len() + if has_name(js, name) {
            effects.len()
        } else {
            0
        },
    decreases js.len(),
{
    if js.len() > 0 {
        let prev = js.drop_last();
        let d = delivered_to(js, name, effects);
        assert(d.drop_last() =~= delivered_to(prev, name, effects));
        lemma_pending_len_delivered(prev, name, effects);
        if js.last().name == name {
            assert(!has_name(prev, name)) by {
                if has_name(prev, name) {
                    let c = choose|c: int| 0 <= c < prev.len() && #[trigger] prev[c].name == name;
                    assert(js[c].name == js[js.len() - 1].name);
                }
            }
            assert(has_name(js, name)) by {
                assert(js[js.len() - 1].name == name);
            }
        } else {
            assert(has_name(js, name) == has_name(prev, name)) by {
                if has_name(js, name) {
                    let c = choose|c: int| 0 <= c < js.len() && #[trigger] js[c].name == name;
                    assert(prev[c].name == name);
                }
                if has_name(prev, name) {
                    let c = choose|c: int| 0 <= c < prev.len() && #[trigger] prev[c].name == name;
                    assert(js[c].name == name);
                }
            }
        }
    }
}

/// When nothing waits, a broadcast by a joined environment is exactly what
/// waits afterwards.
pub proof fn lemma_pending_delivered_from_empty(js: Seq<JoinedModel>, name: Seq<char>, effects: Seq<EffectModel>)
    requires
        unique_names(js),
        forall|i: int| 0 <= i < js.len() ==> (#[trigger] js[i]).queue.len() == 0,
    ensures
        pending_of(delivered_to(js, name, effects)) == if has_name(js, name) {
            effects
        } else {
            Seq::<EffectModel>::empty()
        },
    decreases js.len(),
{
    if js.len() > 0 {
        let prev = js.drop_last();
        let d = delivered_to(js, name, effects);
        assert(d.drop_last() =~= delivered_to(prev, name, effects));
        lemma_pending_delivered_from_empty(prev, name, effects);
        assert(js[js.len() - 1].queue =~= Seq::<EffectModel>::empty());
        if js.last().name == name {
            assert(!has_name(prev, name)) by {
                if has_name(prev, name) {
                    let c = choose|c: int| 0 <= c < prev.len() && #[trigger] prev[c].name == name;
                    assert(js[c].name == js[js.len() - 1].name);
                }
            }
            assert(has_name(js, name)) by {
                assert(js[js.len() - 1].name == name);
            }
            assert(pending_of(d) =~= effects);
        } else {
            assert(has_name(js, name) == has_name(prev, name)) by {
                if has_name(js, name) {
                    let c = choose|c: int| 0 <= c < js.len() && #[trigger] js[c].name == name;
                    assert(prev[c].name == name);
                }
                if has_name(prev, name) {
                    let c = choose|c: int| 0 <= c < prev.len() && #[trigger] prev[c].name == name;
                    assert(js[c].name == name);
                }
            }
            assert(pending_of(d) =~= pending_of(d.drop_last()));
        }
    }
}

/// After the environment `name` was dropped, the entity's next poll leaves
/// it.
pub proof fn lemma_closed_then_received<C>(e: EntityModel<C>, name: Seq<char>)
    ensures
        !e.closed(name).received().has_joined(name),
{
    let js = e.closed(name).joined;
    let r = e.closed(name).received();
    if r.has_joined(name) {
        let a = choose|a: int| 0 <= a < r.joined.len() && #[trigger] r.joined[a].name == name;
        lemma_remaining_names(js, a);
        let b = choose|b: int| 0 <= b < js.len() && js[b].name == #[trigger] remaining_of(js)[a].name && !js[b].closed;
        assert(js[b] == closed_if(e.joined[b], name));
    }
}

impl<C> EntityModel<C> {
    /// A new entity with the given identity.
    pub open spec fn fresh(uuid: Seq<char>) -> EntityModel<C> {
        EntityModel {
            uuid,
            joined: Seq::empty(),
            affected: Seq::empty(),
            core: None,
            terminated: false,
            woken: true,
            num_received: 0,
        }
    }

    pub open spec fn joined_names(self) -> Seq<Seq<char>> {
        self.joined.map_values(|j: JoinedModel| j.name)
    }

    pub open spec fn has_joined(self, name: Seq<char>) -> bool {
        exists|i: int| 0 <= i < self.joined.len() && #[trigger] self.joined[i].name == name
    }

    pub open spec fn is_affecting(self, name: Seq<char>) -> bool {
        self.affected.contains(name)
    }

    /// Names of joined environments are unique, and so are those of the
    /// affected ones.
    pub open spec fn wf(self) -> bool {
        &&& forall|i: int, j: int|
            0 <= i < j < self.joined.len() ==> #[trigger] self.joined[i].name
                != #[trigger] self.joined[j].name
        &&& self.affected.no_duplicates()
    }

    /// The entity after the effects `effects` were broadcast to it by the
    /// environment `name`.
    pub open spec fn delivered(self, name: Seq<char>, effects: Seq<EffectModel>) -> EntityModel<C> {
        EntityModel {
            joined: delivered_to(self.joined, name, effects),
            ..self
        }
    }

    /// The entity after the environment `name` was dropped: the drop
    /// notification also wakes it.
    pub open spec fn closed(self, name: Seq<char>) -> EntityModel<C> {
        EntityModel {
            joined: Seq::new(self.joined.len(), |k: int| closed_if(self.joined[k], name)),
            affected: without(self.affected, name),
            woken: true,
            ..self
        }
    }

    /// The effects that the next poll receives.
    pub open spec fn pending(self) -> Seq<EffectModel> {
        pending_of(self.joined)
    }

    /// The entity after a poll received everything waiting for it.
    pub open spec fn received(self) -> EntityModel<C> {
        EntityModel {
            joined: remaining_of(self.joined),
            num_received: self.num_received.saturating_add(self.pending().len() as usize),
            woken: false,
            ..self
        }
    }
}

/// Relies on `uuid::Uuid::new_v4` and its `Display`: a random identifier,
/// written in the 36 characters of the hyphenated form.
#[verifier::external_body]
fn new_uuid() -> (r: String)
    ensures
        r@.len() == 36,
{
    uuid::Uuid::new_v4().to_string()
}

impl<C: EffectCore> Entity<C> {
    /// Creates a new entity with a fresh random identifier.
    pub fn new() -> (r: Entity<C>)
        ensures
            r@ == EntityModel::<C>::fresh(r@.uuid),
            r@.uuid.len() == 36,
    {
        Entity::with_uuid(new_uuid())
    }

    /// Creates a new entity with the given identifier.
    pub fn with_uuid(uuid: String) -> (r: Entity<C>)
        ensures
            r@ == EntityModel::<C>::fresh(uuid@),
    {
        let r = Entity {
            uuid,
            joined_environments: Vec::new(),
            affected_environments: Vec::new(),
            core: None,
            terminated: false,
            woken: true,
            num_received_effects: 0,
        };
        assert(r@.joined =~= Seq::empty());
        assert(r@.affected =~= Seq::empty());
        r
    }

    /// Registers an environment as joined by this entity.
    pub fn join_environment(&mut self, name: &str) -> (r: Result<(), Error>)
        requires
            old(self)@.wf(),
        ensures
            final(self)@.wf(),
            old(self)@.has_joined(name@) ==> is_app_error(r) && final(self)@ == old(self)@,
            !old(self)@.has_joined(name@) ==> r is Ok && final(self)@ == (EntityModel {
                joined: old(self)@.joined.push(fresh_joined(name@)),
                ..old(self)@
            }),
    {
        if self.has_joined(name) {
            return Err(Error::App("This entity already joined that environment"));
        }
        let ghost before = self@;
        self.joined_environments.push(
            JoinedEnvironment { name: name.to_owned(), in_chan: Vec::new(), closed: false },
        );
        proof {
            let j = self.joined_environments@.last();
            assert(j@.queue =~= Seq::<EffectModel>::empty());
            assert(self@.joined =~= before.joined.push(fresh_joined(name@)));
        }
        Ok(())
    }

    /// Registers an environment as affected by this entity.
    pub fn affect_environment(&mut self, env_name: &str) -> (r: Result<(), Error>)
        requires
            old(self)@.wf(),
        ensures
            final(self)@.wf(),
            old(self)@.is_affecting(env_name@) ==> is_app_error(r) && final(self)@ == old(self)@,
            !old(self)@.is_affecting(env_name@) ==> r is Ok && final(self)@ == (EntityModel {
                affected: old(self)@.affected.push(env_name@),
                ..old(self)@
            }),
    {
        if self.is_affecting(env_name) {
            return Err(Error::App("This entity already affects that environment"));
        }
        let ghost before = self@;
        self.affected_environments.push(env_name.to_owned());
        proof {
            assert(self@.affected =~= before.affected.push(env_name@));
        }
        Ok(())
    }

    /// Installs the core function that transforms every received effect
    /// before it is published to the affected environments.
    pub fn inject_core(&mut self, transformer: C)
        ensures
            final(self)@ == (EntityModel { core: Some(transformer), ..old(self)@ }),
    {
        self.core = Some(transformer);
    }

    /// Signals this entity to terminate and wakes it: its next poll
    /// completes.
    pub fn send_sig_term(&mut self)
        ensures
            final(self)@ == (EntityModel { terminated: true, woken: true, ..old(self)@ }),
    {
        self.terminated = true;
        self.woken = true;
    }

    /// Notifies this entity's waker: it is to be polled again.
    pub fn wake(&mut self)
        ensures
            final(self)@ == (EntityModel { woken: true, ..old(self)@ }),
    {
        self.woken = true;
    }

    /// Whether this entity's waker was notified since its last poll.
    pub fn is_woken(&self) -> (r: bool)
        ensures
            r == self@.woken,
    {
        self.woken
    }

    /// Returns the uuid of this entity.
    pub fn uuid(&self) -> (r: String)
        ensures
            r@ == self@.uuid,
    {
        self.uuid.clone()
    }

    /// Returns the number of effects that this entity has received.
    pub fn num_received_effects(&self) -> (r: usize)
        ensures
            r == self@.num_received,
    {
        self.num_received_effects
    }

    /// Returns the core function installed in this entity, if any.
    pub fn installed_core(&self) -> (r: &Option<C>)
        ensures
            *r == self@.core,
    {
        &self.core
    }

    /// Returns whether this entity was told to terminate.
    pub fn is_terminated(&self) -> (r: bool)
        ensures
            r == self@.terminated,
    {
        self.terminated
    }

    /// Returns a list of all environments this entity has joined, in the
    /// order it joined them.
    pub fn joined_environments(&self) -> (r: Vec<String>)
        ensures
            r@.map_values(|s: String| s@) == self@.joined_names(),
    {
        let mut r: Vec<String> = Vec::new();
        let mut i: usize = 0;
        while i < self.joined_environments.len()
            invariant
                i <= self.joined_environments@.len(),
                r@.len() == i,
                forall|k: int| 0 <= k < i ==> #[trigger] r@[k]@ == self@.joined[k].name,
            decreases self.joined_environments@.len() - i,
        {
            let ghost prev = r@;
            let s = self.joined_environments[i].name.clone();
            assert(s@ == self@.joined[i as int].name);
            r.push(s);
            assert(r@ == prev.push(s));
            i = i + 1;
        }
        assert(r@.map_values(|s: String| s@) =~= self@.joined_names());
        r
    }

    /// Returns a list of all environments this entity is affecting, in the
    /// order it started affecting them.
    pub fn affected_environments(&self) -> (r: Vec<String>)
        ensures
            r@.map_values(|s: String| s@) == self@.affected,
    {
        let mut r: Vec<String> = Vec::new();
        let mut i: usize = 0;
        while i < self.affected_environments.len()
            invariant
                i <= self.affected_environments@.len(),
                r@.len() == i,
                forall|k: int| 0 <= k < i ==> #[trigger] r@[k]@ == self@.affected[k],
            decreases self.affected_environments@.len() - i,
        {
            let ghost prev = r@;
            let s = self.affected_environments[i].clone();
            assert(s@ == self@.affected[i as int]);
            r.push(s);
            assert(r@ == prev.push(s));
            i = i + 1;
        }
        assert(r@.map_values(|s: String| s@) =~= self@.affected);
        r
    }

    /// Returns true, if this entity has joined the specified environment,
    /// otherwise false.
    pub fn has_joined(&self, env_name: &str) -> (r: bool)
        ensures
            r == self@.has_joined(env_name@),
    {
        let name = env_name.to_owned();
        let mut i: usize = 0;
        while i < self.joined_environments.len()
            invariant
                i <= self.joined_environments@.len(),
                name@ == env_name@,
                forall|k: int| 0 <= k < i ==> self@.joined[k].name != env_name@,
            decreases self.joined_environments@.len() - i,
        {
            if self.joined_environments[i].name == name {
                assert(self@.joined[i as int].name == env_name@);
                return true;
            }
            i = i + 1;
        }
        false
    }

    /// Returns true, if this entity affects the specified environment,
    /// otherwise false.
    pub fn is_affecting(&self, env_name: &str) -> (r: bool)
        ensures
            r == self@.is_affecting(env_name@),
    {
        let name = env_name.to_owned();
        let mut i: usize = 0;
        while i < self.affected_environments.len()
            invariant
                i <= self.affected_environments@.len(),
                name@ == env_name@,
                forall|k: int| 0 <= k < i ==> self@.affected[k] != env_name@,
            decreases self.affected_environments@.len() - i,
        {
            if self.affected_environments[i] == name {
                assert(self@.affected[i as int] == env_name@);
                return true;
            }
            i = i + 1;
        }
        false
    }

    /// Returns the number of joined environments.
    pub fn num_joined(&self) -> (r: usize)
        ensures
            r == self@.joined.len(),
    {
        self.joined_environments.len()
    }

    /// Returns the number of affected environments.
    pub fn num_affected(&self) -> (r: usize)
        ensures
            r == self@.affected.len(),
    {
        self.affected_environments.len()
    }

    /// Appends copies of the effects that the environment `env_name`
    /// broadcast to what waits for this entity from it.
    pub fn deliver(&mut self, env_name: &String, effects: &Vec<Effect>)
        ensures
            final(self)@ == old(self)@.delivered(env_name@, effects_view(effects@)),
            old(self)@.wf() ==> final(self)@.wf(),
    {
        let ghost target = old(self)@.delivered(env_name@, effects_view(effects@));
        let mut i: usize = 0;
        while i < self.joined_environments.len()
            invariant
                i <= self.joined_environments@.len(),
                self.joined_environments@.len() == old(self)@.joined.len(),
                target == old(self)@.delivered(env_name@, effects_view(effects@)),
                target.joined.len() == old(self)@.joined.len(),
                self.uuid == old(self).uuid,
                self.affected_environments == old(self).affected_environments,
                self.core == old(self).core,
                self.terminated == old(self).terminated,
                self.woken == old(self).woken,
                self.num_received_effects == old(self).num_received_effects,
                forall|k: int| 0 <= k < i ==> #[trigger] self.joined_environments@[k]@ == target.joined[k],
                forall|k: int|
                    i <= k < self.joined_environments@.len() ==> #[trigger] self.joined_environments@[k]@
                        == old(self)@.joined[k],
            decreases self@.joined.len() - i,
        {
            assert(self.joined_environments@[i as int]@ == old(self)@.joined[i as int]);
            if self.joined_environments[i].name == *env_name {
                self.joined_environments[i].append(effects);
            }
            assert(self.joined_environments@[i as int]@ == target.joined[i as int]);
            i = i + 1;
        }
        assert(self@.joined =~= target.joined);
    }

    /// Marks the environment `env_name` as dropped, stops affecting it, and
    /// wakes this entity: the next poll receives what still waits from it and
    /// then leaves it.
    pub fn close_joined(&mut self, env_name: &String)
        ensures
            final(self)@ == old(self)@.closed(env_name@),
            old(self)@.wf() ==> final(self)@.wf(),
    {
        let ghost target = old(self)@.closed(env_name@);
        let mut i: usize = 0;
        while i < self.joined_environments.len()
            invariant
                i <= self.joined_environments@.len(),
                self.joined_environments@.len() == old(self)@.joined.len(),
                target == old(self)@.closed(env_name@),
                target.joined.len() == old(self)@.joined.len(),
                self.uuid == old(self).uuid,
                self.affected_environments == old(self).affected_environments,
                self.core == old(self).core,
                self.terminated == old(self).terminated,
                self.woken == old(self).woken,
                self.num_received_effects == old(self).num_received_effects,
                forall|k: int| 0 <= k < i ==> #[trigger] self.joined_environments@[k]@ == target.joined[k],
                forall|k: int|
                    i <= k < self.joined_environments@.len() ==> #[trigger] self.joined_environments@[k]@
                        == old(self)@.joined[k],
            decreases self@.joined.len() - i,
        {
            assert(self.joined_environments@[i as int]@ == old(self)@.joined[i as int]);
            if self.joined_environments[i].name == *env_name {
                self.joined_environments[i].closed = true;
            }
            assert(self.joined_environments@[i as int]@ == target.joined[i as int]);
            i = i + 1;
        }
        let ghost names = old(self)@.affected;
        let mut kept: Vec<String> = Vec::new();
        let mut a: usize = 0;
        while a < self.affected_environments.len()
            invariant
                self.affected_environments == old(self).affected_environments,
                names == old(self)@.affected,
                names.len() == self.affected_environments@.len(),
                forall|m: int| 0 <= m < names.len() ==> #[trigger] names[m] == self.affected_environments@[m]@,
                a <= names.len(),
                kept@.map_values(|x: String| x@) == without(names.subrange(0, a as int), env_name@),
            decreases names.len() - a,
        {
            assert(names.subrange(0, a + 1 as int).drop_last() =~= names.subrange(0, a as int));
            assert(names.subrange(0, a + 1 as int).last() == names[a as int]);
            if self.affected_environments[a] != *env_name {
                let ghost prev = kept@;
                let n = self.affected_environments[a].clone();
                kept.push(n);
                assert(kept@.map_values(|x: String| x@) =~= prev.map_values(|x: String| x@).push(n@));
            }
            a = a + 1;
        }
        assert(names.subrange(0, a as int) =~= names);
        self.affected_environments = kept;
        self.woken = true;
        proof {
            lemma_without(names, env_name@);
        }
        assert(self@.joined =~= target.joined);
    }

    /// Receives everything that waits from the joined environments, in the
    /// order they were joined and first-in first-out for each, counts it, and
    /// leaves the environments that were dropped.
    pub fn receive_pending(&mut self) -> (r: Vec<Effect>)
        ensures
            effects_view(r@) == old(self)@.pending(),
            final(self)@ == old(self)@.received(),
            old(self)@.wf() ==> final(self)@.wf(),
    {
        let ghost js = self@.joined;
        let mut out: Vec<Effect> = Vec::new();
        let mut kept: Vec<JoinedEnvironment> = Vec::new();
        let n = self.joined_environments.len();
        let mut i: usize = 0;
        while i < n
            invariant
                n == js.len(),
                js == self@.joined,
                self == old(self),
                i <= n,
                effects_view(out@) == pending_of(js.subrange(0, i as int)),
                kept@.map_values(|j: JoinedEnvironment| j@) == remaining_of(js.subrange(0, i as int)),
            decreases n - i,
        {
            let rec = &self.joined_environments[i];
            assert(rec@ == js[i as int]);
            let m = rec.in_chan.len();
            let mut k: usize = 0;
            while k < m
                invariant
                    n == js.len(),
                    i < n,
                    rec@ == js[i as int],
                    rec.in_chan@.len() == m,
                    k <= m,
                    effects_view(out@) == pending_of(js.subrange(0, i as int)) + rec@.queue.subrange(0, k as int),
                decreases m - k,
            {
                let e = rec.in_chan[k].duplicate();
                let ghost prev = out@;
                out.push(e);
                proof {
                    lemma_effects_view_push(prev, e);
                    assert(rec@.queue.subrange(0, k + 1 as int) =~= rec@.queue.subrange(0, k as int).push(rec@.queue[k as int]));
                }
                k = k + 1;
                assert(effects_view(out@) =~= pending_of(js.subrange(0, i as int)) + rec@.queue.subrange(0, k as int));
            }
            let ghost prev_kept = kept@;
            if !rec.closed {
                let fresh = JoinedEnvironment { name: rec.name.clone(), in_chan: Vec::new(), closed: false };
                assert(fresh@.queue =~= Seq::<EffectModel>::empty());
                kept.push(fresh);
                assert(kept@.map_values(|j: JoinedEnvironment| j@) =~= prev_kept.map_values(|j: JoinedEnvironment| j@).push(fresh_joined(js[i as int].name)));
            }
            assert(js.subrange(0, i + 1 as int).drop_last() =~= js.subrange(0, i as int));
            assert(rec@.queue.subrange(0, k as int) =~= rec@.queue);
            i = i + 1;
        }
        assert(js.subrange(0, n as int) =~= js);
        self.joined_environments = kept;
        self.num_received_effects = self.num_received_effects.saturating_add(out.len());
        self.woken = false;
        proof {
            if old(self)@.wf() {
                lemma_remaining_unique(js);
            }
            assert(self@.joined =~= old(self)@.received().joined);
        }
        out
    }
}

} // verus!
