//! Properties of the registry that relate several operations: counting,
//! delivery, leaving a dropped environment, shutdown and a transforming
//! round trip.
use vstd::prelude::*;

use crate::effect::EffectModel;
use crate::entity::{
    fresh_joined, has_name, lemma_closed_then_received, lemma_pending_delivered_from_empty,
    lemma_pending_len_delivered, lemma_without, remaining_of, unique_names, EntityModel, JoinedModel,
};
use crate::supervisor::{Progress, SupervisorModel};
use crate::transform::{core_output, outputs, reversed, Core, EffectCore};

verus! {

/// Environment names in `s` are unique.
pub open spec fn env_names_unique<C: EffectCore>(s: SupervisorModel<C>) -> bool {
    forall|i: int, j: int|
        0 <= i < j < s.environments.len() ==> #[trigger] s.environments[i].name
            != #[trigger] s.environments[j].name
}

/// Entity uuids in `s` are unique.
pub open spec fn entity_uuids_unique<C: EffectCore>(s: SupervisorModel<C>) -> bool {
    forall|i: int, j: int|
        0 <= i < j < s.entities.len() ==> #[trigger] s.entities[i].uuid != #[trigger] s.entities[j].uuid
}

/// `t` has the environment names of `s`, position by position.
pub open spec fn same_env_names<C: EffectCore>(s: SupervisorModel<C>, t: SupervisorModel<C>) -> bool {
    &&& t.environments.len() == s.environments.len()
    &&& forall|j: int| 0 <= j < s.environments.len() ==> #[trigger] t.environments[j].name == s.environments[j].name
}

/// `t` has the entity uuids of `s`, position by position.
pub open spec fn same_entity_uuids<C: EffectCore>(s: SupervisorModel<C>, t: SupervisorModel<C>) -> bool {
    &&& t.entities.len() == s.entities.len()
    &&& forall|k: int| 0 <= k < s.entities.len() ==> #[trigger] t.entities[k].uuid == s.entities[k].uuid
}

/// With unique names, the environment named `name` is the one at the
/// position `i` that holds that name.
proof fn lemma_env_index_of<C: EffectCore>(s: SupervisorModel<C>, name: Seq<char>, i: int)
    requires
        env_names_unique(s),
        0 <= i < s.environments.len(),
        s.environments[i].name == name,
    ensures
        s.has_env(name),
        s.env_index(name) == i,
{
    assert(s.has_env(name));
    let c = s.env_index(name);
    assert(s.environments[c].name == name);
}

/// With unique uuids, the entity with uuid `uuid` is the one at the position
/// `k` that holds that uuid.
proof fn lemma_entity_index_of<C: EffectCore>(s: SupervisorModel<C>, uuid: Seq<char>, k: int)
    requires
        entity_uuids_unique(s),
        0 <= k < s.entities.len(),
        s.entities[k].uuid == uuid,
    ensures
        s.has_entity(uuid),
        s.entity_index(uuid) == k,
{
    assert(s.has_entity(uuid));
    let c = s.entity_index(uuid);
    assert(s.entities[c].uuid == uuid);
}

/// Keeping the names keeps them unique.
proof fn lemma_same_names_unique<C: EffectCore>(s: SupervisorModel<C>, t: SupervisorModel<C>)
    requires
        env_names_unique(s),
        entity_uuids_unique(s),
        same_env_names(s, t),
        same_entity_uuids(s, t),
    ensures
        env_names_unique(t),
        entity_uuids_unique(t),
{
    assert forall|i: int, j: int| 0 <= i < j < t.environments.len() implies #[trigger] t.environments[i].name
        != #[trigger] t.environments[j].name by {
        assert(t.environments[i].name == s.environments[i].name);
        assert(t.environments[j].name == s.environments[j].name);
    }
    assert forall|i: int, j: int| 0 <= i < j < t.entities.len() implies #[trigger] t.entities[i].uuid
        != #[trigger] t.entities[j].uuid by {
        assert(t.entities[i].uuid == s.entities[i].uuid);
        assert(t.entities[j].uuid == s.entities[j].uuid);
    }
}

/// Submitting effects one by one appends them to the inbox of the
/// environment they go to and changes nothing else.
proof fn lemma_submitted_all<C: EffectCore>(s: SupervisorModel<C>, effects: Seq<EffectModel>, name: Seq<char>)
    requires
        env_names_unique(s),
        entity_uuids_unique(s),
        s.has_env(name),
    ensures
        ({
            let t = s.submitted_all(effects, name);
            let i = s.env_index(name);
            &&& same_env_names(s, t)
            &&& t.entities == s.entities
            &&& t.shutdown == s.shutdown
            &&& t.env_index(name) == i
            &&& t.environments[i] == s.environments[i].published(effects)
            &&& forall|j: int| 0 <= j < s.environments.len() && j != i ==> #[trigger] t.environments[j] == s.environments[j]
        }),
    decreases effects.len(),
{
    let i = s.env_index(name);
    assert(0 <= i < s.environments.len() && s.environments[i].name == name);
    if effects.len() == 0 {
        assert(s.environments[i].inbox + effects =~= s.environments[i].inbox);
        assert(s.environments[i].published(effects) == s.environments[i]);
    } else {
        let prev = s.submitted_all(effects.drop_last(), name);
        lemma_submitted_all(s, effects.drop_last(), name);
        lemma_same_names_unique(s, prev);
        let t = s.submitted_all(effects, name);
        assert(t == prev.submitted(effects.last(), name));
        assert(prev.environments[i].inbox + seq![effects.last()] =~= s.environments[i].inbox + effects) by {
            assert(effects =~= effects.drop_last().push(effects.last()));
        }
        assert(prev.environments[i].inbox.push(effects.last()) =~= s.environments[i].inbox + effects) by {
            assert(effects =~= effects.drop_last().push(effects.last()));
        }
        assert(same_env_names(s, t));
        lemma_same_names_unique(s, t);
        lemma_env_index_of(t, name, i);
    }
}

/// Polling the environment at `i` keeps every name and uuid in place.
proof fn lemma_env_polled_names<C: EffectCore>(s: SupervisorModel<C>, i: int)
    requires
        0 <= i < s.environments.len(),
    ensures
        same_env_names(s, s.env_polled(i)),
        same_entity_uuids(s, s.env_polled(i)),
        s.env_polled(i).shutdown == s.shutdown,
{
}

/// Polling the entity at `k` keeps every name and uuid in place.
proof fn lemma_entity_polled_names<C: EffectCore>(s: SupervisorModel<C>, k: int)
    requires
        0 <= k < s.entities.len(),
    ensures
        same_env_names(s, s.entity_polled(k)),
        same_entity_uuids(s, s.entity_polled(k)),
{
}

/// Every effect submitted to a fresh environment is counted by it once it
/// is polled: its count equals the number of submissions.
pub proof fn lemma_submissions_counted<C: EffectCore>(s: SupervisorModel<C>, name: Seq<char>, effects: Seq<EffectModel>)
    requires
        s.wf(),
        s.has_env(name),
        s.env(name).inbox.len() == 0,
        s.env(name).num_received == 0,
        effects.len() <= usize::MAX,
    ensures
        ({
            let s1 = s.submitted_all(effects, name);
            s1.env_polled(s1.env_index(name)).env(name).num_received == effects.len()
        }),
{
    let i = s.env_index(name);
    let s1 = s.submitted_all(effects, name);
    lemma_submitted_all(s, effects, name);
    lemma_same_names_unique(s, s1);
    let s2 = s1.env_polled(i);
    lemma_env_polled_names(s1, i);
    lemma_same_names_unique(s1, s2);
    lemma_env_index_of(s2, name, i);
}

/// The entity at `k` after the environment at `i` broadcast to it.
proof fn lemma_env_polled_entity<C: EffectCore>(s: SupervisorModel<C>, i: int, k: int)
    requires
        0 <= i < s.environments.len(),
        0 <= k < s.entities.len(),
        s.environments[i].joined.contains(s.entities[k].uuid),
    ensures
        s.env_polled(i).entities[k] == (EntityModel {
            woken: true,
            ..s.entities[k].delivered(s.environments[i].name, s.environments[i].inbox)
        }),
{
}

/// An entity that joined an environment, with nothing waiting and nothing
/// counted yet, has received every effect submitted to that environment
/// once the environment and then the entity were polled.
pub proof fn lemma_joined_entity_counts<C: EffectCore>(
    s: SupervisorModel<C>,
    name: Seq<char>,
    uuid: Seq<char>,
    effects: Seq<EffectModel>,
)
    requires
        s.wf(),
        s.has_env(name),
        s.has_entity(uuid),
        s.env(name).joined.contains(uuid),
        s.entity(uuid).has_joined(name),
        s.env(name).inbox.len() == 0,
        s.entity(uuid).pending().len() == 0,
        s.entity(uuid).num_received == 0,
        effects.len() <= usize::MAX,
    ensures
        ({
            let s1 = s.submitted_all(effects, name);
            let s2 = s1.env_polled(s1.env_index(name));
            s2.entity_polled(s2.entity_index(uuid)).entity(uuid).num_received == effects.len()
        }),
{
    let i = s.env_index(name);
    let k = s.entity_index(uuid);
    let s1 = s.submitted_all(effects, name);
    lemma_submitted_all(s, effects, name);
    lemma_same_names_unique(s, s1);
    assert(s1.environments[i].inbox =~= effects);
    let s2 = s1.env_polled(i);
    lemma_env_polled_names(s1, i);
    lemma_same_names_unique(s1, s2);
    lemma_entity_index_of(s2, uuid, k);
    lemma_env_polled_entity(s1, i, k);
    let e = s.entities[k];
    assert(e.wf());
    lemma_pending_len_delivered(e.joined, name, effects);
    assert(has_name(e.joined, name)) by {
        let c = choose|c: int| 0 <= c < e.joined.len() && #[trigger] e.joined[c].name == name;
        assert(e.joined[c].name == name);
    }
    let s3 = s2.entity_polled(k);
    lemma_entity_polled_names(s2, k);
    lemma_same_names_unique(s2, s3);
    lemma_entity_index_of(s3, uuid, k);
}

/// An entity that joined two environments, with nothing waiting and nothing
/// counted yet, has received every effect submitted to either of them once
/// both environments and then the entity were polled.
pub proof fn lemma_two_environments_count<C: EffectCore>(
    s: SupervisorModel<C>,
    x: Seq<char>,
    y: Seq<char>,
    uuid: Seq<char>,
    effects_x: Seq<EffectModel>,
    effects_y: Seq<EffectModel>,
)
    requires
        s.wf(),
        x != y,
        s.has_env(x),
        s.has_env(y),
        s.has_entity(uuid),
        s.env(x).joined.contains(uuid),
        s.env(y).joined.contains(uuid),
        s.entity(uuid).has_joined(x),
        s.entity(uuid).has_joined(y),
        s.env(x).inbox.len() == 0,
        s.env(y).inbox.len() == 0,
        s.entity(uuid).pending().len() == 0,
        s.entity(uuid).num_received == 0,
        effects_x.len() + effects_y.len() <= usize::MAX,
    ensures
        ({
            let s1 = s.submitted_all(effects_x, x).submitted_all(effects_y, y);
            let s2 = s1.env_polled(s1.env_index(x));
            let s3 = s2.env_polled(s2.env_index(y));
            s3.entity_polled(s3.entity_index(uuid)).entity(uuid).num_received == effects_x.len()
                + effects_y.len()
        }),
{
    let ix = s.env_index(x);
    let iy = s.env_index(y);
    let k = s.entity_index(uuid);
    let sa = s.submitted_all(effects_x, x);
    lemma_submitted_all(s, effects_x, x);
    lemma_same_names_unique(s, sa);
    lemma_env_index_of(sa, y, iy);
    let s1 = sa.submitted_all(effects_y, y);
    lemma_submitted_all(sa, effects_y, y);
    lemma_same_names_unique(sa, s1);
    lemma_env_index_of(s1, x, ix);
    assert(s1.environments[ix].inbox =~= effects_x);
    assert(s1.environments[iy].inbox =~= effects_y);
    let s2 = s1.env_polled(ix);
    lemma_env_polled_names(s1, ix);
    lemma_same_names_unique(s1, s2);
    lemma_env_index_of(s2, y, iy);
    lemma_env_polled_entity(s1, ix, k);
    let s3 = s2.env_polled(iy);
    lemma_env_polled_names(s2, iy);
    lemma_same_names_unique(s2, s3);
    lemma_entity_index_of(s3, uuid, k);
    lemma_env_polled_entity(s2, iy, k);
    let e = s.entities[k];
    assert(e.wf());
    let e1 = e.delivered(x, effects_x);
    lemma_pending_len_delivered(e.joined, x, effects_x);
    assert(has_name(e.joined, x)) by {
        let c = choose|c: int| 0 <= c < e.joined.len() && #[trigger] e.joined[c].name == x;
        assert(e.joined[c].name == x);
    }
    assert(unique_names(e1.joined)) by {
        assert forall|a: int, b: int| 0 <= a < b < e1.joined.len() implies #[trigger] e1.joined[a].name
            != #[trigger] e1.joined[b].name by {
            assert(e1.joined[a].name == e.joined[a].name);
            assert(e1.joined[b].name == e.joined[b].name);
        }
    }
    lemma_pending_len_delivered(e1.joined, y, effects_y);
    assert(has_name(e1.joined, y)) by {
        let c = choose|c: int| 0 <= c < e.joined.len() && #[trigger] e.joined[c].name == y;
        assert(e1.joined[c].name == y);
    }
    let s4 = s3.entity_polled(k);
    lemma_entity_polled_names(s3, k);
    lemma_same_names_unique(s3, s4);
    lemma_entity_index_of(s4, uuid, k);
}

/// After an environment is deleted it is no longer known, no entity affects
/// it, and every entity has left it after its next poll, so nothing more
/// reaches an entity from it and nothing is published under its name.
pub proof fn lemma_deleted_environment_is_left<C: EffectCore>(s: SupervisorModel<C>, name: Seq<char>, k: int)
    requires
        s.wf(),
        s.has_env(name),
        0 <= k < s.entities.len(),
    ensures
        !s.env_deleted(name).has_env(name),
        !s.env_deleted(name).entities[k].is_affecting(name),
        !s.env_deleted(name).entity_polled(k).entities[k].has_joined(name),
{
    lemma_without(s.entities[k].affected, name);
    let i = s.env_index(name);
    let s1 = s.env_deleted(name);
    if s1.has_env(name) {
        let c = choose|c: int| 0 <= c < s1.environments.len() && #[trigger] s1.environments[c].name == name;
        let c0 = if c < i { c } else { c + 1 };
        assert(s1.environments[c] == s.environments[c0]);
        assert(s.environments[i].name == name);
    }
    assert(s1.entities[k] == s.entities[k].closed(name));
    lemma_closed_then_received(s.entities[k], name);
}

/// Signalling shutdown wakes every environment and every entity, so each is
/// polled again, and from then on a poll of the supervisor, of any
/// environment and of any entity reports `Ready`; polls keep it so.
pub proof fn lemma_shutdown_completes_every_task<C: EffectCore>(s: SupervisorModel<C>)
    ensures
        ({
            let t = s.sig_termed();
            &&& t.progress() == Progress::Ready
            &&& forall|j: int| 0 <= j < t.environments.len() ==> (#[trigger] t.environments[j]).woken
            &&& forall|k: int| 0 <= k < t.entities.len() ==> (#[trigger] t.entities[k]).woken
            &&& forall|k: int| 0 <= k < t.entities.len() ==> #[trigger] t.entity_progress(k) == Progress::Ready
            &&& forall|j: int| 0 <= j < t.environments.len() ==> (#[trigger] t.env_polled(j)).shutdown
            &&& forall|k: int| 0 <= k < t.entities.len() ==> (#[trigger] t.entity_polled(k)).shutdown
        }),
{
}

/// An entity with the core `Reverse` that joined `x` and affects `y` turns
/// one text submitted to `x` into exactly one reversed text waiting at `y`.
pub proof fn lemma_reverse_round_trip(
    s: SupervisorModel<Core>,
    x: Seq<char>,
    y: Seq<char>,
    uuid: Seq<char>,
    text: Seq<char>,
)
    requires
        s.wf(),
        x != y,
        s.has_env(x),
        s.has_env(y),
        s.has_entity(uuid),
        s.env(x).joined.contains(uuid),
        s.entity(uuid).has_joined(x),
        s.entity(uuid).is_affecting(y),
        s.entity(uuid).core == Some(Core::Reverse),
        s.env(x).inbox.len() == 0,
        s.env(y).inbox.len() == 0,
        forall|j: int| 0 <= j < s.entity(uuid).joined.len() ==> (#[trigger] s.entity(uuid).joined[j]).queue.len() == 0,
    ensures
        ({
            let s1 = s.submitted(EffectModel::Ascii(text), x);
            let s2 = s1.env_polled(s1.env_index(x));
            let s3 = s2.entity_polled(s2.entity_index(uuid));
            &&& s3.env(y).inbox == seq![EffectModel::Ascii(reversed(text))]
            &&& s3.env(y).woken
            &&& s.entity(uuid).num_received < usize::MAX ==> s3.entity(uuid).num_received
                == s.entity(uuid).num_received + 1
        }),
{
    let ix = s.env_index(x);
    let iy = s.env_index(y);
    let k = s.entity_index(uuid);
    let msg = seq![EffectModel::Ascii(text)];
    let s1 = s.submitted(EffectModel::Ascii(text), x);
    lemma_submitted_all(s, msg, x);
    assert(msg.drop_last() =~= Seq::<EffectModel>::empty());
    assert(s.submitted_all(msg.drop_last(), x) == s);
    assert(msg.last() == EffectModel::Ascii(text));
    assert(s.submitted_all(msg, x) == s1);
    lemma_same_names_unique(s, s1);
    assert(s1.environments[ix].inbox =~= msg);
    lemma_env_index_of(s1, y, iy);
    let s2 = s1.env_polled(ix);
    lemma_env_polled_names(s1, ix);
    lemma_same_names_unique(s1, s2);
    lemma_entity_index_of(s2, uuid, k);
    lemma_env_index_of(s2, y, iy);
    lemma_env_polled_entity(s1, ix, k);
    let e = s.entities[k];
    assert(e.wf());
    lemma_pending_delivered_from_empty(e.joined, x, msg);
    assert(has_name(e.joined, x)) by {
        let c = choose|c: int| 0 <= c < e.joined.len() && #[trigger] e.joined[c].name == x;
        assert(e.joined[c].name == x);
    }
    let e2 = s2.entities[k];
    assert(e2.pending() == msg);
    assert(msg.drop_last() =~= Seq::<EffectModel>::empty());
    assert(outputs(Some(Core::Reverse), msg.drop_last()) =~= Seq::<EffectModel>::empty());
    assert(core_output(Core::Reverse, msg.last()) == EffectModel::Ascii(reversed(text)));
    assert(outputs(Some(Core::Reverse), msg) =~= seq![EffectModel::Ascii(reversed(text))]);
    let s3 = s2.entity_polled(k);
    lemma_entity_polled_names(s2, k);
    lemma_same_names_unique(s2, s3);
    lemma_env_index_of(s3, y, iy);
    assert(s2.environments[iy] == s.environments[iy]);
    assert(e2.affected == e.affected);
    assert(e2.affected.contains(s2.environments[iy].name));
    assert(s.environments[iy].inbox + seq![EffectModel::Ascii(reversed(text))] =~= seq![
        EffectModel::Ascii(reversed(text)),
    ]);
    lemma_entity_index_of(s3, uuid, k);
}

/// Polling an environment takes every effect waiting in its inbox exactly
/// once: the inbox is left empty and, below the counter's limit, the count
/// grows by the number of effects taken.
pub proof fn lemma_environment_poll_counts<C: EffectCore>(s: SupervisorModel<C>, i: int)
    requires
        0 <= i < s.environments.len(),
        s.environments[i].num_received + s.environments[i].inbox.len() <= usize::MAX,
    ensures
        s.env_polled(i).environments[i].inbox.len() == 0,
        s.env_polled(i).environments[i].num_received == s.environments[i].num_received
            + s.environments[i].inbox.len(),
{
}

/// With no joined environment dropped, the remaining ones after a poll are
/// the same environments, in the same order, with nothing left waiting.
proof fn lemma_remaining_when_none_closed(js: Seq<JoinedModel>)
    requires
        forall|j: int| 0 <= j < js.len() ==> !(#[trigger] js[j]).closed,
    ensures
        remaining_of(js).len() == js.len(),
        forall|j: int| 0 <= j < js.len() ==> #[trigger] remaining_of(js)[j] == fresh_joined(js[j].name),
    decreases js.len(),
{
    if js.len() > 0 {
        lemma_remaining_when_none_closed(js.drop_last());
        let r = remaining_of(js);
        assert forall|j: int| 0 <= j < js.len() implies #[trigger] r[j] == fresh_joined(js[j].name) by {
            if j < js.len() - 1 {
                assert(js.drop_last()[j] == js[j]);
            }
        }
    }
}

/// Polling an entity receives every effect waiting for it exactly once:
/// below the counter's limit the count grows by the number of effects that
/// waited, whichever environment they came from. When no joined environment
/// was dropped it stays joined to the same environments, in the same order,
/// with nothing left waiting. It completes only if shutdown was signalled
/// or it was told to terminate.
pub proof fn lemma_entity_poll_counts<C: EffectCore>(s: SupervisorModel<C>, k: int)
    requires
        0 <= k < s.entities.len(),
    ensures
        s.entities[k].num_received + s.entities[k].pending().len() <= usize::MAX ==> s.entity_polled(
            k,
        ).entities[k].num_received == s.entities[k].num_received + s.entities[k].pending().len(),
        (forall|j: int| 0 <= j < s.entities[k].joined.len() ==> !(#[trigger] s.entities[k].joined[j]).closed)
            ==> s.entity_polled(k).entities[k].joined_names() == s.entities[k].joined_names() && forall|j: int|
            0 <= j < s.entities[k].joined.len() ==> (#[trigger] s.entity_polled(k).entities[k].joined[j]).queue.len()
                == 0,
        s.entity_progress(k) == Progress::NotReady <==> !s.shutdown && !s.entities[k].terminated,
{
    let e = s.entities[k];
    if forall|j: int| 0 <= j < e.joined.len() ==> !(#[trigger] e.joined[j]).closed {
        lemma_remaining_when_none_closed(e.joined);
        let r = s.entity_polled(k).entities[k];
        assert(r.joined == remaining_of(e.joined));
        assert(r.joined_names() =~= e.joined_names());
    }
}

} // verus!
