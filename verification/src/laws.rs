use vstd::prelude::*;

verus! {

use crate::env_action::EnvActionView;
use crate::responses::{StepResponseView, EpisodeResponseView};
use crate::env_process_interface::{
    SlotView, ObsDataView, TimestepDataView, StateInfoView, step_collect_rel, episode_collect_rel,
    episode_prev_ids, spec_dict_lookup, collect_rel,
};
use crate::{AgentId, TimestepId};

// The laws of step collection, stated over the per-slot collection
// relations that `collect_step_data` establishes for every slot it acts
// on.

/// Shape parity: after a collection, the agent id list of a slot's
/// observation entry equals the key column of its terminated and
/// truncated maps whenever those are present, and the timestep list has
/// one entry per agent exactly when the action in flight was a STEP, and
/// is empty otherwise.
pub proof fn lemma_shape_parity(
    recalc: bool,
    with_state: bool,
    with_metrics: bool,
    pre: SlotView,
    post: SlotView,
    buf: Seq<u8>,
    od: ObsDataView,
    td: TimestepDataView,
    si: StateInfoView,
)
    requires
        collect_rel(recalc, with_state, with_metrics, pre, post, buf, od, td, si),
    ensures
        si.terminated matches Some(kvs) ==> kvs.len() == od.agent_ids.len() && (forall|i: int|
            0 <= i < kvs.len() ==> (#[trigger] kvs[i]).0 == od.agent_ids[i]),
        si.truncated matches Some(kvs) ==> kvs.len() == od.agent_ids.len() && (forall|i: int|
            0 <= i < kvs.len() ==> (#[trigger] kvs[i]).0 == od.agent_ids[i]),
        (pre.env_action matches Some(EnvActionView::STEP { .. })) ==> td.timesteps.len()
            == od.agent_ids.len() && si.terminated is Some && si.truncated is Some,
        !(pre.env_action matches Some(EnvActionView::STEP { .. })) ==> td.timesteps.len() == 0
            && si.terminated is None && si.truncated is None,
{
}

/// Collecting a RESET emits no timesteps and no flag maps, and clears the
/// whole back-reference column for the new agent set.
pub proof fn lemma_reset_collection(
    recalc: bool,
    with_state: bool,
    with_metrics: bool,
    pre: SlotView,
    post: SlotView,
    buf: Seq<u8>,
    od: ObsDataView,
    td: TimestepDataView,
    si: StateInfoView,
)
    requires
        collect_rel(recalc, with_state, with_metrics, pre, post, buf, od, td, si),
        pre.env_action == Some(EnvActionView::RESET {}),
    ensures
        td.timesteps.len() == 0,
        si.terminated is None,
        si.truncated is None,
        post.prev_timestep_ids.len() == post.agent_ids.len(),
        forall|i: int|
            0 <= i < post.prev_timestep_ids.len() ==> (#[trigger] post.prev_timestep_ids[i])
                is None,
{
}

/// Collecting a SET_STATE that carries an explicit previous-timestep map
/// seeds the back-reference column from that map, one lookup per new
/// agent.
pub proof fn lemma_set_state_seeds_prev_ids(
    recalc: bool,
    with_state: bool,
    with_metrics: bool,
    d: Seq<(AgentId, Option<TimestepId>)>,
    pre: SlotView,
    post: SlotView,
    buf: Seq<u8>,
    od: ObsDataView,
    td: TimestepDataView,
    si: StateInfoView,
)
    requires
        collect_rel(recalc, with_state, with_metrics, pre, post, buf, od, td, si),
        pre.env_action matches Some(
            EnvActionView::SET_STATE { prev_timestep_id_dict_option: Some(dd), .. },
        ) && dd == d,
    ensures
        post.prev_timestep_ids.len() == post.agent_ids.len(),
        forall|i: int|
            0 <= i < post.prev_timestep_ids.len() ==> #[trigger] post.prev_timestep_ids[i]
                == spec_dict_lookup(d, post.agent_ids[i]),
{
}

/// Where a STEP collection takes its agent ids from: with recalculation
/// off they are the shadow list, reused unchanged; with it on they are
/// the ids decoded from the response stream. Either way the shadow agent
/// set becomes the emitted one.
pub proof fn lemma_agent_id_source(
    recalc: bool,
    with_state: bool,
    with_metrics: bool,
    pre: SlotView,
    post: SlotView,
    buf: Seq<u8>,
    od: ObsDataView,
    td: TimestepDataView,
    si: StateInfoView,
)
    requires
        collect_rel(recalc, with_state, with_metrics, pre, post, buf, od, td, si),
        pre.env_action matches Some(EnvActionView::STEP { .. }),
    ensures
        ({
            let d = crate::responses::spec_dec_step_response(
                buf,
                0,
                pre.agent_ids.len(),
                recalc,
                with_state,
                with_metrics,
            );
            &&& d is Some
            &&& (d->Some_0.0.agent_ids is Some) == recalc
            &&& (!recalc ==> od.agent_ids == pre.agent_ids)
            &&& (recalc ==> od.agent_ids == d->Some_0.0.agent_ids->Some_0)
            &&& post.agent_ids == od.agent_ids
        }),
{
    crate::responses::lemma_dec_step_response_len(
        buf,
        0,
        pre.agent_ids.len(),
        recalc,
        with_state,
        with_metrics,
    );
}

/// Chaining: across two consecutive STEP collections on one slot, the
/// back-reference of each timestep of the second pass is exactly the
/// identifier issued for the same agent position in the first pass.
pub proof fn lemma_step_chaining(
    recalc: bool,
    s0: SlotView,
    s1: SlotView,
    r1: StepResponseView,
    od1: ObsDataView,
    td1: TimestepDataView,
    si1: StateInfoView,
    s2: SlotView,
    r2: StepResponseView,
    od2: ObsDataView,
    td2: TimestepDataView,
    si2: StateInfoView,
)
    requires
        step_collect_rel(recalc, s0, s1, r1, od1, td1, si1),
        step_collect_rel(recalc, s1, s2, r2, od2, td2, si2),
    ensures
        td2.timesteps.len() == td1.timesteps.len(),
        forall|i: int|
            0 <= i < td2.timesteps.len() ==> (#[trigger] td2.timesteps[i]).previous_timestep_id
                == Some(td1.timesteps[i].timestep_id),
{
    assert forall|i: int|
        0 <= i < td2.timesteps.len() implies (#[trigger] td2.timesteps[i]).previous_timestep_id
        == Some(td1.timesteps[i].timestep_id) by {
        let t1 = td1.timesteps[i];
        let t2 = td2.timesteps[i];
        assert(t2.previous_timestep_id == s1.prev_timestep_ids[i]);
        assert(s1.prev_timestep_ids[i] == Some(t1.timestep_id));
    }
}

/// Reset clears the chain: after a RESET response is collected, every
/// timestep of the next STEP collection has no back-reference.
pub proof fn lemma_reset_clears_chain(
    recalc: bool,
    s0: SlotView,
    s1: SlotView,
    r1: EpisodeResponseView,
    od1: ObsDataView,
    td1: TimestepDataView,
    si1: StateInfoView,
    s2: SlotView,
    r2: StepResponseView,
    od2: ObsDataView,
    td2: TimestepDataView,
    si2: StateInfoView,
)
    requires
        s0.env_action == Some(EnvActionView::RESET {}),
        episode_collect_rel(s0, s1, r1, od1, td1, si1),
        step_collect_rel(recalc, s1, s2, r2, od2, td2, si2),
    ensures
        forall|i: int|
            0 <= i < td2.timesteps.len() ==> (#[trigger] td2.timesteps[i]).previous_timestep_id
                is None,
{
    assert forall|i: int|
        0 <= i < td2.timesteps.len() implies (#[trigger] td2.timesteps[i]).previous_timestep_id
        is None by {
        assert(td2.timesteps[i].previous_timestep_id == s1.prev_timestep_ids[i]);
        assert(s1.prev_timestep_ids == episode_prev_ids(
            EnvActionView::RESET {},
            r1.agent_ids,
        ));
    }
}

/// A SET_STATE map is honored: after a SET_STATE carrying an explicit
/// previous-timestep map is collected, the back-reference of each
/// timestep of the next STEP collection is the map's value for that
/// agent, `None` when the agent is absent from the map or mapped to
/// `None`.
pub proof fn lemma_set_state_map_honored(
    recalc: bool,
    d: Seq<(AgentId, Option<TimestepId>)>,
    s0: SlotView,
    s1: SlotView,
    r1: EpisodeResponseView,
    od1: ObsDataView,
    td1: TimestepDataView,
    si1: StateInfoView,
    s2: SlotView,
    r2: StepResponseView,
    od2: ObsDataView,
    td2: TimestepDataView,
    si2: StateInfoView,
)
    requires
        s0.env_action matches Some(
            EnvActionView::SET_STATE { prev_timestep_id_dict_option: Some(dd), .. },
        ) && dd == d,
        episode_collect_rel(s0, s1, r1, od1, td1, si1),
        step_collect_rel(recalc, s1, s2, r2, od2, td2, si2),
    ensures
        forall|i: int|
            0 <= i < td2.timesteps.len() ==> (#[trigger] td2.timesteps[i]).previous_timestep_id
                == spec_dict_lookup(d, od1.agent_ids[i]),
{
    assert forall|i: int|
        0 <= i < td2.timesteps.len() implies (#[trigger] td2.timesteps[i]).previous_timestep_id
        == spec_dict_lookup(d, od1.agent_ids[i]) by {
        assert(td2.timesteps[i].previous_timestep_id == s1.prev_timestep_ids[i]);
        assert(s1.prev_timestep_ids == episode_prev_ids(
            s0.env_action->Some_0,
            r1.agent_ids,
        ));
        assert(s1.prev_timestep_ids[i] == spec_dict_lookup(d, r1.agent_ids[i]));
        assert(od1.agent_ids == r1.agent_ids);
    }
}

} // verus!
