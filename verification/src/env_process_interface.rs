use vstd::prelude::*;

verus! {

use vstd::slice::slice_to_vec;
use crate::{Payload, AgentId, TimestepId, EpiError};
use crate::env_action::{
    EnvAction, EnvActionView, Header, spec_header_byte, append_header, append_env_action_new,
    spec_enc_env_action,
};
use crate::responses::{
    EpisodeResponse, EpisodeResponseView, StepResponse, StepResponseView, parse_episode_response,
    parse_step_response, parse_shapes_response, spec_dec_episode_response, spec_dec_step_response,
    spec_dec_shapes_response,
};
use crate::wire::{clone_payload, clone_payload_list};

// The coordinator: it owns one slot of shadow state per live worker and
// turns raw response bytes into observation batches, timestep records and
// state information, keyed by the worker's proc id. All transport (shared
// memory, sockets, the readiness selector) stays with the caller, which
// hands in the bytes each worker wrote and carries out the frames this
// module produces.

/// One immutable record per agent per step.
#[derive(Debug)]
pub struct Timestep {
    pub proc_id: String,
    pub timestep_id: TimestepId,
    pub previous_timestep_id: Option<TimestepId>,
    pub agent_id: AgentId,
    pub obs: Payload,
    pub next_obs: Payload,
    pub action: Payload,
    pub reward: Payload,
    pub terminated: bool,
    pub truncated: bool,
}

/// Mathematical image of a `Timestep`.
#[verifier::ext_equal]
pub ghost struct TimestepView {
    pub proc_id: Seq<char>,
    pub timestep_id: TimestepId,
    pub previous_timestep_id: Option<TimestepId>,
    pub agent_id: AgentId,
    pub obs: Seq<u8>,
    pub next_obs: Seq<u8>,
    pub action: Seq<u8>,
    pub reward: Seq<u8>,
    pub terminated: bool,
    pub truncated: bool,
}

impl DeepView for Timestep {
    type V = TimestepView;

    open spec fn deep_view(&self) -> TimestepView {
        self.view()
    }
}

impl View for Timestep {
    type V = TimestepView;

    open spec fn view(&self) -> TimestepView {
        TimestepView {
            proc_id: self.proc_id@,
            timestep_id: self.timestep_id,
            previous_timestep_id: self.previous_timestep_id,
            agent_id: self.agent_id,
            obs: self.obs@,
            next_obs: self.next_obs@,
            action: self.action@,
            reward: self.reward@,
            terminated: self.terminated,
            truncated: self.truncated,
        }
    }
}

/// The per-worker entry of the observation batch: the current agent ids
/// and their observations.
#[derive(Debug)]
pub struct ObsData {
    pub agent_id_list: Vec<AgentId>,
    pub obs_list: Vec<Payload>,
}

#[verifier::ext_equal]
pub ghost struct ObsDataView {
    pub agent_ids: Seq<AgentId>,
    pub obs: Seq<Seq<u8>>,
}

impl View for ObsData {
    type V = ObsDataView;

    open spec fn view(&self) -> ObsDataView {
        ObsDataView { agent_ids: self.agent_id_list@, obs: self.obs_list.deep_view() }
    }
}

/// The per-worker entry of the timestep batch: the emitted timesteps, the
/// learning data of the step they answer, and the optional metrics and
/// state blobs.
#[derive(Debug)]
pub struct TimestepData {
    pub timestep_list: Vec<Timestep>,
    pub aald_option: Option<Payload>,
    pub metrics_option: Option<Payload>,
    pub state_option: Option<Payload>,
}

#[verifier::ext_equal]
pub ghost struct TimestepDataView {
    pub timesteps: Seq<TimestepView>,
    pub aald: Option<Seq<u8>>,
    pub metrics: Option<Seq<u8>>,
    pub state: Option<Seq<u8>>,
}

impl View for TimestepData {
    type V = TimestepDataView;

    open spec fn view(&self) -> TimestepDataView {
        TimestepDataView {
            timesteps: self.timestep_list.deep_view(),
            aald: self.aald_option.deep_view(),
            metrics: self.metrics_option.deep_view(),
            state: self.state_option.deep_view(),
        }
    }
}

/// The per-worker entry of the state-information batch: the optional state
/// blob and, after a STEP, the dense terminated and truncated maps over
/// the agent set.
#[derive(Debug)]
pub struct StateInfo {
    pub state_option: Option<Payload>,
    pub terminated_kv_list: Option<Vec<(AgentId, bool)>>,
    pub truncated_kv_list: Option<Vec<(AgentId, bool)>>,
}

#[verifier::ext_equal]
pub ghost struct StateInfoView {
    pub state: Option<Seq<u8>>,
    pub terminated: Option<Seq<(AgentId, bool)>>,
    pub truncated: Option<Seq<(AgentId, bool)>>,
}

impl View for StateInfo {
    type V = StateInfoView;

    open spec fn view(&self) -> StateInfoView {
        StateInfoView {
            state: self.state_option.deep_view(),
            terminated: self.terminated_kv_list.deep_view(),
            truncated: self.truncated_kv_list.deep_view(),
        }
    }
}

/// Shadow state of one worker slot, as mathematics.
#[verifier::ext_equal]
pub ghost struct SlotView {
    pub proc_id: Seq<char>,
    pub env_action: Option<EnvActionView>,
    pub agent_ids: Seq<AgentId>,
    pub prev_timestep_ids: Seq<Option<TimestepId>>,
    pub obs: Seq<Seq<u8>>,
    pub actions: Seq<Seq<u8>>,
    pub aald: Option<Seq<u8>>,
}

/// The coordinator. Slots live in dense parallel arrays indexed by
/// `pid_idx`; removal is tail-pop only, so surviving indices never move.
#[derive(Debug)]
pub struct EnvProcessInterface {
    pub recalculate_agent_id_every_step: bool,
    pub flinks_folder: String,
    pub min_process_steps_per_inference: usize,
    pub send_state_to_agent_controllers: bool,
    pub should_collect_state_metrics: bool,
    pub proc_ids: Vec<String>,
    pub pid_idx_current_env_action_list: Vec<Option<EnvAction>>,
    pub pid_idx_current_agent_id_list: Vec<Option<Vec<AgentId>>>,
    pub pid_idx_prev_timestep_id_list: Vec<Vec<Option<TimestepId>>>,
    pub pid_idx_current_obs_list: Vec<Vec<Payload>>,
    pub pid_idx_current_action_list: Vec<Vec<Payload>>,
    pub pid_idx_current_aald_list: Vec<Option<Payload>>,
    pub added_process_obs_data_kv_list: Vec<(String, ObsData)>,
    pub added_process_state_info_kv_list: Vec<(String, StateInfo)>,
}

impl EnvProcessInterface {
    pub open spec fn n_procs(self) -> int {
        self.proc_ids@.len() as int
    }

    pub open spec fn slot(self, i: int) -> SlotView {
        SlotView {
            proc_id: self.proc_ids@[i]@,
            env_action: match self.pid_idx_current_env_action_list@[i] {
                Some(a) => Some(a@),
                None => None,
            },
            agent_ids: match self.pid_idx_current_agent_id_list@[i] {
                Some(v) => v@,
                None => Seq::<AgentId>::empty(),
            },
            prev_timestep_ids: self.pid_idx_prev_timestep_id_list@[i]@,
            obs: self.pid_idx_current_obs_list@[i].deep_view(),
            actions: self.pid_idx_current_action_list@[i].deep_view(),
            aald: match self.pid_idx_current_aald_list@[i] {
                Some(p) => Some(p@),
                None => None,
            },
        }
    }

    /// The configuration fields never change after construction.
    pub open spec fn same_config(self, other: Self) -> bool {
        &&& other.recalculate_agent_id_every_step == self.recalculate_agent_id_every_step
        &&& other.flinks_folder@ == self.flinks_folder@
        &&& other.send_state_to_agent_controllers == self.send_state_to_agent_controllers
        &&& other.should_collect_state_metrics == self.should_collect_state_metrics
    }

    pub open spec fn pending_obs_view(self) -> Seq<(Seq<char>, ObsDataView)> {
        obs_kvs_view(self.added_process_obs_data_kv_list@)
    }

    pub open spec fn pending_state_info_view(self) -> Seq<(Seq<char>, StateInfoView)> {
        si_kvs_view(self.added_process_state_info_kv_list@)
    }

    /// Whether a live slot carries this proc id.
    pub open spec fn has_pid(self, pid: Seq<char>) -> bool {
        exists|i: int| 0 <= i < self.n_procs() && (#[trigger] self.proc_ids@[i])@ == pid
    }

    /// Structural well-formedness of the slots: the parallel arrays agree
    /// in length, every slot's per-agent columns agree in length, a STEP
    /// in flight carries one action per agent, and proc ids are pairwise
    /// distinct.
    pub open spec fn wf_slots(self) -> bool {
        let n = self.n_procs();
        &&& self.pid_idx_current_env_action_list@.len() == n
        &&& self.pid_idx_current_agent_id_list@.len() == n
        &&& self.pid_idx_prev_timestep_id_list@.len() == n
        &&& self.pid_idx_current_obs_list@.len() == n
        &&& self.pid_idx_current_action_list@.len() == n
        &&& self.pid_idx_current_aald_list@.len() == n
        &&& (forall|i: int|
            0 <= i < n ==> (#[trigger] self.pid_idx_current_agent_id_list@[i]) is Some)
        &&& (forall|i: int|
            0 <= i < n ==> {
                let s = #[trigger] self.slot(i);
                &&& s.prev_timestep_ids.len() == s.agent_ids.len()
                &&& s.obs.len() == s.agent_ids.len()
                &&& (s.env_action matches Some(EnvActionView::STEP { .. }) ==> s.actions.len()
                    == s.agent_ids.len())
            })
        &&& (forall|i: int, j: int|
            0 <= i < j < n ==> (#[trigger] self.proc_ids@[i])@ != (#[trigger] self.proc_ids@[j])@)
    }

    /// A queued state-information entry stems from a worker's initial
    /// message, which never carries terminated or truncated maps.
    pub open spec fn pending_maps_clear(self) -> bool {
        forall|j: int|
            0 <= j < self.pending_state_info_view().len() ==> {
                let kv = #[trigger] self.pending_state_info_view()[j];
                kv.1.terminated is None && kv.1.truncated is None
            }
    }

    /// Well-formedness: the slots are well formed, the collection
    /// threshold is clamped whenever a slot is live, and queued
    /// state-information entries carry no flag maps.
    pub open spec fn wf(self) -> bool {
        &&& self.wf_slots()
        &&& (self.n_procs() >= 1 ==> 1 <= self.min_process_steps_per_inference <= self.n_procs())
        &&& self.pending_maps_clear()
    }

    /// Well-formedness carries over to a state with the same slots and a
    /// threshold that is clamped for its slot count.
    pub proof fn lemma_wf_same_slots(pre: Self, post: Self)
        requires
            pre.wf(),
            post.proc_ids@ == pre.proc_ids@,
            post.pid_idx_current_env_action_list@ == pre.pid_idx_current_env_action_list@,
            post.pid_idx_current_agent_id_list@ == pre.pid_idx_current_agent_id_list@,
            post.pid_idx_prev_timestep_id_list@ == pre.pid_idx_prev_timestep_id_list@,
            post.pid_idx_current_obs_list@ == pre.pid_idx_current_obs_list@,
            post.pid_idx_current_action_list@ == pre.pid_idx_current_action_list@,
            post.pid_idx_current_aald_list@ == pre.pid_idx_current_aald_list@,
            post.n_procs() >= 1 ==> 1 <= post.min_process_steps_per_inference
                <= post.n_procs(),
            post.pending_maps_clear(),
        ensures
            post.wf(),
            forall|i: int| 0 <= i < post.n_procs() ==> #[trigger] post.slot(i) == pre.slot(i),
    {
        assert forall|i: int| 0 <= i < post.n_procs() implies #[trigger] post.slot(i) == pre.slot(
            i,
        ) by {
            assert(post.proc_ids@[i] == pre.proc_ids@[i]);
            assert(post.pid_idx_current_env_action_list@[i]
                == pre.pid_idx_current_env_action_list@[i]);
            assert(post.pid_idx_current_agent_id_list@[i]
                == pre.pid_idx_current_agent_id_list@[i]);
            assert(post.pid_idx_prev_timestep_id_list@[i]
                == pre.pid_idx_prev_timestep_id_list@[i]);
            assert(post.pid_idx_current_obs_list@[i] == pre.pid_idx_current_obs_list@[i]);
            assert(post.pid_idx_current_action_list@[i] == pre.pid_idx_current_action_list@[i]);
            assert(post.pid_idx_current_aald_list@[i] == pre.pid_idx_current_aald_list@[i]);
        }
        assert forall|i: int| 0 <= i < post.n_procs() implies {
            let s = #[trigger] post.slot(i);
            &&& s.prev_timestep_ids.len() == s.agent_ids.len()
            &&& s.obs.len() == s.agent_ids.len()
            &&& (s.env_action matches Some(EnvActionView::STEP { .. }) ==> s.actions.len()
                == s.agent_ids.len())
        } by {
            assert(post.slot(i) == pre.slot(i));
            assert(pre.slot(i).prev_timestep_ids.len() == pre.slot(i).agent_ids.len());
        }
    }

    /// Builds an empty coordinator. Fails with `ConfigInvalid` exactly
    /// when a feature flag asks for a codec that is not available.
    pub fn new(
        recalculate_agent_id_every_step: bool,
        flinks_folder: String,
        min_process_steps_per_inference: usize,
        send_state_to_agent_controllers: bool,
        should_collect_state_metrics: bool,
        has_state_serde: bool,
        has_state_metrics_serde: bool,
    ) -> (r: Result<EnvProcessInterface, EpiError>)
        ensures
            (r is Ok) == ((send_state_to_agent_controllers ==> has_state_serde) && (
            should_collect_state_metrics ==> has_state_metrics_serde)),
            r matches Ok(epi) ==> {
                &&& epi.wf()
                &&& epi.n_procs() == 0
                &&& epi.recalculate_agent_id_every_step == recalculate_agent_id_every_step
                &&& epi.flinks_folder@ == flinks_folder@
                &&& epi.min_process_steps_per_inference == min_process_steps_per_inference
                &&& epi.send_state_to_agent_controllers == send_state_to_agent_controllers
                &&& epi.should_collect_state_metrics == should_collect_state_metrics
                &&& epi.pending_obs_view().len() == 0
                &&& epi.pending_state_info_view().len() == 0
            },
            r matches Err(e) ==> e == EpiError::ConfigInvalid,
    {
        if send_state_to_agent_controllers && !has_state_serde {
            return Err(EpiError::ConfigInvalid);
        }
        if should_collect_state_metrics && !has_state_metrics_serde {
            return Err(EpiError::ConfigInvalid);
        }
        let epi = EnvProcessInterface {
                recalculate_agent_id_every_step,
                flinks_folder,
                min_process_steps_per_inference,
                send_state_to_agent_controllers,
                should_collect_state_metrics,
                proc_ids: Vec::new(),
                pid_idx_current_env_action_list: Vec::new(),
                pid_idx_current_agent_id_list: Vec::new(),
                pid_idx_prev_timestep_id_list: Vec::new(),
                pid_idx_current_obs_list: Vec::new(),
                pid_idx_current_aald_list: Vec::new(),
                pid_idx_current_action_list: Vec::new(),
                added_process_obs_data_kv_list: Vec::new(),
                added_process_state_info_kv_list: Vec::new(),
            };
        proof {
            assert(epi.pending_obs_view() =~= Seq::<(Seq<char>, ObsDataView)>::empty());
            assert(epi.pending_state_info_view() =~= Seq::<(Seq<char>, StateInfoView)>::empty());
        }
        Ok(epi)
    }

    /// Raises the collection threshold by one, clamped to the number of
    /// live slots.
    pub fn increase_min_process_steps_per_inference(&mut self) -> (r: usize)
        requires
            old(self).wf(),
        ensures
            final(self).wf(),
            r == final(self).min_process_steps_per_inference,
            final(self).min_process_steps_per_inference == (
            if old(self).min_process_steps_per_inference >= old(self).n_procs() {
                old(self).n_procs()
            } else {
                old(self).min_process_steps_per_inference + 1
            }),
            *final(self) == (EnvProcessInterface {
                min_process_steps_per_inference: final(self).min_process_steps_per_inference,
                ..*old(self)
            }),
    {
        let n = self.proc_ids.len();
        if self.min_process_steps_per_inference >= n {
            self.min_process_steps_per_inference = n;
        } else {
            self.min_process_steps_per_inference = self.min_process_steps_per_inference + 1;
        }
        proof {
            assert(self.pending_state_info_view() =~= old(self).pending_state_info_view());
            Self::lemma_wf_same_slots(*old(self), *self);
        }
        self.min_process_steps_per_inference
    }

    /// Lowers the collection threshold by one, stopping at one.
    pub fn decrease_min_process_steps_per_inference(&mut self) -> (r: usize)
        requires
            old(self).wf(),
        ensures
            final(self).wf(),
            r == final(self).min_process_steps_per_inference,
            final(self).min_process_steps_per_inference == (
            if old(self).min_process_steps_per_inference >= 2 {
                old(self).min_process_steps_per_inference - 1
            } else {
                1int
            }),
            *final(self) == (EnvProcessInterface {
                min_process_steps_per_inference: final(self).min_process_steps_per_inference,
                ..*old(self)
            }),
    {
        if self.min_process_steps_per_inference >= 2 {
            self.min_process_steps_per_inference = self.min_process_steps_per_inference - 1;
        } else {
            self.min_process_steps_per_inference = 1;
        }
        proof {
            assert(self.pending_state_info_view() =~= old(self).pending_state_info_view());
            Self::lemma_wf_same_slots(*old(self), *self);
        }
        self.min_process_steps_per_inference
    }

    /// Drops every slot and all shadow state. The caller stops each
    /// worker with a stop frame before calling this.
    pub fn cleanup(&mut self)
        ensures
            final(self).wf(),
            final(self).n_procs() == 0,
            final(self).same_config(*old(self)),
            final(self).min_process_steps_per_inference == old(
                self,
            ).min_process_steps_per_inference,
            final(self).pending_obs_view().len() == 0,
            final(self).pending_state_info_view().len() == 0,
    {
        self.proc_ids = Vec::new();
        self.pid_idx_current_env_action_list = Vec::new();
        self.pid_idx_current_agent_id_list = Vec::new();
        self.pid_idx_prev_timestep_id_list = Vec::new();
        self.pid_idx_current_obs_list = Vec::new();
        self.pid_idx_current_action_list = Vec::new();
        self.pid_idx_current_aald_list = Vec::new();
        self.added_process_obs_data_kv_list = Vec::new();
        self.added_process_state_info_kv_list = Vec::new();
        proof {
            assert(self.pending_obs_view() =~= Seq::<(Seq<char>, ObsDataView)>::empty());
            assert(self.pending_state_info_view() =~= Seq::<(Seq<char>, StateInfoView)>::empty());
        }
    }
}

/// A keyed observation batch, as mathematics.
pub open spec fn obs_kvs_view(l: Seq<(String, ObsData)>) -> Seq<(Seq<char>, ObsDataView)> {
    l.map_values(|kv: (String, ObsData)| (kv.0@, kv.1@))
}

/// A keyed timestep batch, as mathematics.
pub open spec fn td_kvs_view(l: Seq<(String, TimestepData)>) -> Seq<(Seq<char>, TimestepDataView)> {
    l.map_values(|kv: (String, TimestepData)| (kv.0@, kv.1@))
}

/// A keyed state-information batch, as mathematics.
pub open spec fn si_kvs_view(l: Seq<(String, StateInfo)>) -> Seq<(Seq<char>, StateInfoView)> {
    l.map_values(|kv: (String, StateInfo)| (kv.0@, kv.1@))
}

/// The collection threshold clamped into `[1, n]`.
pub open spec fn spec_clamp_min(m: int, n: int) -> int {
    if m > n {
        n
    } else if m < 1 {
        1
    } else {
        m
    }
}

impl EnvProcessInterface {
    /// Slot fields equal implies the slot views are equal.
    pub proof fn lemma_same_slot_fields(pre: Self, post: Self)
        requires
            post.proc_ids@ == pre.proc_ids@,
            post.pid_idx_current_env_action_list@ == pre.pid_idx_current_env_action_list@,
            post.pid_idx_current_agent_id_list@ == pre.pid_idx_current_agent_id_list@,
            post.pid_idx_prev_timestep_id_list@ == pre.pid_idx_prev_timestep_id_list@,
            post.pid_idx_current_obs_list@ == pre.pid_idx_current_obs_list@,
            post.pid_idx_current_action_list@ == pre.pid_idx_current_action_list@,
            post.pid_idx_current_aald_list@ == pre.pid_idx_current_aald_list@,
        ensures
            post.n_procs() == pre.n_procs(),
            forall|i: int| 0 <= i < post.n_procs() ==> #[trigger] post.slot(i) == pre.slot(i),
    {
        assert forall|i: int| 0 <= i < post.n_procs() implies #[trigger] post.slot(i) == pre.slot(
            i,
        ) by {
            assert(post.proc_ids@[i] == pre.proc_ids@[i]);
            assert(post.pid_idx_current_env_action_list@[i]
                == pre.pid_idx_current_env_action_list@[i]);
            assert(post.pid_idx_current_agent_id_list@[i]
                == pre.pid_idx_current_agent_id_list@[i]);
            assert(post.pid_idx_prev_timestep_id_list@[i]
                == pre.pid_idx_prev_timestep_id_list@[i]);
            assert(post.pid_idx_current_obs_list@[i] == pre.pid_idx_current_obs_list@[i]);
            assert(post.pid_idx_current_action_list@[i] == pre.pid_idx_current_action_list@[i]);
            assert(post.pid_idx_current_aald_list@[i] == pre.pid_idx_current_aald_list@[i]);
        }
    }

    /// Finds the dense index of a live slot by its proc id.
    pub fn find_pid_idx(&self, proc_id: &String) -> (r: Option<usize>)
        ensures
            match r {
                Some(i) => i < self.n_procs() && self.proc_ids@[i as int]@ == proc_id@,
                None => !self.has_pid(proc_id@),
            },
    {
        let mut i: usize = 0;
        while i < self.proc_ids.len()
            invariant
                i <= self.proc_ids@.len(),
                forall|j: int| 0 <= j < i ==> (#[trigger] self.proc_ids@[j])@ != proc_id@,
            decreases self.proc_ids@.len() - i,
        {
            if self.proc_ids[i] == *proc_id {
                return Some(i);
            }
            i = i + 1;
        }
        None
    }

    /// What one appended slot looks like: the decoded initial response
    /// becomes the slot's agent set and observations, with no action in
    /// flight and an all-`None` back-reference column.
    pub open spec fn slots_appended(
        pre: Self,
        post: Self,
        proc_id: Seq<char>,
        resp: EpisodeResponseView,
    ) -> bool {
        &&& post.n_procs() == pre.n_procs() + 1
        &&& (forall|j: int| 0 <= j < pre.n_procs() ==> #[trigger] post.slot(j) == pre.slot(j))
        &&& post.slot(pre.n_procs()) == (SlotView {
            proc_id: proc_id,
            env_action: None,
            agent_ids: resp.agent_ids,
            prev_timestep_ids: Seq::new(resp.agent_ids.len(), |i: int| None::<TimestepId>),
            obs: resp.obs,
            actions: Seq::<Seq<u8>>::empty(),
            aald: None,
        })
        &&& post.same_config(pre)
    }

    /// Appends one slot for an already-decoded initial response and hands
    /// back that worker's observation and state-info entries.
    fn push_slot_parsed(&mut self, proc_id: String, resp: EpisodeResponse) -> (r: (
        ObsData,
        StateInfo,
    ))
        requires
            old(self).wf_slots(),
            !old(self).has_pid(proc_id@),
            resp@.agent_ids.len() == resp@.obs.len(),
        ensures
            final(self).wf_slots(),
            Self::slots_appended(*old(self), *final(self), proc_id@, resp@),
            final(self).min_process_steps_per_inference == old(
                self,
            ).min_process_steps_per_inference,
            final(self).pending_obs_view() == old(self).pending_obs_view(),
            final(self).pending_state_info_view() == old(self).pending_state_info_view(),
            r.0@ == (ObsDataView { agent_ids: resp@.agent_ids, obs: resp@.obs }),
            r.1@ == (StateInfoView { state: resp@.state, terminated: None, truncated: None }),
    {
        let ghost pre = *self;
        let n_agents = resp.agent_id_list.len();
        let ids_copy: Vec<AgentId> = slice_to_vec(resp.agent_id_list.as_slice());
        let obs_copy: Vec<Payload> = clone_payload_list(&resp.obs_list);
        let mut prev: Vec<Option<TimestepId>> = Vec::new();
        let mut i: usize = 0;
        while i < n_agents
            invariant
                i <= n_agents,
                prev@.len() == i,
                forall|j: int| 0 <= j < i ==> (#[trigger] prev@[j]) is None,
            decreases n_agents - i,
        {
            prev.push(None);
            i = i + 1;
        }
        self.proc_ids.push(proc_id);
        self.pid_idx_current_env_action_list.push(None);
        self.pid_idx_current_agent_id_list.push(Some(ids_copy));
        self.pid_idx_prev_timestep_id_list.push(prev);
        self.pid_idx_current_obs_list.push(obs_copy);
        self.pid_idx_current_action_list.push(Vec::new());
        self.pid_idx_current_aald_list.push(None);
        let od = ObsData { agent_id_list: resp.agent_id_list, obs_list: resp.obs_list };
        let si = StateInfo {
            state_option: resp.state_option,
            terminated_kv_list: None,
            truncated_kv_list: None,
        };
        proof {
            let n = pre.n_procs();
            assert forall|j: int| 0 <= j < n implies #[trigger] self.slot(j) == pre.slot(j) by {
                assert(self.proc_ids@[j] == pre.proc_ids@[j]);
                assert(self.pid_idx_current_env_action_list@[j]
                    == pre.pid_idx_current_env_action_list@[j]);
                assert(self.pid_idx_current_agent_id_list@[j]
                    == pre.pid_idx_current_agent_id_list@[j]);
                assert(self.pid_idx_prev_timestep_id_list@[j]
                    == pre.pid_idx_prev_timestep_id_list@[j]);
                assert(self.pid_idx_current_obs_list@[j] == pre.pid_idx_current_obs_list@[j]);
                assert(self.pid_idx_current_action_list@[j]
                    == pre.pid_idx_current_action_list@[j]);
                assert(self.pid_idx_current_aald_list@[j] == pre.pid_idx_current_aald_list@[j]);
            }
            assert(prev@ =~= Seq::new(resp@.agent_ids.len(), |i: int| None::<TimestepId>));
            assert(self.slot(n).obs =~~= resp@.obs);
            assert(self.slot(n).actions =~~= Seq::<Seq<u8>>::empty());
            assert(self.slot(n) =~~= (SlotView {
                proc_id: proc_id@,
                env_action: None,
                agent_ids: resp@.agent_ids,
                prev_timestep_ids: Seq::new(resp@.agent_ids.len(), |i: int| None::<TimestepId>),
                obs: resp@.obs,
                actions: Seq::<Seq<u8>>::empty(),
                aald: None,
            }));
            assert forall|i2: int, j2: int| 0 <= i2 < j2 < self.n_procs() implies (
            #[trigger] self.proc_ids@[i2])@ != (#[trigger] self.proc_ids@[j2])@ by {
                if j2 < n {
                    assert(pre.proc_ids@[i2]@ != pre.proc_ids@[j2]@);
                } else {
                    assert(self.proc_ids@[j2]@ == proc_id@);
                    assert(!pre.has_pid(proc_id@));
                    assert(pre.proc_ids@[i2]@ != proc_id@);
                }
            }
            assert(self.pending_obs_view() =~= pre.pending_obs_view());
            assert(self.pending_state_info_view() =~= pre.pending_state_info_view());
            assert(od@ =~~= (ObsDataView { agent_ids: resp@.agent_ids, obs: resp@.obs }));
            assert(si@ =~~= (StateInfoView {
                state: resp@.state,
                terminated: None,
                truncated: None,
            }));
        }
        (od, si)
    }

    /// Materializes a new slot from a worker's initial message and queues
    /// its observation and state-info entries for the next collection.
    /// Fails with `ProtocolState` on a proc id that is already live, and
    /// with `CodecFailed` when the initial message does not decode; either
    /// way the coordinator is unchanged.
    pub fn add_process(&mut self, proc_id: String, initial_buf: &[u8]) -> (r: Result<
        (),
        EpiError,
    >)
        requires
            old(self).wf(),
        ensures
            final(self).wf(),
            (r is Ok) == (!old(self).has_pid(proc_id@) && spec_dec_episode_response(
                initial_buf@,
                0,
                old(self).send_state_to_agent_controllers,
                false,
            ) is Some),
            r matches Err(e) ==> *final(self) == *old(self) && e == (
            if old(self).has_pid(proc_id@) {
                EpiError::ProtocolState
            } else {
                EpiError::CodecFailed
            }),
            r is Ok ==> exists|resp: EpisodeResponseView, end: int|
                {
                    &&& #[trigger] spec_dec_episode_response(
                        initial_buf@,
                        0,
                        old(self).send_state_to_agent_controllers,
                        false,
                    ) == Some((resp, end))
                    &&& Self::slots_appended(*old(self), *final(self), proc_id@, resp)
                    &&& final(self).pending_obs_view() == old(self).pending_obs_view().push(
                        (proc_id@, ObsDataView { agent_ids: resp.agent_ids, obs: resp.obs }),
                    )
                    &&& final(self).pending_state_info_view() == old(
                        self,
                    ).pending_state_info_view().push(
                        (
                            proc_id@,
                            StateInfoView { state: resp.state, terminated: None, truncated: None },
                        ),
                    )
                    &&& final(self).min_process_steps_per_inference == spec_clamp_min(
                        old(self).min_process_steps_per_inference as int,
                        old(self).n_procs() + 1,
                    )
                },
    {
        match self.find_pid_idx(&proc_id) {
            Some(_) => {
                return Err(EpiError::ProtocolState);
            },
            None => {},
        }
        let (resp, _) = match parse_episode_response(
            initial_buf,
            self.send_state_to_agent_controllers,
            false,
        ) {
            Ok(v) => v,
            Err(e) => {
                return Err(e);
            },
        };
        proof {
            crate::responses::lemma_dec_episode_response_len(
                initial_buf@,
                0,
                self.send_state_to_agent_controllers,
                false,
            );
        }
        let ghost pre = *self;
        let pid_for_obs = proc_id.clone();
        let pid_for_si = proc_id.clone();
        let (od, si) = self.push_slot_parsed(proc_id, resp);
        let ghost mid = *self;
        let ghost pidv = pid_for_obs@;
        let ghost odv = od@;
        let ghost siv = si@;
        self.added_process_obs_data_kv_list.push((pid_for_obs, od));
        self.added_process_state_info_kv_list.push((pid_for_si, si));
        let n = self.proc_ids.len();
        if self.min_process_steps_per_inference > n {
            self.min_process_steps_per_inference = n;
        }
        if self.min_process_steps_per_inference < 1 {
            self.min_process_steps_per_inference = 1;
        }
        proof {
            Self::lemma_same_slot_fields(mid, *self);
            assert(self.n_procs() == mid.n_procs());
            assert forall|j: int| 0 <= j < pre.n_procs() implies #[trigger] self.slot(j)
                == pre.slot(j) by {
                assert(self.slot(j) == mid.slot(j));
            }
            assert(self.slot(pre.n_procs()) == mid.slot(pre.n_procs()));
            assert(self.pending_obs_view() =~= mid.pending_obs_view().push((pidv, odv)));
            assert(self.pending_state_info_view() =~= mid.pending_state_info_view().push(
                (pidv, siv),
            ));
            assert(self.wf());
        }
        Ok(())
    }

    /// Brings up the whole fleet at once: one slot per definition, the
    /// batches of initial observations and state information keyed by
    /// proc id, and the two space descriptions read from worker zero's
    /// shapes reply. The collection threshold is clamped into `[1, n]`.
    /// Any message that does not decode leaves the coordinator unchanged.
    pub fn init_processes(
        &mut self,
        proc_package_defs: &Vec<(String, Vec<u8>)>,
        shapes_buf: &[u8],
    ) -> (r: Result<(Vec<(String, ObsData)>, Vec<(String, StateInfo)>, Payload, Payload), EpiError>)
        requires
            old(self).wf(),
            old(self).n_procs() == 0,
            forall|k: int, l: int|
                0 <= k < l < proc_package_defs@.len() ==> (#[trigger] proc_package_defs@[k]).0@
                    != (#[trigger] proc_package_defs@[l]).0@,
        ensures
            final(self).wf(),
            (r is Ok) == (spec_dec_shapes_response(shapes_buf@, 0) is Some && forall|k: int|
                0 <= k < proc_package_defs@.len() ==> #[trigger] spec_dec_episode_response(
                    proc_package_defs@[k].1@,
                    0,
                    old(self).send_state_to_agent_controllers,
                    false,
                ) is Some),
            r matches Err(e) ==> *final(self) == *old(self) && e == EpiError::CodecFailed,
            r matches Ok(out) ==> {
                let n = proc_package_defs@.len() as int;
                &&& final(self).n_procs() == n
                &&& final(self).same_config(*old(self))
                &&& final(self).pending_obs_view() == old(self).pending_obs_view()
                &&& final(self).pending_state_info_view() == old(self).pending_state_info_view()
                &&& final(self).min_process_steps_per_inference == (if n >= 1 {
                    spec_clamp_min(old(self).min_process_steps_per_inference as int, n)
                } else {
                    old(self).min_process_steps_per_inference as int
                })
                &&& out.0@.len() == n
                &&& out.1@.len() == n
                &&& (forall|k: int|
                    0 <= k < n ==> {
                        let d = #[trigger] spec_dec_episode_response(
                            proc_package_defs@[k].1@,
                            0,
                            old(self).send_state_to_agent_controllers,
                            false,
                        );
                        let resp = d->Some_0.0;
                        &&& d is Some
                        &&& final(self).slot(k) == (SlotView {
                            proc_id: proc_package_defs@[k].0@,
                            env_action: None,
                            agent_ids: resp.agent_ids,
                            prev_timestep_ids: Seq::new(
                                resp.agent_ids.len(),
                                |i: int| None::<TimestepId>,
                            ),
                            obs: resp.obs,
                            actions: Seq::<Seq<u8>>::empty(),
                            aald: None,
                        })
                        &&& obs_kvs_view(out.0@)[k] == (
                            proc_package_defs@[k].0@,
                            ObsDataView { agent_ids: resp.agent_ids, obs: resp.obs },
                        )
                        &&& si_kvs_view(out.1@)[k] == (
                            proc_package_defs@[k].0@,
                            StateInfoView { state: resp.state, terminated: None, truncated: None },
                        )
                    })
                &&& spec_dec_shapes_response(shapes_buf@, 0) is Some
                &&& spec_dec_shapes_response(shapes_buf@, 0)->Some_0.0 == (out.2@, out.3@)
            },
    {
        let ghost ws = self.send_state_to_agent_controllers;
        let ghost defs = proc_package_defs@;
        let ((obs_space, action_space), shapes_end) = match parse_shapes_response(shapes_buf) {
            Ok(v) => v,
            Err(e) => {
                return Err(e);
            },
        };
        let n_defs = proc_package_defs.len();
        let mut resps: Vec<EpisodeResponse> = Vec::new();
        let ghost mut ends: Seq<int> = Seq::empty();
        let mut k: usize = 0;
        while k < n_defs
            invariant
                k <= n_defs,
                n_defs == defs.len(),
                defs == proc_package_defs@,
                ws == self.send_state_to_agent_controllers,
                *self == *old(self),
                old(self).wf(),
                resps@.len() == k,
                ends.len() == k,
                forall|j: int|
                    0 <= j < k ==> #[trigger] spec_dec_episode_response(
                        defs[j].1@,
                        0,
                        ws,
                        false,
                    ) == Some(((resps@[j])@, ends[j])),
            decreases n_defs - k,
        {
            match parse_episode_response(
                proc_package_defs[k].1.as_slice(),
                self.send_state_to_agent_controllers,
                false,
            ) {
                Ok((resp, parsed_end)) => {
                    let ghost respv = resp@;
                    let ghost prev_resps = resps@;
                    resps.push(resp);
                    proof {
                        ends = ends.push(parsed_end as int);
                        assert((resps@[k as int])@ == respv);
                        assert forall|j: int| 0 <= j < k + 1 implies
                            #[trigger] spec_dec_episode_response(defs[j].1@, 0, ws, false) == Some(
                                ((resps@[j])@, ends[j]),
                            ) by {
                            if j < k {
                                assert(resps@[j] == prev_resps[j]);
                            } else {
                                assert((resps@[j])@ == respv);
                                assert(ends[j] == parsed_end as int);
                            }
                        }
                    }
                },
                Err(e) => {
                    proof {
                        assert(*self == *old(self));
                        assert(self.wf_slots());
                        assert(self.wf());
                    }
                    return Err(e);
                },
            }
            k = k + 1;
        }
        let ghost rv = resps.deep_view();
        proof {
            assert(rv.len() == n_defs);
            assert forall|j: int| 0 <= j < n_defs implies
                #[trigger] spec_dec_episode_response(defs[j].1@, 0, ws, false) == Some(
                    (rv[j], ends[j]),
                ) by {
                assert((resps@[j])@ == rv[j]);
            }
            assert(resps.deep_view() =~= rv.skip(0));
        }
        let mut obs_kvs: Vec<(String, ObsData)> = Vec::new();
        let mut si_kvs: Vec<(String, StateInfo)> = Vec::new();
        let mut resps = resps;
        let mut k2: usize = 0;
        while k2 < n_defs
            invariant
                k2 <= n_defs,
                n_defs == defs.len(),
                defs == proc_package_defs@,
                ws == self.send_state_to_agent_controllers,
                forall|ka: int, la: int|
                    0 <= ka < la < defs.len() ==> (#[trigger] defs[ka]).0@ != (
                    #[trigger] defs[la]).0@,
                self.wf_slots(),
                self.n_procs() == k2,
                self.same_config(*old(self)),
                self.min_process_steps_per_inference == old(
                    self,
                ).min_process_steps_per_inference,
                self.pending_obs_view() == old(self).pending_obs_view(),
                self.pending_state_info_view() == old(self).pending_state_info_view(),
                rv.len() == n_defs,
                ends.len() == n_defs,
                resps@.len() == n_defs - k2,
                resps.deep_view() =~= rv.skip(k2 as int),
                forall|j: int|
                    0 <= j < n_defs ==> #[trigger] spec_dec_episode_response(
                        defs[j].1@,
                        0,
                        ws,
                        false,
                    ) == Some((rv[j], ends[j])),
                forall|j: int|
                    0 <= j < k2 ==> #[trigger] self.slot(j) == (SlotView {
                        proc_id: defs[j].0@,
                        env_action: None,
                        agent_ids: rv[j].agent_ids,
                        prev_timestep_ids: Seq::new(
                            rv[j].agent_ids.len(),
                            |i: int| None::<TimestepId>,
                        ),
                        obs: rv[j].obs,
                        actions: Seq::<Seq<u8>>::empty(),
                        aald: None,
                    }),
                obs_kvs@.len() == k2,
                si_kvs@.len() == k2,
                forall|j: int|
                    0 <= j < k2 ==> #[trigger] obs_kvs_view(obs_kvs@)[j] == (
                        defs[j].0@,
                        ObsDataView { agent_ids: rv[j].agent_ids, obs: rv[j].obs },
                    ),
                forall|j: int|
                    0 <= j < k2 ==> #[trigger] si_kvs_view(si_kvs@)[j] == (
                        defs[j].0@,
                        StateInfoView { state: rv[j].state, terminated: None, truncated: None },
                    ),
            decreases n_defs - k2,
        {
            let ghost pre_loop = *self;
            let ghost prev_dv = resps.deep_view();
            let ghost prev_rs = resps@;
            let resp = resps.remove(0);
            proof {
                assert(prev_dv == rv.skip(k2 as int));
                assert(resps.deep_view().len() == resps@.len());
                assert forall|j: int| 0 <= j < resps@.len() implies #[trigger] resps.deep_view()[j]
                    == rv.skip(k2 + 1)[j] by {
                    assert(resps@[j] == prev_rs[j + 1]);
                    assert(prev_dv[j + 1] == rv.skip(k2 as int)[j + 1]);
                    assert(rv.skip(k2 as int)[j + 1] == rv[k2 + 1 + j]);
                    assert(rv.skip(k2 + 1)[j] == rv[k2 + 1 + j]);
                }
                assert(resps.deep_view() =~= rv.skip(k2 + 1));
                assert(resp@ == prev_dv[0]);
                assert(resp@ == rv[k2 as int]);
                crate::responses::lemma_dec_episode_response_len(defs[k2 as int].1@, 0, ws, false);
                assert(resp@.agent_ids.len() == resp@.obs.len());
                assert forall|j: int| 0 <= j < k2 implies (#[trigger] self.proc_ids@[j])@ != defs[
                    k2 as int
                ].0@ by {
                    assert(self.slot(j).proc_id == defs[j].0@);
                }
                assert(!self.has_pid(defs[k2 as int].0@));
            }
            let pid = proc_package_defs[k2].0.clone();
            let pid_for_obs = proc_package_defs[k2].0.clone();
            let pid_for_si = proc_package_defs[k2].0.clone();
            let ghost pidv = pid_for_obs@;
            let (od, sinfo) = self.push_slot_parsed(pid, resp);
            let ghost odv = od@;
            let ghost sinfov = sinfo@;
            let ghost prev_obs_kvs = obs_kvs@;
            let ghost prev_si_kvs = si_kvs@;
            obs_kvs.push((pid_for_obs, od));
            si_kvs.push((pid_for_si, sinfo));
            k2 = k2 + 1;
            proof {
                assert forall|j: int| 0 <= j < k2 implies #[trigger] self.slot(j) == (SlotView {
                    proc_id: defs[j].0@,
                    env_action: None,
                    agent_ids: rv[j].agent_ids,
                    prev_timestep_ids: Seq::new(
                        rv[j].agent_ids.len(),
                        |i: int| None::<TimestepId>,
                    ),
                    obs: rv[j].obs,
                    actions: Seq::<Seq<u8>>::empty(),
                    aald: None,
                }) by {
                    if j < k2 - 1 {
                        assert(self.slot(j) == pre_loop.slot(j));
                    } else {
                        assert(self.slot(j) == (SlotView {
                            proc_id: defs[j].0@,
                            env_action: None,
                            agent_ids: rv[j].agent_ids,
                            prev_timestep_ids: Seq::new(
                                rv[j].agent_ids.len(),
                                |i: int| None::<TimestepId>,
                            ),
                            obs: rv[j].obs,
                            actions: Seq::<Seq<u8>>::empty(),
                            aald: None,
                        }));
                    }
                }
                assert forall|j: int| 0 <= j < k2 implies #[trigger] obs_kvs_view(obs_kvs@)[j] == (
                    defs[j].0@,
                    ObsDataView { agent_ids: rv[j].agent_ids, obs: rv[j].obs },
                ) by {
                    if j < k2 - 1 {
                        assert(obs_kvs@[j] == prev_obs_kvs[j]);
                        assert(obs_kvs_view(prev_obs_kvs)[j] == (
                            defs[j].0@,
                            ObsDataView { agent_ids: rv[j].agent_ids, obs: rv[j].obs },
                        ));
                    } else {
                        assert((obs_kvs@[j].0)@ == pidv);
                        assert((obs_kvs@[j].1)@ == odv);
                    }
                }
                assert forall|j: int| 0 <= j < k2 implies #[trigger] si_kvs_view(si_kvs@)[j] == (
                    defs[j].0@,
                    StateInfoView { state: rv[j].state, terminated: None, truncated: None },
                ) by {
                    if j < k2 - 1 {
                        assert(si_kvs@[j] == prev_si_kvs[j]);
                        assert(si_kvs_view(prev_si_kvs)[j] == (
                            defs[j].0@,
                            StateInfoView { state: rv[j].state, terminated: None, truncated: None },
                        ));
                    } else {
                        assert((si_kvs@[j].0)@ == pidv);
                        assert((si_kvs@[j].1)@ == sinfov);
                    }
                }
            }
        }
        let ghost mid = *self;
        let n = self.proc_ids.len();
        if n >= 1 {
            if self.min_process_steps_per_inference > n {
                self.min_process_steps_per_inference = n;
            }
            if self.min_process_steps_per_inference < 1 {
                self.min_process_steps_per_inference = 1;
            }
        }
        proof {
            Self::lemma_same_slot_fields(mid, *self);
            assert(self.wf());
            assert forall|k3: int| 0 <= k3 < n_defs implies {
                let d = #[trigger] spec_dec_episode_response(defs[k3].1@, 0, ws, false);
                let resp = d->Some_0.0;
                &&& d is Some
                &&& self.slot(k3) == (SlotView {
                    proc_id: defs[k3].0@,
                    env_action: None,
                    agent_ids: resp.agent_ids,
                    prev_timestep_ids: Seq::new(resp.agent_ids.len(), |i: int| None::<TimestepId>),
                    obs: resp.obs,
                    actions: Seq::<Seq<u8>>::empty(),
                    aald: None,
                })
                &&& obs_kvs_view(obs_kvs@)[k3] == (
                    defs[k3].0@,
                    ObsDataView { agent_ids: resp.agent_ids, obs: resp.obs },
                )
                &&& si_kvs_view(si_kvs@)[k3] == (
                    defs[k3].0@,
                    StateInfoView { state: resp.state, terminated: None, truncated: None },
                )
            } by {
                assert(self.slot(k3) == mid.slot(k3));
                assert(spec_dec_episode_response(defs[k3].1@, 0, ws, false) == Some(
                    (rv[k3], ends[k3]),
                ));
                assert(spec_dec_episode_response(defs[k3].1@, 0, ws, false)->Some_0.0 == rv[k3]);
            }
        }
        proof {
            assert(spec_dec_shapes_response(shapes_buf@, 0) == Some(
                ((obs_space@, action_space@), shapes_end as int),
            ));
        }
        Ok((obs_kvs, si_kvs, obs_space, action_space))
    }
}

/// Duplicates an optional payload.
fn clone_opt_payload(p: &Option<Payload>) -> (r: Option<Payload>)
    ensures
        r.deep_view() == p.deep_view(),
{
    match p {
        Some(q) => {
            let c = clone_payload(q);
            proof {
                assert(Some(c).deep_view() =~~= p.deep_view());
            }
            Some(c)
        },
        None => None,
    }
}

/// Duplicates an optional agent-flag map.
fn clone_opt_kv_bool_list(l: &Option<Vec<(AgentId, bool)>>) -> (r: Option<Vec<(AgentId, bool)>>)
    ensures
        r.deep_view() == l.deep_view(),
{
    match l {
        Some(v) => {
            let c = slice_to_vec(v.as_slice());
            proof {
                assert(Some(c).deep_view() =~~= l.deep_view());
            }
            Some(c)
        },
        None => None,
    }
}

/// Duplicates an observation entry.
fn clone_obs_data(od: &ObsData) -> (r: ObsData)
    ensures
        r@ == od@,
{
    let r = ObsData {
        agent_id_list: slice_to_vec(od.agent_id_list.as_slice()),
        obs_list: clone_payload_list(&od.obs_list),
    };
    proof {
        assert(r@ =~~= od@);
    }
    r
}

/// Duplicates a state-information entry.
fn clone_state_info(si: &StateInfo) -> (r: StateInfo)
    ensures
        r@ == si@,
{
    let r = StateInfo {
        state_option: clone_opt_payload(&si.state_option),
        terminated_kv_list: clone_opt_kv_bool_list(&si.terminated_kv_list),
        truncated_kv_list: clone_opt_kv_bool_list(&si.truncated_kv_list),
    };
    proof {
        assert(r@ =~~= si@);
    }
    r
}

impl EnvProcessInterface {
    /// Tears down the most recently added slot: its shadow state is
    /// popped, its queued state-information entry (if any) is discarded,
    /// and the threshold is re-clamped. The caller writes the returned
    /// stop frame into that worker's shared memory and signals it.
    pub fn delete_process(&mut self) -> (r: (String, Vec<u8>))
        requires
            old(self).wf(),
            old(self).n_procs() >= 1,
        ensures
            final(self).wf(),
            final(self).same_config(*old(self)),
            final(self).n_procs() == old(self).n_procs() - 1,
            r.0@ == old(self).slot(old(self).n_procs() - 1).proc_id,
            r.1@ == seq![spec_header_byte(Header::Stop)],
            forall|j: int|
                0 <= j < final(self).n_procs() ==> #[trigger] final(self).slot(j) == old(
                    self,
                ).slot(j),
            final(self).pending_obs_view() == old(self).pending_obs_view().filter(
                |kv: (Seq<char>, ObsDataView)|
                    kv.0 != old(self).slot(old(self).n_procs() - 1).proc_id,
            ),
            final(self).pending_state_info_view() == old(self).pending_state_info_view().filter(
                |kv: (Seq<char>, StateInfoView)|
                    kv.0 != old(self).slot(old(self).n_procs() - 1).proc_id,
            ),
            final(self).min_process_steps_per_inference == (
            if old(self).n_procs() - 1 >= 1 {
                spec_clamp_min(
                    old(self).min_process_steps_per_inference as int,
                    old(self).n_procs() - 1,
                )
            } else {
                old(self).min_process_steps_per_inference as int
            }),
    {
        let ghost pre = *self;
        let popped = match self.proc_ids.pop() {
            Some(p) => p,
            None => {
                proof {
                    assert(false);
                }
                String::new()
            },
        };
        self.pid_idx_current_env_action_list.pop();
        self.pid_idx_current_agent_id_list.pop();
        self.pid_idx_prev_timestep_id_list.pop();
        self.pid_idx_current_obs_list.pop();
        self.pid_idx_current_action_list.pop();
        self.pid_idx_current_aald_list.pop();
        let ghost pv = popped@;
        let ghost fv = si_kvs_view(self.added_process_state_info_kv_list@);
        let ghost pred = |kv: (Seq<char>, StateInfoView)| kv.0 != pv;
        let mut kept: Vec<(String, StateInfo)> = Vec::new();
        let n_pend = self.added_process_state_info_kv_list.len();
        let mut i: usize = 0;
        proof {
            reveal(Seq::filter);
            assert(fv.take(0) =~= Seq::<(Seq<char>, StateInfoView)>::empty());
            assert(si_kvs_view(kept@) =~= fv.take(0).filter(pred));
            assert(fv =~= pre.pending_state_info_view());
        }
        while i < n_pend
            invariant
                i <= n_pend,
                n_pend == self.added_process_state_info_kv_list@.len(),
                fv == si_kvs_view(self.added_process_state_info_kv_list@),
                pv == popped@,
                pred == (|kv: (Seq<char>, StateInfoView)| kv.0 != pv),
                fv.len() == n_pend,
                forall|j: int|
                    0 <= j < fv.len() ==> (#[trigger] fv[j]).1.terminated is None
                        && fv[j].1.truncated is None,
                si_kvs_view(kept@) == fv.take(i as int).filter(pred),
                forall|j: int|
                    0 <= j < si_kvs_view(kept@).len() ==> (#[trigger] si_kvs_view(
                        kept@,
                    )[j]).1.terminated is None && si_kvs_view(kept@)[j].1.truncated is None,
            decreases n_pend - i,
        {
            let ghost prev_kept = kept@;
            let keep = !(self.added_process_state_info_kv_list[i].0 == popped);
            proof {
                assert(fv[i as int].0 == (self.added_process_state_info_kv_list@[i as int].0)@);
                assert(keep == !((self.added_process_state_info_kv_list@[i as int].0)@
                    == popped@));
                assert(keep == (fv[i as int].0 != pv));
                assert(keep == pred(fv[i as int]));
            }
            if keep {
                let pid_c = self.added_process_state_info_kv_list[i].0.clone();
                let si_c = clone_state_info(&self.added_process_state_info_kv_list[i].1);
                kept.push((pid_c, si_c));
            }
            i = i + 1;
            proof {
                reveal(Seq::filter);
                assert(fv.take(i as int).drop_last() =~= fv.take(i - 1));
                assert(fv.take(i as int).last() == fv[i - 1]);
                assert(fv[i - 1].0 == (self.added_process_state_info_kv_list@[i - 1].0)@);
                if keep {
                    assert(pred(fv[i - 1]));
                    assert(si_kvs_view(kept@) =~= si_kvs_view(prev_kept).push(fv[i - 1]));
                    assert(fv.take(i as int).filter(pred) == fv.take(i - 1).filter(pred).push(
                        fv[i - 1],
                    ));
                } else {
                    assert(!pred(fv[i - 1]));
                    assert(si_kvs_view(kept@) =~= si_kvs_view(prev_kept));
                    assert(fv.take(i as int).filter(pred) == fv.take(i - 1).filter(pred));
                }
            }
        }
        proof {
            assert(fv.take(n_pend as int) =~= fv);
        }
        self.added_process_state_info_kv_list = kept;
        let ghost ov = obs_kvs_view(self.added_process_obs_data_kv_list@);
        let ghost opred = |kv: (Seq<char>, ObsDataView)| kv.0 != pv;
        let mut okept: Vec<(String, ObsData)> = Vec::new();
        let n_opend = self.added_process_obs_data_kv_list.len();
        let mut oi: usize = 0;
        proof {
            reveal(Seq::filter);
            assert(ov.take(0) =~= Seq::<(Seq<char>, ObsDataView)>::empty());
            assert(obs_kvs_view(okept@) =~= ov.take(0).filter(opred));
        }
        while oi < n_opend
            invariant
                oi <= n_opend,
                n_opend == self.added_process_obs_data_kv_list@.len(),
                ov == obs_kvs_view(self.added_process_obs_data_kv_list@),
                pv == popped@,
                opred == (|kv: (Seq<char>, ObsDataView)| kv.0 != pv),
                ov.len() == n_opend,
                obs_kvs_view(okept@) == ov.take(oi as int).filter(opred),
            decreases n_opend - oi,
        {
            let ghost prev_kept = okept@;
            let keep = !(self.added_process_obs_data_kv_list[oi].0 == popped);
            proof {
                assert(ov[oi as int].0 == (self.added_process_obs_data_kv_list@[oi as int].0)@);
                assert(keep == !((self.added_process_obs_data_kv_list@[oi as int].0)@
                    == popped@));
                assert(keep == (ov[oi as int].0 != pv));
                assert(keep == opred(ov[oi as int]));
            }
            if keep {
                let pid_c = self.added_process_obs_data_kv_list[oi].0.clone();
                let od_c = clone_obs_data(&self.added_process_obs_data_kv_list[oi].1);
                okept.push((pid_c, od_c));
            }
            oi = oi + 1;
            proof {
                reveal(Seq::filter);
                assert(ov.take(oi as int).drop_last() =~= ov.take(oi - 1));
                assert(ov.take(oi as int).last() == ov[oi - 1]);
                assert(ov[oi - 1].0 == (self.added_process_obs_data_kv_list@[oi - 1].0)@);
                if keep {
                    assert(opred(ov[oi - 1]));
                    assert(obs_kvs_view(okept@) =~= obs_kvs_view(prev_kept).push(ov[oi - 1]));
                    assert(ov.take(oi as int).filter(opred) == ov.take(oi - 1).filter(opred).push(
                        ov[oi - 1],
                    ));
                } else {
                    assert(!opred(ov[oi - 1]));
                    assert(obs_kvs_view(okept@) =~= obs_kvs_view(prev_kept));
                    assert(ov.take(oi as int).filter(opred) == ov.take(oi - 1).filter(opred));
                }
            }
        }
        proof {
            assert(ov.take(n_opend as int) =~= ov);
        }
        self.added_process_obs_data_kv_list = okept;
        let n1 = self.proc_ids.len();
        if n1 >= 1 {
            if self.min_process_steps_per_inference > n1 {
                self.min_process_steps_per_inference = n1;
            }
            if self.min_process_steps_per_inference < 1 {
                self.min_process_steps_per_inference = 1;
            }
        }
        let frame = stop_frame();
        proof {
            assert forall|j: int| 0 <= j < self.n_procs() implies #[trigger] self.slot(j)
                == pre.slot(j) by {
                assert(self.proc_ids@[j] == pre.proc_ids@[j]);
                assert(self.pid_idx_current_env_action_list@[j]
                    == pre.pid_idx_current_env_action_list@[j]);
                assert(self.pid_idx_current_agent_id_list@[j]
                    == pre.pid_idx_current_agent_id_list@[j]);
                assert(self.pid_idx_prev_timestep_id_list@[j]
                    == pre.pid_idx_prev_timestep_id_list@[j]);
                assert(self.pid_idx_current_obs_list@[j] == pre.pid_idx_current_obs_list@[j]);
                assert(self.pid_idx_current_action_list@[j]
                    == pre.pid_idx_current_action_list@[j]);
                assert(self.pid_idx_current_aald_list@[j] == pre.pid_idx_current_aald_list@[j]);
            }
            assert forall|j: int| 0 <= j < self.n_procs() implies {
                let s = #[trigger] self.slot(j);
                &&& s.prev_timestep_ids.len() == s.agent_ids.len()
                &&& s.obs.len() == s.agent_ids.len()
                &&& (s.env_action matches Some(EnvActionView::STEP { .. }) ==> s.actions.len()
                    == s.agent_ids.len())
            } by {
                assert(self.slot(j) == pre.slot(j));
                assert(pre.slot(j).prev_timestep_ids.len() == pre.slot(j).agent_ids.len());
            }
            assert(pre.slot(pre.n_procs() - 1).proc_id == pv);
        }
        (popped, frame)
    }
}

/// Duplicates a command.
fn clone_env_action(a: &EnvAction) -> (r: EnvAction)
    ensures
        r@ == a@,
{
    match a {
        EnvAction::STEP { action_list, action_associated_learning_data } => {
            let r = EnvAction::STEP {
                action_list: clone_payload_list(action_list),
                action_associated_learning_data: clone_payload(action_associated_learning_data),
            };
            proof {
                assert(r@ =~~= a@);
            }
            r
        },
        EnvAction::RESET {} => EnvAction::RESET {},
        EnvAction::SET_STATE { desired_state, prev_timestep_id_dict_option } => {
            let d: Option<Vec<(AgentId, Option<TimestepId>)>> = match prev_timestep_id_dict_option {
                Some(v) => Some(slice_to_vec(v.as_slice())),
                None => None,
            };
            let r = EnvAction::SET_STATE {
                desired_state: clone_payload(desired_state),
                prev_timestep_id_dict_option: d,
            };
            proof {
                assert(r@ =~~= a@);
            }
            r
        },
    }
}

/// How a dispatch changes one slot's shadow state: the command becomes the
/// action in flight; a STEP also captures its action list and learning
/// data, anything else clears the learning data.
pub open spec fn action_applied(pre: SlotView, post: SlotView, a: EnvActionView) -> bool {
    &&& post.proc_id == pre.proc_id
    &&& post.env_action == Some(a)
    &&& post.agent_ids == pre.agent_ids
    &&& post.prev_timestep_ids == pre.prev_timestep_ids
    &&& post.obs == pre.obs
    &&& match a {
        EnvActionView::STEP { action_list, action_associated_learning_data } => post.actions
            == action_list && post.aald == Some(action_associated_learning_data),
        _ => post.actions == pre.actions && post.aald == None::<Seq<u8>>,
    }
}

impl EnvProcessInterface {
    /// Dispatches one command per addressed worker: the returned frames
    /// (slot index, header byte followed by the encoded command) are
    /// written by the caller into each slot's shared memory before
    /// signalling its event. Shadow state records each command as the
    /// action in flight. An unknown proc id fails the whole call with
    /// `ProtocolState` and changes nothing.
    pub fn send_env_actions(&mut self, env_actions: &Vec<(String, EnvAction)>) -> (r: Result<
        Vec<(usize, Vec<u8>)>,
        EpiError,
    >)
        requires
            old(self).wf(),
            forall|k: int, l: int|
                0 <= k < l < env_actions@.len() ==> (#[trigger] env_actions@[k]).0@ != (
                #[trigger] env_actions@[l]).0@,
            forall|k: int, i: int|
                0 <= k < env_actions@.len() && 0 <= i < old(self).n_procs() && (#[trigger] old(
                    self,
                ).slot(i)).proc_id == (#[trigger] env_actions@[k]).0@ ==> ((env_actions@[k].1)@
                    matches EnvActionView::STEP { action_list, .. } ==> action_list.len() == old(
                    self,
                ).slot(i).agent_ids.len()),
        ensures
            final(self).wf(),
            final(self).same_config(*old(self)),
            final(self).n_procs() == old(self).n_procs(),
            final(self).min_process_steps_per_inference == old(
                self,
            ).min_process_steps_per_inference,
            final(self).pending_obs_view() == old(self).pending_obs_view(),
            final(self).pending_state_info_view() == old(self).pending_state_info_view(),
            (r is Ok) == (forall|k: int|
                0 <= k < env_actions@.len() ==> old(self).has_pid(
                    (#[trigger] env_actions@[k]).0@,
                )),
            r matches Err(e) ==> *final(self) == *old(self) && e == EpiError::ProtocolState,
            r matches Ok(frames) ==> {
                &&& frames@.len() == env_actions@.len()
                &&& (forall|k: int|
                    0 <= k < env_actions@.len() ==> {
                        let p = (#[trigger] frames@[k]).0 as int;
                        &&& 0 <= p < old(self).n_procs()
                        &&& old(self).slot(p).proc_id == env_actions@[k].0@
                        &&& (frames@[k].1)@ == seq![spec_header_byte(Header::EnvAction)]
                            + spec_enc_env_action((env_actions@[k].1)@)
                        &&& action_applied(
                            old(self).slot(p),
                            final(self).slot(p),
                            (env_actions@[k].1)@,
                        )
                    })
                &&& (forall|i: int|
                    0 <= i < old(self).n_procs() && !(exists|k: int|
                        0 <= k < env_actions@.len() && (#[trigger] env_actions@[k]).0@ == old(
                            self,
                        ).slot(i).proc_id) ==> #[trigger] final(self).slot(i) == old(self).slot(
                        i,
                    ))
            },
    {
        let n_actions = env_actions.len();
        let mut idxs: Vec<usize> = Vec::new();
        let mut k: usize = 0;
        while k < n_actions
            invariant
                k <= n_actions,
                n_actions == env_actions@.len(),
                *self == *old(self),
                old(self).wf(),
                idxs@.len() == k,
                forall|j: int|
                    0 <= j < k ==> 0 <= #[trigger] idxs@[j] < old(self).n_procs() && old(
                        self,
                    ).slot(idxs@[j] as int).proc_id == (env_actions@[j].0)@,
            decreases n_actions - k,
        {
            match self.find_pid_idx(&env_actions[k].0) {
                Some(i) => {
                    idxs.push(i);
                    proof {
                        assert(old(self).slot(i as int).proc_id == (env_actions@[k as int].0)@);
                    }
                },
                None => {
                    proof {
                        assert(!old(self).has_pid((env_actions@[k as int].0)@));
                    }
                    return Err(EpiError::ProtocolState);
                },
            }
            k = k + 1;
        }
        proof {
            assert forall|k3: int| 0 <= k3 < env_actions@.len() implies old(self).has_pid(
                (#[trigger] env_actions@[k3]).0@,
            ) by {
                assert(old(self).slot(idxs@[k3] as int).proc_id == (env_actions@[k3].0)@);
                assert(old(self).proc_ids@[idxs@[k3] as int]@ == (env_actions@[k3].0)@);
            }
        }
        let mut frames: Vec<(usize, Vec<u8>)> = Vec::new();
        let mut k2: usize = 0;
        while k2 < n_actions
            invariant
                k2 <= n_actions,
                n_actions == env_actions@.len(),
                old(self).wf(),
                self.wf(),
                self.same_config(*old(self)),
                self.n_procs() == old(self).n_procs(),
                self.min_process_steps_per_inference == old(self).min_process_steps_per_inference,
                self.pending_obs_view() == old(self).pending_obs_view(),
                self.pending_state_info_view() == old(self).pending_state_info_view(),
                self.proc_ids@ == old(self).proc_ids@,
                idxs@.len() == n_actions,
                forall|j: int|
                    0 <= j < n_actions ==> 0 <= #[trigger] idxs@[j] < old(self).n_procs() && old(
                        self,
                    ).slot(idxs@[j] as int).proc_id == (env_actions@[j].0)@,
                forall|ka: int, la: int|
                    0 <= ka < la < env_actions@.len() ==> (#[trigger] env_actions@[ka]).0@ != (
                    #[trigger] env_actions@[la]).0@,
                forall|ka: int, ia: int|
                    0 <= ka < env_actions@.len() && 0 <= ia < old(self).n_procs() && (
                    #[trigger] old(self).slot(ia)).proc_id == (#[trigger] env_actions@[ka]).0@
                        ==> ((env_actions@[ka].1)@ matches EnvActionView::STEP {
                        action_list,
                        ..
                    } ==> action_list.len() == old(self).slot(ia).agent_ids.len()),
                frames@.len() == k2,
                forall|j: int|
                    0 <= j < k2 ==> {
                        let p = (#[trigger] frames@[j]).0 as int;
                        &&& frames@[j].0 == idxs@[j]
                        &&& (frames@[j].1)@ == seq![spec_header_byte(Header::EnvAction)]
                            + spec_enc_env_action((env_actions@[j].1)@)
                        &&& action_applied(
                            old(self).slot(p),
                            self.slot(p),
                            (env_actions@[j].1)@,
                        )
                    },
                forall|i: int|
                    0 <= i < old(self).n_procs() && !(exists|j: int|
                        0 <= j < k2 && #[trigger] idxs@[j] == i) ==> #[trigger] self.slot(i)
                        == old(self).slot(i),
            decreases n_actions - k2,
        {
            let ghost pre_it = *self;
            let pid_idx = idxs[k2];
            let mut frame: Vec<u8> = Vec::new();
            append_header(&mut frame, Header::EnvAction);
            append_env_action_new(&mut frame, &env_actions[k2].1);
            proof {
                assert(frame@ =~= seq![spec_header_byte(Header::EnvAction)]
                    + spec_enc_env_action((env_actions@[k2 as int].1)@));
            }
            let stored = clone_env_action(&env_actions[k2].1);
            match &env_actions[k2].1 {
                EnvAction::STEP { action_list, action_associated_learning_data } => {
                    self.pid_idx_current_action_list[pid_idx] = clone_payload_list(action_list);
                    self.pid_idx_current_aald_list[pid_idx] = Some(
                        clone_payload(action_associated_learning_data),
                    );
                },
                _ => {
                    self.pid_idx_current_aald_list[pid_idx] = None;
                },
            }
            self.pid_idx_current_env_action_list[pid_idx] = Some(stored);
            frames.push((pid_idx, frame));
            k2 = k2 + 1;
            proof {
                let p = pid_idx as int;
                assert forall|i: int|
                    0 <= i < self.n_procs() && i != p implies #[trigger] self.slot(i)
                        == pre_it.slot(i) by {
                    assert(self.proc_ids@[i] == pre_it.proc_ids@[i]);
                    assert(self.pid_idx_current_env_action_list@[i]
                        == pre_it.pid_idx_current_env_action_list@[i]);
                    assert(self.pid_idx_current_agent_id_list@[i]
                        == pre_it.pid_idx_current_agent_id_list@[i]);
                    assert(self.pid_idx_prev_timestep_id_list@[i]
                        == pre_it.pid_idx_prev_timestep_id_list@[i]);
                    assert(self.pid_idx_current_obs_list@[i] == pre_it.pid_idx_current_obs_list@[i]);
                    assert(self.pid_idx_current_action_list@[i]
                        == pre_it.pid_idx_current_action_list@[i]);
                    assert(self.pid_idx_current_aald_list@[i]
                        == pre_it.pid_idx_current_aald_list@[i]);
                }
                assert(action_applied(
                    old(self).slot(p),
                    self.slot(p),
                    (env_actions@[k2 - 1].1)@,
                )) by {
                    assert(pre_it.slot(p) == old(self).slot(p));
                    assert(self.slot(p).agent_ids =~= pre_it.slot(p).agent_ids);
                    assert(self.slot(p).env_action == Some((env_actions@[k2 - 1].1)@));
                    match (env_actions@[k2 - 1].1)@ {
                        EnvActionView::STEP { action_list, action_associated_learning_data } => {
                            assert(self.slot(p).actions =~~= action_list);
                            assert(self.slot(p).aald == Some(action_associated_learning_data));
                        },
                        _ => {},
                    }
                }
                assert forall|j: int| 0 <= j < k2 implies {
                    let pj = (#[trigger] frames@[j]).0 as int;
                    &&& frames@[j].0 == idxs@[j]
                    &&& (frames@[j].1)@ == seq![spec_header_byte(Header::EnvAction)]
                        + spec_enc_env_action((env_actions@[j].1)@)
                    &&& action_applied(old(self).slot(pj), self.slot(pj), (env_actions@[j].1)@)
                } by {
                    if j < k2 - 1 {
                        let pj = idxs@[j] as int;
                        if pj != p {
                            assert(self.slot(pj) == pre_it.slot(pj));
                        } else {
                            assert(old(self).slot(pj).proc_id == (env_actions@[j].0)@);
                            assert(old(self).slot(p).proc_id == (env_actions@[k2 - 1].0)@);
                            assert((env_actions@[j].0)@ != (env_actions@[k2 - 1].0)@);
                            assert(false);
                        }
                    }
                }
                assert(self.wf()) by {
                    assert forall|i: int| 0 <= i < self.n_procs() implies {
                        let s = #[trigger] self.slot(i);
                        &&& s.prev_timestep_ids.len() == s.agent_ids.len()
                        &&& s.obs.len() == s.agent_ids.len()
                        &&& (s.env_action matches Some(EnvActionView::STEP { .. })
                            ==> s.actions.len() == s.agent_ids.len())
                    } by {
                        if i != p {
                            assert(self.slot(i) == pre_it.slot(i));
                            assert(pre_it.slot(i).prev_timestep_ids.len() == pre_it.slot(
                                i,
                            ).agent_ids.len());
                        } else {
                            assert(pre_it.slot(p).prev_timestep_ids.len() == pre_it.slot(
                                p,
                            ).agent_ids.len());
                            assert(old(self).slot(p).proc_id == (env_actions@[k2 - 1].0)@);
                        }
                    }
                }
                assert(self.pending_obs_view() =~= pre_it.pending_obs_view());
                assert(self.pending_state_info_view() =~= pre_it.pending_state_info_view());
            }
        }
        Ok(frames)
    }
}

/// First-match lookup in a previous-timestep map: an absent key and an
/// explicit `None` value both yield `None`.
pub open spec fn spec_dict_lookup(d: Seq<(AgentId, Option<TimestepId>)>, id: AgentId) -> Option<
    TimestepId,
>
    decreases d.len(),
{
    if d.len() == 0 {
        None
    } else if d[0].0 == id {
        d[0].1
    } else {
        spec_dict_lookup(d.drop_first(), id)
    }
}

fn dict_lookup(d: &Vec<(AgentId, Option<TimestepId>)>, id: AgentId) -> (r: Option<TimestepId>)
    ensures
        r == spec_dict_lookup(d@, id),
{
    let mut i: usize = 0;
    proof {
        assert(d@.skip(0) =~= d@);
    }
    while i < d.len()
        invariant
            i <= d@.len(),
            spec_dict_lookup(d@, id) == spec_dict_lookup(d@.skip(i as int), id),
        decreases d@.len() - i,
    {
        let (k, v) = d[i];
        proof {
            assert(d@.skip(i as int)[0] == d@[i as int]);
        }
        if k == id {
            return v;
        }
        proof {
            assert(d@.skip(i as int).drop_first() =~= d@.skip(i + 1));
        }
        i = i + 1;
    }
    proof {
        assert(d@.skip(i as int) =~= Seq::<(AgentId, Option<TimestepId>)>::empty());
    }
    None
}

/// Relies on fastrand::u128 for a fresh pseudo-random 128-bit timestep
/// identifier. Nothing is assumed of the value: every caller must be
/// correct for any identifier that comes back.
#[verifier::external_body]
fn random_timestep_id() -> TimestepId {
    fastrand::u128(..)
}

/// How collecting a STEP response changes one slot and what it emits:
/// one timestep per agent, chaining each back-reference to the previous
/// pass and seeding the next pass with the fresh identifiers; the dense
/// terminated and truncated maps run over the (possibly recalculated)
/// agent set.
pub open spec fn step_collect_rel(
    recalc: bool,
    pre: SlotView,
    post: SlotView,
    resp: StepResponseView,
    od: ObsDataView,
    td: TimestepDataView,
    si: StateInfoView,
) -> bool {
    let n = pre.agent_ids.len();
    let new_ids = if recalc {
        resp.agent_ids->Some_0
    } else {
        pre.agent_ids
    };
    &&& new_ids.len() == n
    &&& post.proc_id == pre.proc_id
    &&& post.env_action == pre.env_action
    &&& post.agent_ids == new_ids
    &&& post.obs == resp.obs
    &&& post.actions == pre.actions
    &&& post.aald == pre.aald
    &&& post.prev_timestep_ids.len() == n
    &&& od.agent_ids == new_ids
    &&& od.obs == resp.obs
    &&& td.timesteps.len() == n
    &&& (forall|i: int|
        0 <= i < n ==> {
            let t = #[trigger] td.timesteps[i];
            &&& t.proc_id == pre.proc_id
            &&& t.previous_timestep_id == pre.prev_timestep_ids[i]
            &&& t.agent_id == new_ids[i]
            &&& t.obs == pre.obs[i]
            &&& t.next_obs == resp.obs[i]
            &&& t.action == pre.actions[i]
            &&& t.reward == resp.rewards[i]
            &&& t.terminated == resp.terminateds[i]
            &&& t.truncated == resp.truncateds[i]
            &&& post.prev_timestep_ids[i] == Some(t.timestep_id)
        })
    &&& td.aald == pre.aald
    &&& td.metrics == resp.metrics
    &&& td.state == resp.state
    &&& si.state == resp.state
    &&& si.terminated == Some(Seq::new(n, |i: int| (new_ids[i], resp.terminateds[i])))
    &&& si.truncated == Some(Seq::new(n, |i: int| (new_ids[i], resp.truncateds[i])))
}

/// The back-references a new episode starts from: a SET_STATE with an
/// explicit map seeds each agent from that map; anything else clears the
/// chain.
pub open spec fn episode_prev_ids(a: EnvActionView, new_ids: Seq<AgentId>) -> Seq<
    Option<TimestepId>,
> {
    match a {
        EnvActionView::SET_STATE { prev_timestep_id_dict_option: Some(d), .. } => Seq::new(
            new_ids.len(),
            |i: int| spec_dict_lookup(d, new_ids[i]),
        ),
        _ => Seq::new(new_ids.len(), |i: int| None::<TimestepId>),
    }
}

/// How collecting a RESET or SET_STATE response changes one slot and what
/// it emits: a fresh agent set and observations, no timesteps, and no
/// terminated or truncated maps.
pub open spec fn episode_collect_rel(
    pre: SlotView,
    post: SlotView,
    resp: EpisodeResponseView,
    od: ObsDataView,
    td: TimestepDataView,
    si: StateInfoView,
) -> bool {
    &&& post.proc_id == pre.proc_id
    &&& post.env_action == pre.env_action
    &&& post.agent_ids == resp.agent_ids
    &&& post.obs == resp.obs
    &&& post.actions == pre.actions
    &&& post.aald == pre.aald
    &&& post.prev_timestep_ids == episode_prev_ids(pre.env_action->Some_0, resp.agent_ids)
    &&& od.agent_ids == resp.agent_ids
    &&& od.obs == resp.obs
    &&& td.timesteps.len() == 0
    &&& td.aald == pre.aald
    &&& td.metrics == resp.metrics
    &&& td.state == resp.state
    &&& si.state == resp.state
    &&& si.terminated is None
    &&& si.truncated is None
}

/// Whether the bytes in a slot's region decode under the layout selected
/// by the action in flight.
pub open spec fn response_decodes(
    recalc: bool,
    with_state: bool,
    with_metrics: bool,
    pre: SlotView,
    buf: Seq<u8>,
) -> bool {
    match pre.env_action {
        Some(EnvActionView::STEP { .. }) => spec_dec_step_response(
            buf,
            0,
            pre.agent_ids.len(),
            recalc,
            with_state,
            with_metrics,
        ) is Some,
        Some(_) => spec_dec_episode_response(buf, 0, with_state, with_metrics) is Some,
        None => false,
    }
}

/// The full per-slot relation of one collection: the response decodes
/// under the in-flight action's layout and the slot and emitted entries
/// stand in the matching relation.
pub open spec fn collect_rel(
    recalc: bool,
    with_state: bool,
    with_metrics: bool,
    pre: SlotView,
    post: SlotView,
    buf: Seq<u8>,
    od: ObsDataView,
    td: TimestepDataView,
    si: StateInfoView,
) -> bool {
    match pre.env_action {
        Some(a) => match a {
            EnvActionView::STEP { .. } => {
                let d = spec_dec_step_response(
                    buf,
                    0,
                    pre.agent_ids.len(),
                    recalc,
                    with_state,
                    with_metrics,
                );
                d is Some && step_collect_rel(recalc, pre, post, d->Some_0.0, od, td, si)
            },
            _ => {
                let d = spec_dec_episode_response(buf, 0, with_state, with_metrics);
                d is Some && episode_collect_rel(pre, post, d->Some_0.0, od, td, si)
            },
        },
        None => false,
    }
}

impl EnvProcessInterface {
    /// Collects one STEP response.
    #[verifier::rlimit(100)]
    #[verifier::spinoff_prover]
    fn collect_response_step(&mut self, pid_idx: usize, buf: &[u8]) -> (r: Result<
        (usize, (String, ObsData), (String, TimestepData), (String, StateInfo)),
        EpiError,
    >)
        requires
            old(self).wf(),
            pid_idx < old(self).n_procs(),
            old(self).slot(pid_idx as int).env_action matches Some(
                EnvActionView::STEP { .. },
            ),
        ensures
            final(self).wf(),
            final(self).same_config(*old(self)),
            final(self).n_procs() == old(self).n_procs(),
            final(self).min_process_steps_per_inference == old(
                self,
            ).min_process_steps_per_inference,
            final(self).pending_obs_view() == old(self).pending_obs_view(),
            final(self).pending_state_info_view() == old(self).pending_state_info_view(),
            forall|j: int|
                0 <= j < old(self).n_procs() && j != pid_idx ==> #[trigger] final(self).slot(j)
                    == old(self).slot(j),
            (r is Ok) == response_decodes(
                old(self).recalculate_agent_id_every_step,
                old(self).send_state_to_agent_controllers,
                old(self).should_collect_state_metrics,
                old(self).slot(pid_idx as int),
                buf@,
            ),
            r matches Err(e) ==> *final(self) == *old(self) && e == EpiError::CodecFailed,
            r matches Ok(out) ==> {
                &&& (out.1.0)@ == old(self).slot(pid_idx as int).proc_id
                &&& (out.2.0)@ == old(self).slot(pid_idx as int).proc_id
                &&& (out.3.0)@ == old(self).slot(pid_idx as int).proc_id
                &&& collect_rel(
                    old(self).recalculate_agent_id_every_step,
                    old(self).send_state_to_agent_controllers,
                    old(self).should_collect_state_metrics,
                    old(self).slot(pid_idx as int),
                    final(self).slot(pid_idx as int),
                    buf@,
                    (out.1.1)@,
                    (out.2.1)@,
                    (out.3.1)@,
                )
                &&& out.0 == (out.2.1)@.timesteps.len()
            },
    {
        let ghost p = pid_idx as int;
        let ghost pre = *old(self);
        let recalc = self.recalculate_agent_id_every_step;
        let ws = self.send_state_to_agent_controllers;
        let wm = self.should_collect_state_metrics;
        let n_agents = match &self.pid_idx_current_agent_id_list[pid_idx] {
            Some(v) => v.len(),
            None => {
                proof {
                    assert(false);
                }
                0
            },
        };
        proof {
            assert(n_agents == pre.slot(p).agent_ids.len());
            assert(pre.slot(p).actions.len() == n_agents);
            assert(pre.slot(p).prev_timestep_ids.len() == n_agents);
            assert(pre.slot(p).obs.len() == n_agents);
        }
        let (resp, _) = match parse_step_response(buf, n_agents, recalc, ws, wm) {
            Ok(v) => v,
            Err(_) => {
                return Err(EpiError::CodecFailed);
            },
        };
        let ghost respv = resp@;
        proof {
            crate::responses::lemma_dec_step_response_len(
                buf@,
                0,
                n_agents as nat,
                recalc,
                ws,
                wm,
            );
        }
        let new_ids: Vec<AgentId> = match resp.agent_id_list_option {
            Some(ids) => ids,
            None => match &self.pid_idx_current_agent_id_list[pid_idx] {
                Some(v) => slice_to_vec(v.as_slice()),
                None => {
                    proof {
                        assert(false);
                    }
                    Vec::new()
                },
            },
        };
        let ghost new_idsv = new_ids@;
        proof {
            assert(new_idsv == (if recalc {
                respv.agent_ids->Some_0
            } else {
                pre.slot(p).agent_ids
            }));
            assert(new_idsv.len() == n_agents);
        }
        let proc_id_0 = self.proc_ids[pid_idx].clone();
        let ghost pidv = proc_id_0@;
        proof {
            assert(pidv == pre.slot(p).proc_id);
        }
        let mut timestep_list: Vec<Timestep> = Vec::new();
        let mut prev_new: Vec<Option<TimestepId>> = Vec::new();
        let mut term_kvs: Vec<(AgentId, bool)> = Vec::new();
        let mut trunc_kvs: Vec<(AgentId, bool)> = Vec::new();
        let mut i: usize = 0;
        while i < n_agents
            invariant
                i <= n_agents,
                *self == pre,
                pre.wf(),
                pid_idx < pre.n_procs(),
                p == pid_idx as int,
                n_agents == pre.slot(p).agent_ids.len(),
                pre.slot(p).actions.len() == n_agents,
                pre.slot(p).prev_timestep_ids.len() == n_agents,
                pre.slot(p).obs.len() == n_agents,
                respv.obs.len() == n_agents,
                respv.rewards.len() == n_agents,
                respv.terminateds.len() == n_agents,
                respv.truncateds.len() == n_agents,
                resp.obs_list.deep_view() == respv.obs,
                resp.reward_list.deep_view() == respv.rewards,
                resp.terminated_list@ == respv.terminateds,
                resp.truncated_list@ == respv.truncateds,
                new_ids@ == new_idsv,
                new_idsv.len() == n_agents,
                pidv == pre.slot(p).proc_id,
                proc_id_0@ == pidv,
                timestep_list@.len() == i,
                prev_new@.len() == i,
                term_kvs@.len() == i,
                trunc_kvs@.len() == i,
                forall|j: int|
                    0 <= j < i ==> {
                        let t = #[trigger] timestep_list.deep_view()[j];
                        &&& t.proc_id == pidv
                        &&& t.previous_timestep_id == pre.slot(p).prev_timestep_ids[j]
                        &&& t.agent_id == new_idsv[j]
                        &&& t.obs == pre.slot(p).obs[j]
                        &&& t.next_obs == respv.obs[j]
                        &&& t.action == pre.slot(p).actions[j]
                        &&& t.reward == respv.rewards[j]
                        &&& t.terminated == respv.terminateds[j]
                        &&& t.truncated == respv.truncateds[j]
                        &&& prev_new@[j] == Some(t.timestep_id)
                        &&& term_kvs@[j] == (new_idsv[j], respv.terminateds[j])
                        &&& trunc_kvs@[j] == (new_idsv[j], respv.truncateds[j])
                    },
            decreases n_agents - i,
        {
            let tid = random_timestep_id();
            let ghost prev_tl = timestep_list.deep_view();
            let t = Timestep {
                proc_id: proc_id_0.clone(),
                timestep_id: tid,
                previous_timestep_id: self.pid_idx_prev_timestep_id_list[pid_idx][i],
                agent_id: new_ids[i],
                obs: clone_payload(&self.pid_idx_current_obs_list[pid_idx][i]),
                next_obs: clone_payload(&resp.obs_list[i]),
                action: clone_payload(&self.pid_idx_current_action_list[pid_idx][i]),
                reward: clone_payload(&resp.reward_list[i]),
                terminated: resp.terminated_list[i],
                truncated: resp.truncated_list[i],
            };
            proof {
                assert(self.pid_idx_prev_timestep_id_list@[p]@[i as int] == pre.slot(
                    p,
                ).prev_timestep_ids[i as int]);
                assert((self.pid_idx_current_obs_list@[p][i as int])@ == pre.slot(p).obs[i as int]);
                assert((self.pid_idx_current_action_list@[p][i as int])@ == pre.slot(
                    p,
                ).actions[i as int]);
                assert((resp.obs_list@[i as int])@ == respv.obs[i as int]);
                assert((resp.reward_list@[i as int])@ == respv.rewards[i as int]);
                assert(t@.previous_timestep_id == pre.slot(p).prev_timestep_ids[i as int]);
            }
            prev_new.push(Some(tid));
            term_kvs.push((new_ids[i], resp.terminated_list[i]));
            trunc_kvs.push((new_ids[i], resp.truncated_list[i]));
            let ghost tv = t@;
            timestep_list.push(t);
            i = i + 1;
            proof {
                assert(timestep_list.deep_view() =~~= prev_tl.push(tv));
            }
        }
        let ghost term_dv = term_kvs.deep_view();
        let ghost trunc_dv = trunc_kvs.deep_view();
        proof {
            let tset = Seq::new(
                pre.slot(p).agent_ids.len(),
                |j: int| (new_idsv[j], respv.terminateds[j]),
            );
            let cset = Seq::new(
                pre.slot(p).agent_ids.len(),
                |j: int| (new_idsv[j], respv.truncateds[j]),
            );
            assert forall|j: int| 0 <= j < n_agents implies term_dv[j] == (
                new_idsv[j],
                respv.terminateds[j],
            ) && trunc_dv[j] == (new_idsv[j], respv.truncateds[j]) by {
                let t = timestep_list.deep_view()[j];
                assert(term_kvs@[j] == (new_idsv[j], respv.terminateds[j]));
                assert(term_dv[j] == term_kvs@[j].deep_view());
                assert(term_kvs@[j].deep_view() == (term_kvs@[j].0, term_kvs@[j].1));
                assert(trunc_kvs@[j] == (new_idsv[j], respv.truncateds[j]));
                assert(trunc_dv[j] == trunc_kvs@[j].deep_view());
                assert(trunc_kvs@[j].deep_view() == (trunc_kvs@[j].0, trunc_kvs@[j].1));
            }
            assert(term_dv =~= tset);
            assert(trunc_dv =~= cset);
        }
        let ids_clone = slice_to_vec(new_ids.as_slice());
        let obs_clone = clone_payload_list(&resp.obs_list);
        let aald_out = clone_opt_payload(&self.pid_idx_current_aald_list[pid_idx]);
        self.pid_idx_current_agent_id_list[pid_idx] = Some(ids_clone);
        self.pid_idx_current_obs_list[pid_idx] = obs_clone;
        self.pid_idx_prev_timestep_id_list[pid_idx] = prev_new;
        let state_for_td = clone_opt_payload(&resp.state_option);
        let proc_id_1 = proc_id_0.clone();
        let proc_id_2 = proc_id_0.clone();
        let od = ObsData { agent_id_list: new_ids, obs_list: resp.obs_list };
        let td = TimestepData {
            timestep_list,
            aald_option: aald_out,
            metrics_option: resp.metrics_option,
            state_option: state_for_td,
        };
        let sinfo = StateInfo {
            state_option: resp.state_option,
            terminated_kv_list: Some(term_kvs),
            truncated_kv_list: Some(trunc_kvs),
        };
        proof {
            assert(sinfo@.terminated == Some(term_dv));
            assert(sinfo@.truncated == Some(trunc_dv));
        }
        let n_ts = td.timestep_list.len();
        proof {
            assert forall|j: int| 0 <= j < pre.n_procs() && j != p implies #[trigger] self.slot(j)
                == pre.slot(j) by {
                assert(self.proc_ids@[j] == pre.proc_ids@[j]);
                assert(self.pid_idx_current_env_action_list@[j]
                    == pre.pid_idx_current_env_action_list@[j]);
                assert(self.pid_idx_current_agent_id_list@[j]
                    == pre.pid_idx_current_agent_id_list@[j]);
                assert(self.pid_idx_prev_timestep_id_list@[j]
                    == pre.pid_idx_prev_timestep_id_list@[j]);
                assert(self.pid_idx_current_obs_list@[j] == pre.pid_idx_current_obs_list@[j]);
                assert(self.pid_idx_current_action_list@[j]
                    == pre.pid_idx_current_action_list@[j]);
                assert(self.pid_idx_current_aald_list@[j] == pre.pid_idx_current_aald_list@[j]);
            }
            assert(self.slot(p).agent_ids =~= new_idsv);
            assert(self.slot(p).obs =~~= respv.obs);
            assert(self.slot(p).proc_id == pre.slot(p).proc_id);
            assert(self.slot(p).env_action == pre.slot(p).env_action);
            assert(self.slot(p).actions =~~= pre.slot(p).actions);
            assert(self.slot(p).aald == pre.slot(p).aald);
            assert(od@.agent_ids == new_idsv);
            assert(od@.obs =~~= respv.obs);
            assert(td@.timesteps.len() == n_agents);
            assert(td@.aald == pre.slot(p).aald);
            assert(td@.metrics =~~= respv.metrics);
            assert(td@.state =~~= respv.state);
            assert(sinfo@.state =~~= respv.state);
            assert(sinfo@.terminated =~~= Some(
                Seq::new(
                    pre.slot(p).agent_ids.len(),
                    |j: int| (new_idsv[j], respv.terminateds[j]),
                ),
            ));
            assert(sinfo@.truncated =~~= Some(
                Seq::new(
                    pre.slot(p).agent_ids.len(),
                    |j: int| (new_idsv[j], respv.truncateds[j]),
                ),
            ));
            assert(step_collect_rel(recalc, pre.slot(p), self.slot(p), respv, od@, td@, sinfo@));
            assert(self.wf()) by {
                assert forall|j: int| 0 <= j < self.n_procs() implies {
                    let s = #[trigger] self.slot(j);
                    &&& s.prev_timestep_ids.len() == s.agent_ids.len()
                    &&& s.obs.len() == s.agent_ids.len()
                    &&& (s.env_action matches Some(EnvActionView::STEP { .. }) ==> s.actions.len()
                        == s.agent_ids.len())
                } by {
                    if j != p {
                        assert(self.slot(j) == pre.slot(j));
                        assert(pre.slot(j).prev_timestep_ids.len() == pre.slot(j).agent_ids.len());
                    }
                }
            }
            assert(self.pending_obs_view() =~= pre.pending_obs_view());
            assert(self.pending_state_info_view() =~= pre.pending_state_info_view());
        }
        Ok((n_ts, (proc_id_1, od), (proc_id_2, td), (proc_id_0, sinfo)))
    }
}

impl EnvProcessInterface {
    /// Collects one RESET or SET_STATE response.
    #[verifier::rlimit(100)]
    #[verifier::spinoff_prover]
    fn collect_response_episode(&mut self, pid_idx: usize, buf: &[u8]) -> (r: Result<
        (usize, (String, ObsData), (String, TimestepData), (String, StateInfo)),
        EpiError,
    >)
        requires
            old(self).wf(),
            pid_idx < old(self).n_procs(),
            old(self).slot(pid_idx as int).env_action is Some,
            !(old(self).slot(pid_idx as int).env_action matches Some(
                EnvActionView::STEP { .. },
            )),
        ensures
            final(self).wf(),
            final(self).same_config(*old(self)),
            final(self).n_procs() == old(self).n_procs(),
            final(self).min_process_steps_per_inference == old(
                self,
            ).min_process_steps_per_inference,
            final(self).pending_obs_view() == old(self).pending_obs_view(),
            final(self).pending_state_info_view() == old(self).pending_state_info_view(),
            forall|j: int|
                0 <= j < old(self).n_procs() && j != pid_idx ==> #[trigger] final(self).slot(j)
                    == old(self).slot(j),
            (r is Ok) == response_decodes(
                old(self).recalculate_agent_id_every_step,
                old(self).send_state_to_agent_controllers,
                old(self).should_collect_state_metrics,
                old(self).slot(pid_idx as int),
                buf@,
            ),
            r matches Err(e) ==> *final(self) == *old(self) && e == EpiError::CodecFailed,
            r matches Ok(out) ==> {
                &&& (out.1.0)@ == old(self).slot(pid_idx as int).proc_id
                &&& (out.2.0)@ == old(self).slot(pid_idx as int).proc_id
                &&& (out.3.0)@ == old(self).slot(pid_idx as int).proc_id
                &&& collect_rel(
                    old(self).recalculate_agent_id_every_step,
                    old(self).send_state_to_agent_controllers,
                    old(self).should_collect_state_metrics,
                    old(self).slot(pid_idx as int),
                    final(self).slot(pid_idx as int),
                    buf@,
                    (out.1.1)@,
                    (out.2.1)@,
                    (out.3.1)@,
                )
                &&& out.0 == (out.2.1)@.timesteps.len()
            },
    {
        let ghost p = pid_idx as int;
        let ghost pre = *old(self);
        let ws = self.send_state_to_agent_controllers;
        let wm = self.should_collect_state_metrics;
        let dict_opt: Option<Vec<(AgentId, Option<TimestepId>)>> = match &self
            .pid_idx_current_env_action_list[pid_idx] {
            Some(EnvAction::SET_STATE { prev_timestep_id_dict_option: Some(d), .. }) => Some(
                slice_to_vec(d.as_slice()),
            ),
            _ => None,
        };
        let ghost act = pre.slot(p).env_action->Some_0;
        proof {
            match act {
                EnvActionView::SET_STATE { prev_timestep_id_dict_option: Some(d), .. } => {
                    assert(dict_opt matches Some(dv) && dv@ == d);
                },
                _ => {
                    assert(dict_opt is None);
                },
            }
        }
        let (resp, _) = match parse_episode_response(buf, ws, wm) {
            Ok(v) => v,
            Err(_) => {
                return Err(EpiError::CodecFailed);
            },
        };
        let ghost respv = resp@;
        proof {
            crate::responses::lemma_dec_episode_response_len(buf@, 0, ws, wm);
        }
        let n_new = resp.agent_id_list.len();
        let mut prev_new: Vec<Option<TimestepId>> = Vec::new();
        let mut i: usize = 0;
        while i < n_new
            invariant
                i <= n_new,
                n_new == respv.agent_ids.len(),
                resp.agent_id_list@ == respv.agent_ids,
                prev_new@.len() == i,
                (match dict_opt {
                    Some(d) => forall|j: int|
                        0 <= j < i ==> #[trigger] prev_new@[j] == spec_dict_lookup(
                            d@,
                            respv.agent_ids[j],
                        ),
                    None => forall|j: int| 0 <= j < i ==> (#[trigger] prev_new@[j]) is None,
                }),
            decreases n_new - i,
        {
            match &dict_opt {
                Some(d) => {
                    let v = dict_lookup(d, resp.agent_id_list[i]);
                    prev_new.push(v);
                },
                None => {
                    prev_new.push(None);
                },
            }
            i = i + 1;
        }
        let ghost prevv = prev_new@;
        proof {
            assert(prevv =~= episode_prev_ids(act, respv.agent_ids));
        }
        let ids_clone = slice_to_vec(resp.agent_id_list.as_slice());
        let obs_clone = clone_payload_list(&resp.obs_list);
        let aald_out = clone_opt_payload(&self.pid_idx_current_aald_list[pid_idx]);
        self.pid_idx_current_agent_id_list[pid_idx] = Some(ids_clone);
        self.pid_idx_current_obs_list[pid_idx] = obs_clone;
        self.pid_idx_prev_timestep_id_list[pid_idx] = prev_new;
        let state_for_td = clone_opt_payload(&resp.state_option);
        let proc_id_0 = self.proc_ids[pid_idx].clone();
        let proc_id_1 = proc_id_0.clone();
        let proc_id_2 = proc_id_0.clone();
        let od = ObsData { agent_id_list: resp.agent_id_list, obs_list: resp.obs_list };
        let td = TimestepData {
            timestep_list: Vec::new(),
            aald_option: aald_out,
            metrics_option: resp.metrics_option,
            state_option: state_for_td,
        };
        let sinfo = StateInfo {
            state_option: resp.state_option,
            terminated_kv_list: None,
            truncated_kv_list: None,
        };
        proof {
            assert forall|j: int| 0 <= j < pre.n_procs() && j != p implies #[trigger] self.slot(j)
                == pre.slot(j) by {
                assert(self.proc_ids@[j] == pre.proc_ids@[j]);
                assert(self.pid_idx_current_env_action_list@[j]
                    == pre.pid_idx_current_env_action_list@[j]);
                assert(self.pid_idx_current_agent_id_list@[j]
                    == pre.pid_idx_current_agent_id_list@[j]);
                assert(self.pid_idx_prev_timestep_id_list@[j]
                    == pre.pid_idx_prev_timestep_id_list@[j]);
                assert(self.pid_idx_current_obs_list@[j] == pre.pid_idx_current_obs_list@[j]);
                assert(self.pid_idx_current_action_list@[j]
                    == pre.pid_idx_current_action_list@[j]);
                assert(self.pid_idx_current_aald_list@[j] == pre.pid_idx_current_aald_list@[j]);
            }
            assert(self.slot(p).agent_ids =~= respv.agent_ids);
            assert(self.slot(p).obs =~~= respv.obs);
            assert(self.slot(p).prev_timestep_ids == prevv);
            assert(self.slot(p).proc_id == pre.slot(p).proc_id);
            assert(self.slot(p).env_action == pre.slot(p).env_action);
            assert(self.slot(p).actions =~~= pre.slot(p).actions);
            assert(self.slot(p).aald == pre.slot(p).aald);
            assert(od@.agent_ids == respv.agent_ids);
            assert(od@.obs =~~= respv.obs);
            assert(td@.timesteps =~~= Seq::<TimestepView>::empty());
            assert(td@.aald == pre.slot(p).aald);
            assert(td@.metrics =~~= respv.metrics);
            assert(td@.state =~~= respv.state);
            assert(sinfo@.state =~~= respv.state);
            assert(episode_collect_rel(pre.slot(p), self.slot(p), respv, od@, td@, sinfo@));
            assert(self.wf()) by {
                assert forall|j: int| 0 <= j < self.n_procs() implies {
                    let s = #[trigger] self.slot(j);
                    &&& s.prev_timestep_ids.len() == s.agent_ids.len()
                    &&& s.obs.len() == s.agent_ids.len()
                    &&& (s.env_action matches Some(EnvActionView::STEP { .. }) ==> s.actions.len()
                        == s.agent_ids.len())
                } by {
                    if j != p {
                        assert(self.slot(j) == pre.slot(j));
                        assert(pre.slot(j).prev_timestep_ids.len() == pre.slot(j).agent_ids.len());
                    }
                }
            }
            assert(self.pending_obs_view() =~= pre.pending_obs_view());
            assert(self.pending_state_info_view() =~= pre.pending_state_info_view());
        }
        Ok((0, (proc_id_1, od), (proc_id_2, td), (proc_id_0, sinfo)))
    }

    /// Collects the response a ready worker wrote into its region, under
    /// the layout selected by the action in flight. A slot with no action
    /// in flight fails with `ProtocolState`; bytes that do not decode fail
    /// with `CodecFailed`; either way the coordinator is unchanged.
    fn collect_response(&mut self, pid_idx: usize, buf: &[u8]) -> (r: Result<
        (usize, (String, ObsData), (String, TimestepData), (String, StateInfo)),
        EpiError,
    >)
        requires
            old(self).wf(),
            pid_idx < old(self).n_procs(),
        ensures
            final(self).wf(),
            final(self).same_config(*old(self)),
            final(self).n_procs() == old(self).n_procs(),
            final(self).min_process_steps_per_inference == old(
                self,
            ).min_process_steps_per_inference,
            final(self).pending_obs_view() == old(self).pending_obs_view(),
            final(self).pending_state_info_view() == old(self).pending_state_info_view(),
            forall|j: int|
                0 <= j < old(self).n_procs() && j != pid_idx ==> #[trigger] final(self).slot(j)
                    == old(self).slot(j),
            (r is Ok) == (old(self).slot(pid_idx as int).env_action is Some && response_decodes(
                old(self).recalculate_agent_id_every_step,
                old(self).send_state_to_agent_controllers,
                old(self).should_collect_state_metrics,
                old(self).slot(pid_idx as int),
                buf@,
            )),
            r matches Err(e) ==> *final(self) == *old(self) && e == (
            if old(self).slot(pid_idx as int).env_action is None {
                EpiError::ProtocolState
            } else {
                EpiError::CodecFailed
            }),
            r matches Ok(out) ==> {
                &&& (out.1.0)@ == old(self).slot(pid_idx as int).proc_id
                &&& (out.2.0)@ == old(self).slot(pid_idx as int).proc_id
                &&& (out.3.0)@ == old(self).slot(pid_idx as int).proc_id
                &&& collect_rel(
                    old(self).recalculate_agent_id_every_step,
                    old(self).send_state_to_agent_controllers,
                    old(self).should_collect_state_metrics,
                    old(self).slot(pid_idx as int),
                    final(self).slot(pid_idx as int),
                    buf@,
                    (out.1.1)@,
                    (out.2.1)@,
                    (out.3.1)@,
                )
                &&& out.0 == (out.2.1)@.timesteps.len()
            },
    {
        let is_step: bool;
        match &self.pid_idx_current_env_action_list[pid_idx] {
            None => {
                return Err(EpiError::ProtocolState);
            },
            Some(EnvAction::STEP { .. }) => {
                is_step = true;
            },
            Some(_) => {
                is_step = false;
            },
        }
        if is_step {
            self.collect_response_step(pid_idx, buf)
        } else {
            self.collect_response_episode(pid_idx, buf)
        }
    }
}

/// Whether some entry of a readiness batch addresses this slot.
pub open spec fn spec_contains_pid(rs: Seq<(usize, Vec<u8>)>, pid: int) -> bool {
    exists|j: int| 0 <= j < rs.len() && (#[trigger] rs[j]).0 == pid
}

/// The first readiness entry per slot, in readiness order: duplicate
/// readiness within one pass is tolerated and only the first is acted on.
pub open spec fn spec_first_occurrences(rs: Seq<(usize, Vec<u8>)>) -> Seq<(usize, Vec<u8>)>
    decreases rs.len(),
{
    if rs.len() == 0 {
        Seq::<(usize, Vec<u8>)>::empty()
    } else {
        let rest = spec_first_occurrences(rs.drop_last());
        if spec_contains_pid(rs.drop_last(), rs.last().0 as int) {
            rest
        } else {
            rest.push(rs.last())
        }
    }
}

/// Total number of timesteps across a keyed timestep batch.
pub open spec fn spec_sum_timesteps(tds: Seq<(Seq<char>, TimestepDataView)>) -> int
    decreases tds.len(),
{
    if tds.len() == 0 {
        0
    } else {
        spec_sum_timesteps(tds.drop_last()) + tds.last().1.timesteps.len()
    }
}

impl EnvProcessInterface {
    /// Whether one readiness entry can be collected: its slot has an
    /// action in flight and its bytes decode under that action's layout.
    pub open spec fn entry_ok(self, e: (usize, Vec<u8>)) -> bool {
        &&& self.slot(e.0 as int).env_action is Some
        &&& response_decodes(
            self.recalculate_agent_id_every_step,
            self.send_state_to_agent_controllers,
            self.should_collect_state_metrics,
            self.slot(e.0 as int),
            (e.1)@,
        )
    }

    /// Collects one step-collection pass: the queued entries of
    /// newly-added workers are drained first, then each ready slot's
    /// response is collected in readiness order, acting only on the first
    /// readiness of any slot. Returns the total number of emitted
    /// timesteps and the three batches keyed by proc id. A slot without
    /// an action in flight or a response that does not decode aborts the
    /// pass with that slot's own error; the queued entries are consumed
    /// either way and partial results are not returned.
    #[verifier::rlimit(100)]
    #[verifier::spinoff_prover]
    pub fn collect_step_data(&mut self, responses: &Vec<(usize, Vec<u8>)>) -> (r: Result<
        (usize, Vec<(String, ObsData)>, Vec<(String, TimestepData)>, Vec<(String, StateInfo)>),
        EpiError,
    >)
        requires
            old(self).wf(),
            forall|k: int|
                0 <= k < responses@.len() ==> (#[trigger] responses@[k]).0 < old(self).n_procs(),
            old(self).n_procs() >= 1 ==> spec_first_occurrences(responses@).len() >= old(
                self,
            ).min_process_steps_per_inference,
        ensures
            final(self).wf(),
            final(self).same_config(*old(self)),
            final(self).n_procs() == old(self).n_procs(),
            final(self).min_process_steps_per_inference == old(
                self,
            ).min_process_steps_per_inference,
            (r is Ok) == (forall|k: int|
                0 <= k < spec_first_occurrences(responses@).len() ==> old(self).entry_ok(
                    #[trigger] spec_first_occurrences(responses@)[k],
                )),
            r matches Err(e) ==> {
                let fo = spec_first_occurrences(responses@);
                &&& final(self).pending_obs_view().len() == 0
                &&& final(self).pending_state_info_view().len() == 0
                &&& exists|k: int|
                    {
                        &&& 0 <= k < fo.len()
                        &&& !old(self).entry_ok(#[trigger] fo[k])
                        &&& (forall|j: int| 0 <= j < k ==> old(self).entry_ok(#[trigger] fo[j]))
                        &&& e == (if old(self).slot(fo[k].0 as int).env_action is None {
                            EpiError::ProtocolState
                        } else {
                            EpiError::CodecFailed
                        })
                    }
            },
            r matches Ok(out) ==> {
                let fo = spec_first_occurrences(responses@);
                let pend = old(self).pending_obs_view().len() as int;
                let pend_si = old(self).pending_state_info_view().len() as int;
                &&& final(self).pending_obs_view().len() == 0
                &&& final(self).pending_state_info_view().len() == 0
                &&& obs_kvs_view(out.1@).len() == pend + fo.len()
                &&& td_kvs_view(out.2@).len() == fo.len()
                &&& si_kvs_view(out.3@).len() == pend_si + fo.len()
                &&& obs_kvs_view(out.1@).take(pend) == old(self).pending_obs_view()
                &&& si_kvs_view(out.3@).take(pend_si) == old(self).pending_state_info_view()
                &&& (forall|k: int|
                    0 <= k < fo.len() ==> {
                        let pk = (#[trigger] fo[k]).0 as int;
                        &&& (obs_kvs_view(out.1@)[pend + k]).0 == old(self).slot(pk).proc_id
                        &&& (td_kvs_view(out.2@)[k]).0 == old(self).slot(pk).proc_id
                        &&& (si_kvs_view(out.3@)[pend_si + k]).0 == old(self).slot(pk).proc_id
                        &&& collect_rel(
                            old(self).recalculate_agent_id_every_step,
                            old(self).send_state_to_agent_controllers,
                            old(self).should_collect_state_metrics,
                            old(self).slot(pk),
                            final(self).slot(pk),
                            ((fo[k]).1)@,
                            (obs_kvs_view(out.1@)[pend + k]).1,
                            (td_kvs_view(out.2@)[k]).1,
                            (si_kvs_view(out.3@)[pend_si + k]).1,
                        )
                    })
                &&& (forall|i: int|
                    0 <= i < old(self).n_procs() && !spec_contains_pid(responses@, i)
                        ==> #[trigger] final(self).slot(i) == old(self).slot(i))
                &&& (spec_sum_timesteps(td_kvs_view(out.2@)) <= usize::MAX ==> out.0
                    == spec_sum_timesteps(td_kvs_view(out.2@)))
            },
    {
        let ghost pre = *old(self);
        let ghost fo_all = spec_first_occurrences(responses@);
        let mut obs_kvs: Vec<(String, ObsData)> = Vec::new();
        core::mem::swap(&mut obs_kvs, &mut self.added_process_obs_data_kv_list);
        let mut si_kvs: Vec<(String, StateInfo)> = Vec::new();
        core::mem::swap(&mut si_kvs, &mut self.added_process_state_info_kv_list);
        let mut td_kvs: Vec<(String, TimestepData)> = Vec::new();
        let ghost pend = pre.pending_obs_view().len() as int;
        let ghost pend_si = pre.pending_state_info_view().len() as int;
        proof {
            assert(obs_kvs_view(obs_kvs@) =~= pre.pending_obs_view());
            assert(si_kvs_view(si_kvs@) =~= pre.pending_state_info_view());
            assert(self.pending_obs_view() =~= Seq::<(Seq<char>, ObsDataView)>::empty());
            assert(self.pending_state_info_view() =~= Seq::<(Seq<char>, StateInfoView)>::empty());
            Self::lemma_same_slot_fields(pre, *self);
        }
        let n_procs = self.proc_ids.len();
        let mut seen: Vec<bool> = Vec::new();
        let mut q: usize = 0;
        while q < n_procs
            invariant
                q <= n_procs,
                seen@.len() == q,
                forall|t: int| 0 <= t < q ==> !(#[trigger] seen@[t]),
            decreases n_procs - q,
        {
            seen.push(false);
            q = q + 1;
        }
        let mut total: usize = 0;
        let mut k: usize = 0;
        let n_resp = responses.len();
        proof {
            assert(responses@.take(0) =~= Seq::<(usize, Vec<u8>)>::empty());
            assert(spec_first_occurrences(responses@.take(0)) =~= Seq::<
                (usize, Vec<u8>),
            >::empty());
        }
        while k < n_resp
            invariant
                k <= n_resp,
                n_resp == responses@.len(),
                pre == *old(self),
                pre.wf(),
                forall|k2: int|
                    0 <= k2 < responses@.len() ==> (#[trigger] responses@[k2]).0 < pre.n_procs(),
                self.wf(),
                self.same_config(pre),
                self.n_procs() == pre.n_procs(),
                n_procs == pre.n_procs(),
                self.min_process_steps_per_inference == pre.min_process_steps_per_inference,
                self.pending_obs_view().len() == 0,
                self.pending_state_info_view().len() == 0,
                seen@.len() == pre.n_procs(),
                forall|t: int|
                    0 <= t < pre.n_procs() ==> #[trigger] seen@[t] == spec_contains_pid(
                        responses@.take(k as int),
                        t,
                    ),
                pend == pre.pending_obs_view().len() as int,
                pend_si == pre.pending_state_info_view().len() as int,
                fo_all == spec_first_occurrences(responses@),
                obs_kvs_view(obs_kvs@).len() == pend + spec_first_occurrences(
                    responses@.take(k as int),
                ).len(),
                td_kvs_view(td_kvs@).len() == spec_first_occurrences(
                    responses@.take(k as int),
                ).len(),
                si_kvs_view(si_kvs@).len() == pend_si + spec_first_occurrences(
                    responses@.take(k as int),
                ).len(),
                obs_kvs_view(obs_kvs@).take(pend) == pre.pending_obs_view(),
                si_kvs_view(si_kvs@).take(pend_si) == pre.pending_state_info_view(),
                forall|j: int|
                    0 <= j < spec_first_occurrences(responses@.take(k as int)).len() ==> {
                        let e = #[trigger] spec_first_occurrences(responses@.take(k as int))[j];
                        let pk = e.0 as int;
                        &&& (obs_kvs_view(obs_kvs@)[pend + j]).0 == pre.slot(pk).proc_id
                        &&& (td_kvs_view(td_kvs@)[j]).0 == pre.slot(pk).proc_id
                        &&& (si_kvs_view(si_kvs@)[pend_si + j]).0 == pre.slot(pk).proc_id
                        &&& collect_rel(
                            pre.recalculate_agent_id_every_step,
                            pre.send_state_to_agent_controllers,
                            pre.should_collect_state_metrics,
                            pre.slot(pk),
                            self.slot(pk),
                            (e.1)@,
                            (obs_kvs_view(obs_kvs@)[pend + j]).1,
                            (td_kvs_view(td_kvs@)[j]).1,
                            (si_kvs_view(si_kvs@)[pend_si + j]).1,
                        )
                    },
                forall|i: int|
                    0 <= i < pre.n_procs() && !spec_contains_pid(responses@.take(k as int), i)
                        ==> #[trigger] self.slot(i) == pre.slot(i),
                spec_sum_timesteps(td_kvs_view(td_kvs@)) <= usize::MAX ==> total
                    == spec_sum_timesteps(td_kvs_view(td_kvs@)),
            decreases n_resp - k,
        {
            let pid_idx = responses[k].0;
            let ghost take_k = responses@.take(k as int);
            let ghost take_k1 = responses@.take(k + 1);
            proof {
                assert(take_k1.drop_last() =~= take_k);
                assert(take_k1.last() == responses@[k as int]);
            }
            if !seen[pid_idx] {
                proof {
                    assert(!spec_contains_pid(take_k, pid_idx as int));
                    assert(spec_first_occurrences(take_k1) == spec_first_occurrences(
                        take_k,
                    ).push(responses@[k as int]));
                    assert(self.slot(pid_idx as int) == pre.slot(pid_idx as int));
                }
                seen[pid_idx] = true;
                let ghost mid = *self;
                let out = match self.collect_response(pid_idx, responses[k].1.as_slice()) {
                    Ok(v) => v,
                    Err(e) => {
                        proof {
                            lemma_first_occurrences_prefix(responses@, k + 1);
                            let jn = spec_first_occurrences(take_k).len() as int;
                            assert(spec_first_occurrences(take_k1) == spec_first_occurrences(
                                take_k,
                            ).push(responses@[k as int]));
                            assert(0 <= jn < spec_first_occurrences(take_k1).len());
                            assert(spec_first_occurrences(take_k1)[jn] == responses@[k as int]);
                            assert(spec_first_occurrences(take_k1).len()
                                <= spec_first_occurrences(responses@).len());
                            assert(spec_first_occurrences(responses@)[jn]
                                == spec_first_occurrences(take_k1)[jn]);
                            assert(spec_first_occurrences(responses@)[jn] == responses@[k as int]);
                            assert(mid.slot(pid_idx as int) == pre.slot(pid_idx as int));
                            assert(!pre.entry_ok(responses@[k as int]));
                            assert forall|j2: int| 0 <= j2 < jn implies pre.entry_ok(
                                #[trigger] spec_first_occurrences(responses@)[j2],
                            ) by {
                                assert(spec_first_occurrences(take_k1)[j2]
                                    == spec_first_occurrences(take_k)[j2]);
                                assert(spec_first_occurrences(responses@)[j2]
                                    == spec_first_occurrences(take_k)[j2]);
                                let e2 = spec_first_occurrences(take_k)[j2];
                                let pk2 = e2.0 as int;
                                lemma_collect_rel_implies_ok(
                                    pre.recalculate_agent_id_every_step,
                                    pre.send_state_to_agent_controllers,
                                    pre.should_collect_state_metrics,
                                    pre.slot(pk2),
                                    mid.slot(pk2),
                                    (e2.1)@,
                                    (obs_kvs_view(obs_kvs@)[pend + j2]).1,
                                    (td_kvs_view(td_kvs@)[j2]).1,
                                    (si_kvs_view(si_kvs@)[pend_si + j2]).1,
                                );
                            }
                            assert(e == (if pre.slot(
                                spec_first_occurrences(responses@)[jn].0 as int,
                            ).env_action is None {
                                EpiError::ProtocolState
                            } else {
                                EpiError::CodecFailed
                            }));
                        }
                        return Err(e);
                    },
                };
                let n_ts = out.0;
                let ghost prev_obs = obs_kvs@;
                let ghost prev_td = td_kvs@;
                let ghost prev_si = si_kvs@;
                obs_kvs.push(out.1);
                td_kvs.push(out.2);
                si_kvs.push(out.3);
                if usize::MAX - total >= n_ts {
                    total = total + n_ts;
                } else {
                    total = usize::MAX;
                }
                k = k + 1;
                proof {
                    let fo_k1 = spec_first_occurrences(take_k1);
                    let j = fo_k1.len() - 1;
                    assert(obs_kvs_view(obs_kvs@) =~= obs_kvs_view(prev_obs).push(
                        ((obs_kvs@.last().0)@, (obs_kvs@.last().1)@),
                    ));
                    assert(td_kvs_view(td_kvs@) =~= td_kvs_view(prev_td).push(
                        ((td_kvs@.last().0)@, (td_kvs@.last().1)@),
                    ));
                    assert(si_kvs_view(si_kvs@) =~= si_kvs_view(prev_si).push(
                        ((si_kvs@.last().0)@, (si_kvs@.last().1)@),
                    ));
                    assert(obs_kvs_view(obs_kvs@).take(pend) =~= obs_kvs_view(prev_obs).take(
                        pend,
                    ));
                    assert(si_kvs_view(si_kvs@).take(pend_si) =~= si_kvs_view(prev_si).take(
                        pend_si,
                    ));
                    assert(td_kvs_view(td_kvs@).drop_last() =~= td_kvs_view(prev_td));
                    assert forall|j2: int| 0 <= j2 < fo_k1.len() implies {
                        let e = #[trigger] fo_k1[j2];
                        let pk = e.0 as int;
                        &&& (obs_kvs_view(obs_kvs@)[pend + j2]).0 == pre.slot(pk).proc_id
                        &&& (td_kvs_view(td_kvs@)[j2]).0 == pre.slot(pk).proc_id
                        &&& (si_kvs_view(si_kvs@)[pend_si + j2]).0 == pre.slot(pk).proc_id
                        &&& collect_rel(
                            pre.recalculate_agent_id_every_step,
                            pre.send_state_to_agent_controllers,
                            pre.should_collect_state_metrics,
                            pre.slot(pk),
                            self.slot(pk),
                            (e.1)@,
                            (obs_kvs_view(obs_kvs@)[pend + j2]).1,
                            (td_kvs_view(td_kvs@)[j2]).1,
                            (si_kvs_view(si_kvs@)[pend_si + j2]).1,
                        )
                    } by {
                        if j2 < j {
                            let e2 = fo_k1[j2];
                            assert(spec_first_occurrences(take_k)[j2] == e2);
                            let pk2 = e2.0 as int;
                            lemma_first_occurrences_element(take_k, j2);
                            let w = choose|w: int|
                                0 <= w < take_k.len() && (#[trigger] take_k[w]).0 == pk2;
                            assert(take_k[w] == responses@[w]);
                            assert(responses@[w].0 < pre.n_procs());
                            if pk2 == pid_idx as int {
                                assert(spec_contains_pid(take_k, pid_idx as int)) by {
                                    crate::env_process_interface::lemma_first_occurrences_element(
                                        take_k,
                                        j2,
                                    );
                                }
                                assert(false);
                            } else {
                                assert(self.slot(pk2) == mid.slot(pk2));
                            }
                        } else {
                            assert(fo_k1[j2] == responses@[k - 1]);
                        }
                    }
                    assert forall|i: int|
                        0 <= i < pre.n_procs() && !spec_contains_pid(take_k1, i) implies
                        #[trigger] self.slot(i) == pre.slot(i) by {
                        assert(!spec_contains_pid(take_k, i));
                        assert(responses@[k - 1].0 != i);
                        assert(mid.slot(i) == pre.slot(i));
                        assert(self.slot(i) == mid.slot(i));
                    }
                    assert forall|t: int| 0 <= t < pre.n_procs() implies #[trigger] seen@[t]
                        == spec_contains_pid(take_k1, t) by {
                        if t == pid_idx as int {
                            assert(spec_contains_pid(take_k1, t));
                        } else {
                            assert(spec_contains_pid(take_k1, t) == spec_contains_pid(take_k, t))
                                by {
                                if spec_contains_pid(take_k, t) {
                                    let w = choose|w: int|
                                        0 <= w < take_k.len() && (#[trigger] take_k[w]).0 == t;
                                    assert(take_k1[w].0 == t);
                                }
                                if spec_contains_pid(take_k1, t) {
                                    let w = choose|w: int|
                                        0 <= w < take_k1.len() && (#[trigger] take_k1[w]).0 == t;
                                    if w < k {
                                        assert(take_k[w].0 == t);
                                    }
                                }
                            }
                        }
                    }
                }
            } else {
                k = k + 1;
                proof {
                    assert(spec_contains_pid(take_k, pid_idx as int));
                    assert(spec_first_occurrences(take_k1) == spec_first_occurrences(take_k));
                    assert forall|t: int| 0 <= t < pre.n_procs() implies #[trigger] seen@[t]
                        == spec_contains_pid(take_k1, t) by {
                        if spec_contains_pid(take_k, t) {
                            let w = choose|w: int|
                                0 <= w < take_k.len() && (#[trigger] take_k[w]).0 == t;
                            assert(take_k1[w].0 == t);
                        }
                        if spec_contains_pid(take_k1, t) {
                            let w = choose|w: int|
                                0 <= w < take_k1.len() && (#[trigger] take_k1[w]).0 == t;
                            if w < k - 1 {
                                assert(take_k[w].0 == t);
                            } else {
                                assert(take_k1[w] == responses@[k - 1]);
                                assert(spec_contains_pid(take_k, t));
                            }
                        }
                    }
                    assert forall|i: int|
                        0 <= i < pre.n_procs() && !spec_contains_pid(take_k1, i) implies
                        #[trigger] self.slot(i) == pre.slot(i) by {
                        assert(!spec_contains_pid(take_k, i));
                    }
                }
            }
        }
        proof {
            assert(responses@.take(n_resp as int) =~= responses@);
        }
        Ok((total, obs_kvs, td_kvs, si_kvs))
    }
}

/// Every element of the first-occurrence subsequence stems from the batch:
/// its slot is addressed there.
pub proof fn lemma_first_occurrences_element(rs: Seq<(usize, Vec<u8>)>, j: int)
    requires
        0 <= j < spec_first_occurrences(rs).len(),
    ensures
        spec_contains_pid(rs, spec_first_occurrences(rs)[j].0 as int),
    decreases rs.len(),
{
    if rs.len() > 0 {
        let rest = spec_first_occurrences(rs.drop_last());
        if spec_contains_pid(rs.drop_last(), rs.last().0 as int) {
            lemma_first_occurrences_element(rs.drop_last(), j);
            let w = choose|w: int|
                0 <= w < rs.drop_last().len() && (#[trigger] rs.drop_last()[w]).0
                    == spec_first_occurrences(rs)[j].0 as int;
            assert(rs[w].0 == spec_first_occurrences(rs)[j].0);
        } else {
            if j < rest.len() {
                lemma_first_occurrences_element(rs.drop_last(), j);
                let w = choose|w: int|
                    0 <= w < rs.drop_last().len() && (#[trigger] rs.drop_last()[w]).0
                        == spec_first_occurrences(rs)[j].0 as int;
                assert(rs[w].0 == spec_first_occurrences(rs)[j].0);
            } else {
                assert(spec_first_occurrences(rs)[j] == rs.last());
                assert(rs[rs.len() - 1].0 == rs.last().0);
            }
        }
    }
}

/// First occurrences of a prefix form a prefix of the first occurrences.
pub proof fn lemma_first_occurrences_prefix(rs: Seq<(usize, Vec<u8>)>, m: int)
    requires
        0 <= m <= rs.len(),
    ensures
        spec_first_occurrences(rs.take(m)).len() <= spec_first_occurrences(rs).len(),
        forall|j: int|
            0 <= j < spec_first_occurrences(rs.take(m)).len()
                ==> #[trigger] spec_first_occurrences(rs)[j] == spec_first_occurrences(
                rs.take(m),
            )[j],
    decreases rs.len() - m,
{
    if m < rs.len() {
        let a = rs.take(m);
        let b = rs.take(m + 1);
        assert(b.drop_last() =~= a);
        assert(b.last() == rs[m]);
        lemma_first_occurrences_prefix(rs, m + 1);
        if spec_contains_pid(a, rs[m].0 as int) {
            assert(spec_first_occurrences(b) == spec_first_occurrences(a));
        } else {
            assert(spec_first_occurrences(b) == spec_first_occurrences(a).push(rs[m]));
        }
    } else {
        assert(rs.take(m) =~= rs);
    }
}

/// A slot that stands in the collection relation was collectable: it had
/// an action in flight and its bytes decode.
pub proof fn lemma_collect_rel_implies_ok(
    recalc: bool,
    with_state: bool,
    with_metrics: bool,
    pre: SlotView,
    post: SlotView,
    buf: Seq<u8>,
    od: ObsDataView,
    td: TimestepDataView,
    si: StateInfoView,
)
    requires
        collect_rel(recalc, with_state, with_metrics, pre, post, buf, od, td, si),
    ensures
        pre.env_action is Some,
        response_decodes(recalc, with_state, with_metrics, pre, buf),
{
}

/// The one-byte frame that stops a worker.
pub fn stop_frame() -> (r: Vec<u8>)
    ensures
        r@ == seq![spec_header_byte(Header::Stop)],
{
    let mut buf: Vec<u8> = Vec::new();
    append_header(&mut buf, Header::Stop);
    proof {
        assert(buf@ =~= seq![spec_header_byte(Header::Stop)]);
    }
    buf
}

/// The one-byte frame that asks worker zero for the space shapes.
pub fn env_shapes_request_frame() -> (r: Vec<u8>)
    ensures
        r@ == seq![spec_header_byte(Header::EnvShapesRequest)],
{
    let mut buf: Vec<u8> = Vec::new();
    append_header(&mut buf, Header::EnvShapesRequest);
    proof {
        assert(buf@ =~= seq![spec_header_byte(Header::EnvShapesRequest)]);
    }
    buf
}

} // verus!
