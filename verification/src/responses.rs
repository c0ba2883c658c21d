use vstd::prelude::*;

verus! {

use vstd::bytes::{spec_u64_to_le_bytes, lemma_auto_spec_u64_to_from_le_bytes};
use crate::{Payload, AgentId, EpiError};
use crate::wire::{
    spec_dec_u64, spec_enc_bool, spec_dec_bool, spec_enc_payload, spec_dec_payload, append_u64,
    retrieve_u64, append_bool, retrieve_bool, append_payload, retrieve_payload,
    lemma_dec_u64_of_enc, lemma_dec_bool_of_enc, lemma_dec_payload_of_enc,
};

// The response layouts written by a worker into its shared-memory payload
// area. Which layout is in the region depends on the action in flight:
//
// - after a RESET or SET_STATE (and for a worker's very first message), a
//   "new episode" layout: an agent count, then one agent id and one
//   observation per agent, then an optional state and optional metrics;
// - after a STEP, one entry per already-known agent: optionally a fresh
//   agent id (only when agent ids are recalculated every step), then an
//   observation, a reward, and the terminated and truncated flags; then an
//   optional state and optional metrics.

/// A decoded new-episode (or initial) response.
pub struct EpisodeResponse {
    pub agent_id_list: Vec<AgentId>,
    pub obs_list: Vec<Payload>,
    pub state_option: Option<Payload>,
    pub metrics_option: Option<Payload>,
}

/// Mathematical image of an `EpisodeResponse`.
#[verifier::ext_equal]
pub ghost struct EpisodeResponseView {
    pub agent_ids: Seq<AgentId>,
    pub obs: Seq<Seq<u8>>,
    pub state: Option<Seq<u8>>,
    pub metrics: Option<Seq<u8>>,
}

impl DeepView for EpisodeResponse {
    type V = EpisodeResponseView;

    open spec fn deep_view(&self) -> EpisodeResponseView {
        self.view()
    }
}

impl View for EpisodeResponse {
    type V = EpisodeResponseView;

    open spec fn view(&self) -> EpisodeResponseView {
        EpisodeResponseView {
            agent_ids: self.agent_id_list@,
            obs: self.obs_list.deep_view(),
            state: self.state_option.deep_view(),
            metrics: self.metrics_option.deep_view(),
        }
    }
}

/// A decoded step response.
pub struct StepResponse {
    pub agent_id_list_option: Option<Vec<AgentId>>,
    pub obs_list: Vec<Payload>,
    pub reward_list: Vec<Payload>,
    pub terminated_list: Vec<bool>,
    pub truncated_list: Vec<bool>,
    pub state_option: Option<Payload>,
    pub metrics_option: Option<Payload>,
}

/// Mathematical image of a `StepResponse`.
#[verifier::ext_equal]
pub ghost struct StepResponseView {
    pub agent_ids: Option<Seq<AgentId>>,
    pub obs: Seq<Seq<u8>>,
    pub rewards: Seq<Seq<u8>>,
    pub terminateds: Seq<bool>,
    pub truncateds: Seq<bool>,
    pub state: Option<Seq<u8>>,
    pub metrics: Option<Seq<u8>>,
}

impl View for StepResponse {
    type V = StepResponseView;

    open spec fn view(&self) -> StepResponseView {
        StepResponseView {
            agent_ids: self.agent_id_list_option.deep_view(),
            obs: self.obs_list.deep_view(),
            rewards: self.reward_list.deep_view(),
            terminateds: self.terminated_list@,
            truncateds: self.truncated_list@,
            state: self.state_option.deep_view(),
            metrics: self.metrics_option.deep_view(),
        }
    }
}

/// The per-agent columns of a step response, before the trailing optional
/// fields. `agent_ids` is empty unless agent ids are recalculated.
#[verifier::ext_equal]
pub ghost struct StepEntriesView {
    pub agent_ids: Seq<AgentId>,
    pub obs: Seq<Seq<u8>>,
    pub rewards: Seq<Seq<u8>>,
    pub terminateds: Seq<bool>,
    pub truncateds: Seq<bool>,
}

pub open spec fn spec_dec_opt_payload(s: Seq<u8>, off: int, present: bool) -> Option<
    (Option<Seq<u8>>, int),
> {
    if present {
        match spec_dec_payload(s, off) {
            Some((p, o)) => Some((Some(p), o)),
            None => None,
        }
    } else {
        Some((None, off))
    }
}

pub open spec fn spec_dec_id_obs_list(s: Seq<u8>, off: int, n: nat) -> Option<
    ((Seq<AgentId>, Seq<Seq<u8>>), int),
>
    decreases n,
{
    if n == 0 {
        Some(((Seq::<AgentId>::empty(), Seq::<Seq<u8>>::empty()), off))
    } else {
        match spec_dec_u64(s, off) {
            Some((id, o1)) => match spec_dec_payload(s, o1) {
                Some((ob, o2)) => match spec_dec_id_obs_list(s, o2, (n - 1) as nat) {
                    Some(((ids, obs), o3)) => Some(((seq![id] + ids, seq![ob] + obs), o3)),
                    None => None,
                },
                None => None,
            },
            None => None,
        }
    }
}

/// A new-episode response: agent count, agent ids and observations, then
/// the optional state and optional metrics.
pub open spec fn spec_dec_episode_response(
    s: Seq<u8>,
    off: int,
    with_state: bool,
    with_metrics: bool,
) -> Option<(EpisodeResponseView, int)> {
    match spec_dec_u64(s, off) {
        Some((n, o1)) => match spec_dec_id_obs_list(s, o1, n as nat) {
            Some(((ids, obs), o2)) => match spec_dec_opt_payload(s, o2, with_state) {
                Some((st, o3)) => match spec_dec_opt_payload(s, o3, with_metrics) {
                    Some((mt, o4)) => Some(
                        (EpisodeResponseView { agent_ids: ids, obs, state: st, metrics: mt }, o4),
                    ),
                    None => None,
                },
                None => None,
            },
            None => None,
        },
        None => None,
    }
}

/// One per-agent entry of a step response.
#[verifier::ext_equal]
pub ghost struct StepEntryView {
    pub agent_id: Option<AgentId>,
    pub ob: Seq<u8>,
    pub rw: Seq<u8>,
    pub tm: bool,
    pub tc: bool,
}

pub open spec fn spec_dec_step_entry(s: Seq<u8>, off: int, recalc: bool) -> Option<
    (StepEntryView, int),
> {
    let ido = if recalc {
        match spec_dec_u64(s, off) {
            Some((id, o)) => Some((Some(id), o)),
            None => None,
        }
    } else {
        Some((None::<AgentId>, off))
    };
    match ido {
        Some((id, o1)) => match spec_dec_payload(s, o1) {
            Some((ob, o2)) => match spec_dec_payload(s, o2) {
                Some((rw, o3)) => match spec_dec_bool(s, o3) {
                    Some((tm, o4)) => match spec_dec_bool(s, o4) {
                        Some((tc, o5)) => Some(
                            (StepEntryView { agent_id: id, ob, rw, tm, tc }, o5),
                        ),
                        None => None,
                    },
                    None => None,
                },
                None => None,
            },
            None => None,
        },
        None => None,
    }
}

pub open spec fn spec_step_entries_cons(x: StepEntryView, e: StepEntriesView) -> StepEntriesView {
    StepEntriesView {
        agent_ids: match x.agent_id {
            Some(id) => seq![id] + e.agent_ids,
            None => e.agent_ids,
        },
        obs: seq![x.ob] + e.obs,
        rewards: seq![x.rw] + e.rewards,
        terminateds: seq![x.tm] + e.terminateds,
        truncateds: seq![x.tc] + e.truncateds,
    }
}

pub open spec fn spec_empty_step_entries() -> StepEntriesView {
    StepEntriesView {
        agent_ids: Seq::<AgentId>::empty(),
        obs: Seq::<Seq<u8>>::empty(),
        rewards: Seq::<Seq<u8>>::empty(),
        terminateds: Seq::<bool>::empty(),
        truncateds: Seq::<bool>::empty(),
    }
}

pub open spec fn spec_dec_step_entries(s: Seq<u8>, off: int, n: nat, recalc: bool) -> Option<
    (StepEntriesView, int),
>
    decreases n,
{
    if n == 0 {
        Some((spec_empty_step_entries(), off))
    } else {
        match spec_dec_step_entry(s, off, recalc) {
            Some((x, o1)) => match spec_dec_step_entries(s, o1, (n - 1) as nat, recalc) {
                Some((e, o2)) => Some((spec_step_entries_cons(x, e), o2)),
                None => None,
            },
            None => None,
        }
    }
}

/// A step response: one entry per agent of the step that was dispatched,
/// then the optional state and optional metrics.
pub open spec fn spec_dec_step_response(
    s: Seq<u8>,
    off: int,
    n: nat,
    recalc: bool,
    with_state: bool,
    with_metrics: bool,
) -> Option<(StepResponseView, int)> {
    match spec_dec_step_entries(s, off, n, recalc) {
        Some((e, o1)) => match spec_dec_opt_payload(s, o1, with_state) {
            Some((st, o2)) => match spec_dec_opt_payload(s, o2, with_metrics) {
                Some((mt, o3)) => Some(
                    (
                        StepResponseView {
                            agent_ids: if recalc {
                                Some(e.agent_ids)
                            } else {
                                None
                            },
                            obs: e.obs,
                            rewards: e.rewards,
                            terminateds: e.terminateds,
                            truncateds: e.truncateds,
                            state: st,
                            metrics: mt,
                        },
                        o3,
                    ),
                ),
                None => None,
            },
            None => None,
        },
        None => None,
    }
}

/// The reply to a shapes request: the observation-space and action-space
/// descriptions, one payload each.
pub open spec fn spec_dec_shapes_response(s: Seq<u8>, off: int) -> Option<
    ((Seq<u8>, Seq<u8>), int),
> {
    match spec_dec_payload(s, off) {
        Some((obs_space, o1)) => match spec_dec_payload(s, o1) {
            Some((action_space, o2)) => Some(((obs_space, action_space), o2)),
            None => None,
        },
        None => None,
    }
}

// Encodings, used by the loopback side: a worker that speaks this protocol
// writes exactly these bytes.

pub open spec fn spec_enc_opt_payload(p: Option<Seq<u8>>) -> Seq<u8> {
    match p {
        Some(q) => spec_enc_payload(q),
        None => Seq::<u8>::empty(),
    }
}

pub open spec fn spec_enc_id_obs_list(ids: Seq<AgentId>, obs: Seq<Seq<u8>>) -> Seq<u8>
    recommends
        ids.len() == obs.len(),
    decreases ids.len(),
{
    if ids.len() == 0 {
        Seq::<u8>::empty()
    } else {
        spec_u64_to_le_bytes(ids.first()) + spec_enc_payload(obs.first()) + spec_enc_id_obs_list(
            ids.drop_first(),
            obs.drop_first(),
        )
    }
}

pub open spec fn spec_enc_episode_response(r: EpisodeResponseView) -> Seq<u8> {
    spec_u64_to_le_bytes(r.agent_ids.len() as u64) + spec_enc_id_obs_list(r.agent_ids, r.obs)
        + spec_enc_opt_payload(r.state) + spec_enc_opt_payload(r.metrics)
}

pub open spec fn spec_enc_step_entry(x: StepEntryView) -> Seq<u8> {
    (match x.agent_id {
        Some(id) => spec_u64_to_le_bytes(id),
        None => Seq::<u8>::empty(),
    }) + spec_enc_payload(x.ob) + spec_enc_payload(x.rw) + spec_enc_bool(x.tm) + spec_enc_bool(
        x.tc,
    )
}

pub open spec fn spec_step_entries_first(e: StepEntriesView, recalc: bool) -> StepEntryView {
    StepEntryView {
        agent_id: if recalc {
            Some(e.agent_ids.first())
        } else {
            None
        },
        ob: e.obs.first(),
        rw: e.rewards.first(),
        tm: e.terminateds.first(),
        tc: e.truncateds.first(),
    }
}

pub open spec fn spec_step_entries_drop_first(e: StepEntriesView) -> StepEntriesView {
    StepEntriesView {
        agent_ids: if e.agent_ids.len() == 0 {
            e.agent_ids
        } else {
            e.agent_ids.drop_first()
        },
        obs: e.obs.drop_first(),
        rewards: e.rewards.drop_first(),
        terminateds: e.terminateds.drop_first(),
        truncateds: e.truncateds.drop_first(),
    }
}

/// Column lengths of well-formed step entries for `n` agents.
pub open spec fn spec_wf_step_entries(e: StepEntriesView, n: nat, recalc: bool) -> bool {
    &&& e.agent_ids.len() == (if recalc {
        n
    } else {
        0nat
    })
    &&& e.obs.len() == n
    &&& e.rewards.len() == n
    &&& e.terminateds.len() == n
    &&& e.truncateds.len() == n
}

pub open spec fn spec_enc_step_entries(e: StepEntriesView, recalc: bool) -> Seq<u8>
    decreases e.obs.len(),
{
    if e.obs.len() == 0 {
        Seq::<u8>::empty()
    } else {
        spec_enc_step_entry(spec_step_entries_first(e, recalc)) + spec_enc_step_entries(
            spec_step_entries_drop_first(e),
            recalc,
        )
    }
}

pub open spec fn spec_enc_step_response(r: StepResponseView, recalc: bool) -> Seq<u8> {
    spec_enc_step_entries(
        StepEntriesView {
            agent_ids: match r.agent_ids {
                Some(ids) => ids,
                None => Seq::<AgentId>::empty(),
            },
            obs: r.obs,
            rewards: r.rewards,
            terminateds: r.terminateds,
            truncateds: r.truncateds,
        },
        recalc,
    ) + spec_enc_opt_payload(r.state) + spec_enc_opt_payload(r.metrics)
}

pub open spec fn spec_enc_shapes_response(obs_space: Seq<u8>, action_space: Seq<u8>) -> Seq<u8> {
    spec_enc_payload(obs_space) + spec_enc_payload(action_space)
}

proof fn lemma_dec_id_obs_list_split(s: Seq<u8>, off: int, a: nat, b: nat)
    ensures
        spec_dec_id_obs_list(s, off, a + b) == (match spec_dec_id_obs_list(s, off, a) {
            Some((v1, o1)) => match spec_dec_id_obs_list(s, o1, b) {
                Some((v2, o2)) => Some(((v1.0 + v2.0, v1.1 + v2.1), o2)),
                None => None::<((Seq<AgentId>, Seq<Seq<u8>>), int)>,
            },
            None => None::<((Seq<AgentId>, Seq<Seq<u8>>), int)>,
        }),
    decreases a,
{
    if a == 0 {
        match spec_dec_id_obs_list(s, off, b) {
            Some((v2, o2)) => {
                assert(Seq::<AgentId>::empty() + v2.0 =~= v2.0);
                assert(Seq::<Seq<u8>>::empty() + v2.1 =~= v2.1);
            },
            None => {},
        }
    } else {
        match spec_dec_u64(s, off) {
            Some((id, o1)) => match spec_dec_payload(s, o1) {
                Some((ob, o2)) => {
                    lemma_dec_id_obs_list_split(s, o2, (a - 1) as nat, b);
                    match spec_dec_id_obs_list(s, o2, (a - 1) as nat) {
                        Some((v1, o3)) => match spec_dec_id_obs_list(s, o3, b) {
                            Some((v2, o4)) => {
                                assert(seq![id] + (v1.0 + v2.0) =~= (seq![id] + v1.0) + v2.0);
                                assert(seq![ob] + (v1.1 + v2.1) =~= (seq![ob] + v1.1) + v2.1);
                            },
                            None => {},
                        },
                        None => {},
                    }
                },
                None => {},
            },
            None => {},
        }
    }
}

/// A successful decode of `n` agent entries lands at least `n` bytes past
/// its start, and (for nonempty lists) inside the buffer.
proof fn lemma_dec_id_obs_list_bounds(s: Seq<u8>, off: int, n: nat)
    ensures
        spec_dec_id_obs_list(s, off, n) matches Some(v) ==> v.1 >= off + n && (n > 0 ==> v.1
            <= s.len()),
    decreases n,
{
    if n > 0 {
        match spec_dec_u64(s, off) {
            Some((id, o1)) => match spec_dec_payload(s, o1) {
                Some((ob, o2)) => {
                    lemma_dec_id_obs_list_bounds(s, o2, (n - 1) as nat);
                },
                None => {},
            },
            None => {},
        }
    }
}

/// A successful decode of `n` agent entries yields `n` ids and `n`
/// observations.
pub proof fn lemma_dec_id_obs_list_len(s: Seq<u8>, off: int, n: nat)
    ensures
        spec_dec_id_obs_list(s, off, n) matches Some(v) ==> v.0.0.len() == n && v.0.1.len() == n,
    decreases n,
{
    if n > 0 {
        match spec_dec_u64(s, off) {
            Some((id, o1)) => match spec_dec_payload(s, o1) {
                Some((ob, o2)) => {
                    lemma_dec_id_obs_list_len(s, o2, (n - 1) as nat);
                },
                None => {},
            },
            None => {},
        }
    }
}

/// A successful decode of a new-episode response carries one observation
/// per agent id.
pub proof fn lemma_dec_episode_response_len(s: Seq<u8>, off: int, ws: bool, wm: bool)
    ensures
        spec_dec_episode_response(s, off, ws, wm) matches Some(v) ==> v.0.agent_ids.len()
            == v.0.obs.len(),
{
    match spec_dec_u64(s, off) {
        Some((n, o1)) => {
            lemma_dec_id_obs_list_len(s, o1, n as nat);
        },
        None => {},
    }
}

/// A successful decode of `n` step entries yields well-formed columns.
pub proof fn lemma_dec_step_entries_len(s: Seq<u8>, off: int, n: nat, recalc: bool)
    ensures
        spec_dec_step_entries(s, off, n, recalc) matches Some(v) ==> spec_wf_step_entries(
            v.0,
            n,
            recalc,
        ),
    decreases n,
{
    if n > 0 {
        match spec_dec_step_entry(s, off, recalc) {
            Some((x, o1)) => {
                lemma_dec_step_entries_len(s, o1, (n - 1) as nat, recalc);
            },
            None => {},
        }
    }
}

/// A successful decode of a step response carries one entry per agent,
/// and fresh agent ids exactly when they are recalculated.
pub proof fn lemma_dec_step_response_len(
    s: Seq<u8>,
    off: int,
    n: nat,
    recalc: bool,
    ws: bool,
    wm: bool,
)
    ensures
        spec_dec_step_response(s, off, n, recalc, ws, wm) matches Some(v) ==> {
            &&& v.0.obs.len() == n
            &&& v.0.rewards.len() == n
            &&& v.0.terminateds.len() == n
            &&& v.0.truncateds.len() == n
            &&& (v.0.agent_ids is Some) == recalc
            &&& (v.0.agent_ids matches Some(ids) ==> ids.len() == n)
        },
{
    lemma_dec_step_entries_len(s, off, n, recalc);
}

proof fn lemma_dec_id_obs_list_of_enc(pre: Seq<u8>, ids: Seq<AgentId>, obs: Seq<Seq<u8>>, rest: Seq<u8>)
    requires
        ids.len() == obs.len(),
        forall|i: int| 0 <= i < obs.len() ==> #[trigger] obs[i].len() <= u64::MAX,
    ensures
        spec_dec_id_obs_list(pre + spec_enc_id_obs_list(ids, obs) + rest, pre.len() as int, ids.len())
            == Some(((ids, obs), pre.len() + spec_enc_id_obs_list(ids, obs).len() as int)),
    decreases ids.len(),
{
    lemma_auto_spec_u64_to_from_le_bytes();
    let s = pre + spec_enc_id_obs_list(ids, obs) + rest;
    if ids.len() == 0 {
        assert(s =~= pre + rest);
        assert(ids =~= Seq::<AgentId>::empty());
        assert(obs =~= Seq::<Seq<u8>>::empty());
        assert(spec_dec_id_obs_list(s, pre.len() as int, 0nat) == Some(
            ((Seq::<AgentId>::empty(), Seq::<Seq<u8>>::empty()), pre.len() as int),
        ));
        assert(spec_enc_id_obs_list(ids, obs).len() == 0);
    } else {
        let tail_enc = spec_enc_id_obs_list(ids.drop_first(), obs.drop_first());
        assert(s =~= pre + spec_u64_to_le_bytes(ids.first()) + (spec_enc_payload(obs.first()) + (
        tail_enc + rest)));
        lemma_dec_u64_of_enc(pre, ids.first(), spec_enc_payload(obs.first()) + (tail_enc + rest));
        let pre2 = pre + spec_u64_to_le_bytes(ids.first());
        assert(s =~= pre2 + spec_enc_payload(obs.first()) + (tail_enc + rest));
        lemma_dec_payload_of_enc(pre2, obs.first(), tail_enc + rest);
        let pre3 = pre2 + spec_enc_payload(obs.first());
        assert forall|i: int| 0 <= i < obs.drop_first().len() implies #[trigger] obs.drop_first()[i].len()
            <= u64::MAX by {
            assert(obs.drop_first()[i] == obs[i + 1]);
        }
        lemma_dec_id_obs_list_of_enc(pre3, ids.drop_first(), obs.drop_first(), rest);
        assert(pre3 + tail_enc + rest =~= s);
        let n1 = (ids.len() - 1) as nat;
        assert(ids.drop_first().len() == n1);
        assert(spec_dec_u64(s, pre.len() as int) == Some((ids.first(), pre2.len() as int)));
        assert(spec_dec_payload(s, pre2.len() as int) == Some((obs.first(), pre3.len() as int)));
        assert(spec_dec_id_obs_list(s, pre3.len() as int, n1) == Some(
            ((ids.drop_first(), obs.drop_first()), pre3.len() + tail_enc.len() as int),
        ));
        assert(spec_dec_id_obs_list(s, pre.len() as int, ids.len()) == Some(
            (
                (seq![ids.first()] + ids.drop_first(), seq![obs.first()] + obs.drop_first()),
                pre3.len() + tail_enc.len() as int,
            ),
        ));
        assert(seq![ids.first()] + ids.drop_first() =~= ids);
        assert(seq![obs.first()] + obs.drop_first() =~= obs);
        assert(spec_enc_id_obs_list(ids, obs).len() == spec_u64_to_le_bytes(ids.first()).len()
            + spec_enc_payload(obs.first()).len() + tail_enc.len());
    }
}

proof fn lemma_dec_step_entries_split(s: Seq<u8>, off: int, a: nat, b: nat, recalc: bool)
    ensures
        spec_dec_step_entries(s, off, a + b, recalc) == (match spec_dec_step_entries(
            s,
            off,
            a,
            recalc,
        ) {
            Some((e1, o1)) => match spec_dec_step_entries(s, o1, b, recalc) {
                Some((e2, o2)) => Some(
                    (
                        StepEntriesView {
                            agent_ids: e1.agent_ids + e2.agent_ids,
                            obs: e1.obs + e2.obs,
                            rewards: e1.rewards + e2.rewards,
                            terminateds: e1.terminateds + e2.terminateds,
                            truncateds: e1.truncateds + e2.truncateds,
                        },
                        o2,
                    ),
                ),
                None => None::<(StepEntriesView, int)>,
            },
            None => None::<(StepEntriesView, int)>,
        }),
    decreases a,
{
    if a == 0 {
        match spec_dec_step_entries(s, off, b, recalc) {
            Some((e2, o2)) => {
                assert(Seq::<AgentId>::empty() + e2.agent_ids =~= e2.agent_ids);
                assert(Seq::<Seq<u8>>::empty() + e2.obs =~= e2.obs);
                assert(Seq::<Seq<u8>>::empty() + e2.rewards =~= e2.rewards);
                assert(Seq::<bool>::empty() + e2.terminateds =~= e2.terminateds);
                assert(Seq::<bool>::empty() + e2.truncateds =~= e2.truncateds);
            },
            None => {},
        }
    } else {
        match spec_dec_step_entry(s, off, recalc) {
            Some((x, o1)) => {
                lemma_dec_step_entries_split(s, o1, (a - 1) as nat, b, recalc);
                match spec_dec_step_entries(s, o1, (a - 1) as nat, recalc) {
                    Some((e1, o2)) => match spec_dec_step_entries(s, o2, b, recalc) {
                        Some((e2, o3)) => {
                            match x.agent_id {
                                Some(id) => {
                                    assert(seq![id] + (e1.agent_ids + e2.agent_ids) =~= (seq![id]
                                        + e1.agent_ids) + e2.agent_ids);
                                },
                                None => {},
                            }
                            assert(seq![x.ob] + (e1.obs + e2.obs) =~= (seq![x.ob] + e1.obs)
                                + e2.obs);
                            assert(seq![x.rw] + (e1.rewards + e2.rewards) =~= (seq![x.rw]
                                + e1.rewards) + e2.rewards);
                            assert(seq![x.tm] + (e1.terminateds + e2.terminateds) =~= (seq![x.tm]
                                + e1.terminateds) + e2.terminateds);
                            assert(seq![x.tc] + (e1.truncateds + e2.truncateds) =~= (seq![x.tc]
                                + e1.truncateds) + e2.truncateds);
                        },
                        None => {},
                    },
                    None => {},
                }
            },
            None => {},
        }
    }
}

proof fn lemma_dec_step_entry_of_enc(pre: Seq<u8>, x: StepEntryView, recalc: bool, rest: Seq<u8>)
    requires
        x.ob.len() <= u64::MAX,
        x.rw.len() <= u64::MAX,
        (x.agent_id is Some) == recalc,
    ensures
        spec_dec_step_entry(pre + spec_enc_step_entry(x) + rest, pre.len() as int, recalc) == Some(
            (x, pre.len() + spec_enc_step_entry(x).len() as int),
        ),
{
    lemma_auto_spec_u64_to_from_le_bytes();
    let s = pre + spec_enc_step_entry(x) + rest;
    let id_enc = match x.agent_id {
        Some(id) => spec_u64_to_le_bytes(id),
        None => Seq::<u8>::empty(),
    };
    let pre1 = pre + id_enc;
    let pre2 = pre1 + spec_enc_payload(x.ob);
    let pre3 = pre2 + spec_enc_payload(x.rw);
    let pre4 = pre3 + spec_enc_bool(x.tm);
    let pre5 = pre4 + spec_enc_bool(x.tc);
    match x.agent_id {
        Some(id) => {
            assert(s =~= pre + spec_u64_to_le_bytes(id) + (spec_enc_payload(x.ob) + (
            spec_enc_payload(x.rw) + (spec_enc_bool(x.tm) + (spec_enc_bool(x.tc) + rest)))));
            lemma_dec_u64_of_enc(
                pre,
                id,
                spec_enc_payload(x.ob) + (spec_enc_payload(x.rw) + (spec_enc_bool(x.tm) + (
                spec_enc_bool(x.tc) + rest))),
            );
            assert(spec_dec_u64(s, pre.len() as int) == Some((id, pre1.len() as int)));
        },
        None => {
            assert(pre1 =~= pre);
        },
    }
    assert(s =~= pre1 + spec_enc_payload(x.ob) + (spec_enc_payload(x.rw) + (spec_enc_bool(x.tm) + (
    spec_enc_bool(x.tc) + rest))));
    lemma_dec_payload_of_enc(
        pre1,
        x.ob,
        spec_enc_payload(x.rw) + (spec_enc_bool(x.tm) + (spec_enc_bool(x.tc) + rest)),
    );
    assert(spec_dec_payload(s, pre1.len() as int) == Some((x.ob, pre2.len() as int)));
    assert(s =~= pre2 + spec_enc_payload(x.rw) + (spec_enc_bool(x.tm) + (spec_enc_bool(x.tc)
        + rest)));
    lemma_dec_payload_of_enc(pre2, x.rw, spec_enc_bool(x.tm) + (spec_enc_bool(x.tc) + rest));
    assert(spec_dec_payload(s, pre2.len() as int) == Some((x.rw, pre3.len() as int)));
    assert(s =~= pre3 + spec_enc_bool(x.tm) + (spec_enc_bool(x.tc) + rest));
    lemma_dec_bool_of_enc(pre3, x.tm, spec_enc_bool(x.tc) + rest);
    assert(spec_dec_bool(s, pre3.len() as int) == Some((x.tm, pre4.len() as int)));
    assert(s =~= pre4 + spec_enc_bool(x.tc) + rest);
    lemma_dec_bool_of_enc(pre4, x.tc, rest);
    assert(spec_dec_bool(s, pre4.len() as int) == Some((x.tc, pre5.len() as int)));
    assert(spec_enc_step_entry(x).len() == id_enc.len() + spec_enc_payload(x.ob).len()
        + spec_enc_payload(x.rw).len() + 1 + 1);
}

#[verifier::rlimit(100)]
#[verifier::spinoff_prover]
proof fn lemma_dec_step_entries_of_enc(
    pre: Seq<u8>,
    e: StepEntriesView,
    n: nat,
    recalc: bool,
    rest: Seq<u8>,
)
    requires
        spec_wf_step_entries(e, n, recalc),
        forall|i: int| 0 <= i < e.obs.len() ==> #[trigger] e.obs[i].len() <= u64::MAX,
        forall|i: int| 0 <= i < e.rewards.len() ==> #[trigger] e.rewards[i].len() <= u64::MAX,
    ensures
        spec_dec_step_entries(
            pre + spec_enc_step_entries(e, recalc) + rest,
            pre.len() as int,
            n,
            recalc,
        ) == Some((e, pre.len() + spec_enc_step_entries(e, recalc).len() as int)),
    decreases n,
{
    let s = pre + spec_enc_step_entries(e, recalc) + rest;
    if n == 0 {
        assert(s =~= pre + rest);
        assert(e.agent_ids =~= Seq::<AgentId>::empty());
        assert(e.obs =~= Seq::<Seq<u8>>::empty());
        assert(e.rewards =~= Seq::<Seq<u8>>::empty());
        assert(e.terminateds =~= Seq::<bool>::empty());
        assert(e.truncateds =~= Seq::<bool>::empty());
        assert(e =~~= spec_empty_step_entries());
        assert(spec_enc_step_entries(e, recalc).len() == 0);
    } else {
        let x = spec_step_entries_first(e, recalc);
        let e1 = spec_step_entries_drop_first(e);
        let tail_enc = spec_enc_step_entries(e1, recalc);
        assert(s =~= pre + spec_enc_step_entry(x) + (tail_enc + rest));
        lemma_dec_step_entry_of_enc(pre, x, recalc, tail_enc + rest);
        let pre2 = pre + spec_enc_step_entry(x);
        assert(spec_dec_step_entry(s, pre.len() as int, recalc) == Some((x, pre2.len() as int)));
        assert(e1.obs.len() == n - 1);
        assert(e1.rewards.len() == n - 1);
        assert(e1.terminateds.len() == n - 1);
        assert(e1.truncateds.len() == n - 1);
        assert(e1.agent_ids.len() == (if recalc {
            (n - 1) as nat
        } else {
            0nat
        }));
        assert forall|i: int| 0 <= i < e1.obs.len() implies #[trigger] e1.obs[i].len()
            <= u64::MAX by {
            assert(e1.obs[i] == e.obs[i + 1]);
        }
        assert forall|i: int| 0 <= i < e1.rewards.len() implies #[trigger] e1.rewards[i].len()
            <= u64::MAX by {
            assert(e1.rewards[i] == e.rewards[i + 1]);
        }
        lemma_dec_step_entries_of_enc(pre2, e1, (n - 1) as nat, recalc, rest);
        assert(pre2 + tail_enc + rest =~= s);
        assert(spec_dec_step_entries(s, pre2.len() as int, (n - 1) as nat, recalc) == Some(
            (e1, pre2.len() + tail_enc.len() as int),
        ));
        assert(spec_dec_step_entries(s, pre.len() as int, n, recalc) == Some(
            (spec_step_entries_cons(x, e1), pre2.len() + tail_enc.len() as int),
        ));
        match x.agent_id {
            Some(id) => {
                assert(seq![id] + e1.agent_ids =~= e.agent_ids);
            },
            None => {
                assert(e1.agent_ids =~= e.agent_ids);
            },
        }
        assert(seq![x.ob] + e1.obs =~= e.obs);
        assert(seq![x.rw] + e1.rewards =~= e.rewards);
        assert(seq![x.tm] + e1.terminateds =~= e.terminateds);
        assert(seq![x.tc] + e1.truncateds =~= e.truncateds);
        assert(spec_step_entries_cons(x, e1) =~~= e);
        assert(spec_enc_step_entries(e, recalc).len() == spec_enc_step_entry(x).len()
            + tail_enc.len());
    }
}

proof fn lemma_enc_id_obs_list_push(ids: Seq<AgentId>, obs: Seq<Seq<u8>>, id: AgentId, ob: Seq<u8>)
    requires
        ids.len() == obs.len(),
    ensures
        spec_enc_id_obs_list(ids.push(id), obs.push(ob)) == spec_enc_id_obs_list(ids, obs) + (
        spec_u64_to_le_bytes(id) + spec_enc_payload(ob)),
    decreases ids.len(),
{
    let piece = spec_u64_to_le_bytes(id) + spec_enc_payload(ob);
    if ids.len() == 0 {
        assert(ids.push(id).first() == id);
        assert(obs.push(ob).first() == ob);
        assert(ids.push(id).drop_first() =~= Seq::<AgentId>::empty());
        assert(obs.push(ob).drop_first() =~= Seq::<Seq<u8>>::empty());
        assert(spec_enc_id_obs_list(ids.push(id), obs.push(ob)) == spec_u64_to_le_bytes(id)
            + spec_enc_payload(ob) + spec_enc_id_obs_list(
            Seq::<AgentId>::empty(),
            Seq::<Seq<u8>>::empty(),
        ));
        assert(spec_u64_to_le_bytes(id) + spec_enc_payload(ob) + Seq::<u8>::empty() =~= piece);
        assert(spec_enc_id_obs_list(ids, obs) == Seq::<u8>::empty());
        assert(Seq::<u8>::empty() + piece =~= piece);
        assert(spec_u64_to_le_bytes(id) + spec_enc_payload(ob) =~= piece);
    } else {
        assert(ids.push(id).first() == ids.first());
        assert(obs.push(ob).first() == obs.first());
        assert(ids.push(id).drop_first() =~= ids.drop_first().push(id));
        assert(obs.push(ob).drop_first() =~= obs.drop_first().push(ob));
        lemma_enc_id_obs_list_push(ids.drop_first(), obs.drop_first(), id, ob);
        assert(spec_u64_to_le_bytes(ids.first()) + spec_enc_payload(obs.first()) + (
        spec_enc_id_obs_list(ids.drop_first(), obs.drop_first()) + piece) =~= (spec_u64_to_le_bytes(
            ids.first(),
        ) + spec_enc_payload(obs.first()) + spec_enc_id_obs_list(
            ids.drop_first(),
            obs.drop_first(),
        )) + piece);
    }
}

pub open spec fn spec_step_entries_push(e: StepEntriesView, x: StepEntryView) -> StepEntriesView {
    StepEntriesView {
        agent_ids: match x.agent_id {
            Some(id) => e.agent_ids.push(id),
            None => e.agent_ids,
        },
        obs: e.obs.push(x.ob),
        rewards: e.rewards.push(x.rw),
        terminateds: e.terminateds.push(x.tm),
        truncateds: e.truncateds.push(x.tc),
    }
}

proof fn lemma_enc_step_entries_push(e: StepEntriesView, x: StepEntryView, n: nat, recalc: bool)
    requires
        spec_wf_step_entries(e, n, recalc),
        (x.agent_id is Some) == recalc,
    ensures
        spec_enc_step_entries(spec_step_entries_push(e, x), recalc) == spec_enc_step_entries(
            e,
            recalc,
        ) + spec_enc_step_entry(x),
    decreases n,
{
    let p = spec_step_entries_push(e, x);
    if n == 0 {
        assert(p.obs.len() == 1);
        assert(spec_step_entries_first(p, recalc) =~~= x);
        let p1 = spec_step_entries_drop_first(p);
        assert(p1.obs.len() == 0);
        assert(spec_enc_step_entries(p1, recalc) == Seq::<u8>::empty());
        assert(spec_enc_step_entry(x) + Seq::<u8>::empty() =~= spec_enc_step_entry(x));
        assert(spec_enc_step_entries(e, recalc) == Seq::<u8>::empty());
        assert(Seq::<u8>::empty() + spec_enc_step_entry(x) =~= spec_enc_step_entry(x));
    } else {
        assert(p.obs.len() == n + 1);
        assert(spec_step_entries_first(p, recalc) =~~= spec_step_entries_first(e, recalc));
        let e1 = spec_step_entries_drop_first(e);
        let p1 = spec_step_entries_drop_first(p);
        assert(p1.agent_ids =~= spec_step_entries_push(e1, x).agent_ids);
        assert(p1.obs =~~= spec_step_entries_push(e1, x).obs);
        assert(p1.rewards =~~= spec_step_entries_push(e1, x).rewards);
        assert(p1.terminateds =~= spec_step_entries_push(e1, x).terminateds);
        assert(p1.truncateds =~= spec_step_entries_push(e1, x).truncateds);
        assert(p1 =~~= spec_step_entries_push(e1, x));
        assert(e1.obs.len() == n - 1);
        assert(e1.agent_ids.len() == (if recalc {
            (n - 1) as nat
        } else {
            0nat
        }));
        lemma_enc_step_entries_push(e1, x, (n - 1) as nat, recalc);
        let head = spec_enc_step_entry(spec_step_entries_first(e, recalc));
        assert(head + (spec_enc_step_entries(e1, recalc) + spec_enc_step_entry(x)) =~= (head
            + spec_enc_step_entries(e1, recalc)) + spec_enc_step_entry(x));
    }
}

/// Writes the new-episode (or initial) layout for the given fields: the
/// exact bytes a conforming worker places in shared memory.
pub fn encode_episode_response(
    agent_id_list: &Vec<AgentId>,
    obs_list: &Vec<Payload>,
    state_option: &Option<Payload>,
    metrics_option: &Option<Payload>,
) -> (r: Vec<u8>)
    requires
        agent_id_list.len() == obs_list.len(),
    ensures
        spec_dec_episode_response(r@, 0, state_option is Some, metrics_option is Some) == Some(
            (
                EpisodeResponseView {
                    agent_ids: agent_id_list@,
                    obs: obs_list.deep_view(),
                    state: state_option.deep_view(),
                    metrics: metrics_option.deep_view(),
                },
                r@.len() as int,
            ),
        ),
{
    let mut buf: Vec<u8> = Vec::new();
    let n = agent_id_list.len();
    append_u64(&mut buf, n as u64);
    let ghost ids = agent_id_list@;
    let ghost obs = obs_list.deep_view();
    let ghost nenc = spec_u64_to_le_bytes(n as u64);
    proof {
        assert(ids.take(0) =~= Seq::<AgentId>::empty());
        assert(obs.take(0) =~= Seq::<Seq<u8>>::empty());
        assert(buf@ =~= nenc + spec_enc_id_obs_list(ids.take(0), obs.take(0)));
    }
    let mut i: usize = 0;
    while i < n
        invariant
            i <= n,
            n == agent_id_list.len(),
            agent_id_list.len() == obs_list.len(),
            ids == agent_id_list@,
            obs == obs_list.deep_view(),
            nenc == spec_u64_to_le_bytes(n as u64),
            buf@ == nenc + spec_enc_id_obs_list(ids.take(i as int), obs.take(i as int)),
        decreases n - i,
    {
        proof {
            assert(ids.take(i as int).len() == obs.take(i as int).len());
            assert(ids.take(i as int).push(ids[i as int]) =~= ids.take(i + 1));
            assert(obs.take(i as int).push(obs[i as int]) =~= obs.take(i + 1));
            lemma_enc_id_obs_list_push(
                ids.take(i as int),
                obs.take(i as int),
                ids[i as int],
                obs[i as int],
            );
        }
        append_u64(&mut buf, agent_id_list[i]);
        append_payload(&mut buf, &obs_list[i]);
        proof {
            assert(obs_list@[i as int]@ == obs[i as int]);
            assert(buf@ =~= nenc + spec_enc_id_obs_list(ids.take(i + 1), obs.take(i + 1)));
        }
        i = i + 1;
    }
    proof {
        assert(ids.take(n as int) =~= ids);
        assert(obs.take(n as int) =~= obs);
    }
    let ghost enc_items = spec_enc_id_obs_list(ids, obs);
    match state_option {
        Some(p) => {
            append_payload(&mut buf, p);
            proof {
                assert(state_option.deep_view() =~~= Some(p@));
            }
        },
        None => {
            proof {
                assert(state_option.deep_view() =~~= None::<Seq<u8>>);
            }
        },
    }
    let ghost enc_state = spec_enc_opt_payload(state_option.deep_view());
    proof {
        assert(buf@ =~= nenc + enc_items + enc_state);
    }
    match metrics_option {
        Some(p) => {
            append_payload(&mut buf, p);
            proof {
                assert(metrics_option.deep_view() =~~= Some(p@));
            }
        },
        None => {
            proof {
                assert(metrics_option.deep_view() =~~= None::<Seq<u8>>);
            }
        },
    }
    let ghost enc_metrics = spec_enc_opt_payload(metrics_option.deep_view());
    proof {
        assert(buf@ =~= nenc + enc_items + enc_state + enc_metrics);
        lemma_auto_spec_u64_to_from_le_bytes();
        assert forall|j: int| 0 <= j < obs.len() implies #[trigger] obs[j].len() <= u64::MAX by {
            assert(obs[j] == obs_list@[j]@);
            crate::wire::lemma_payload_len_bound(obs_list@[j]);
        }
        assert(buf@ =~= Seq::<u8>::empty() + nenc + (enc_items + (enc_state + enc_metrics)));
        lemma_dec_u64_of_enc(Seq::<u8>::empty(), n as u64, enc_items + (enc_state + enc_metrics));
        assert(spec_dec_u64(buf@, 0) == Some((n as u64, 8int)));
        assert(buf@ =~= nenc + enc_items + (enc_state + enc_metrics));
        lemma_dec_id_obs_list_of_enc(nenc, ids, obs, enc_state + enc_metrics);
        assert(nenc.len() == 8);
        assert((n as u64) as nat == ids.len());
        assert(spec_dec_id_obs_list(buf@, 8int, ids.len()) == Some(
            ((ids, obs), 8 + enc_items.len() as int),
        ));
        let pre2 = nenc + enc_items;
        assert(pre2.len() == 8 + enc_items.len());
        match state_option {
            Some(p) => {
                crate::wire::lemma_payload_len_bound(*p);
                assert(buf@ =~= pre2 + spec_enc_payload(p@) + enc_metrics);
                lemma_dec_payload_of_enc(pre2, p@, enc_metrics);
            },
            None => {},
        }
        assert(spec_dec_opt_payload(buf@, pre2.len() as int, state_option is Some) == Some(
            (state_option.deep_view(), pre2.len() + enc_state.len() as int),
        ));
        let pre3 = pre2 + enc_state;
        assert(pre3.len() == pre2.len() + enc_state.len());
        match metrics_option {
            Some(p) => {
                crate::wire::lemma_payload_len_bound(*p);
                assert(buf@ =~= pre3 + spec_enc_payload(p@) + Seq::<u8>::empty());
                lemma_dec_payload_of_enc(pre3, p@, Seq::<u8>::empty());
            },
            None => {},
        }
        assert(spec_dec_opt_payload(buf@, pre3.len() as int, metrics_option is Some) == Some(
            (metrics_option.deep_view(), pre3.len() + enc_metrics.len() as int),
        ));
        assert(buf@.len() == pre3.len() + enc_metrics.len());
    }
    buf
}

/// The whole step layout decodes back to its parts.
#[verifier::spinoff_prover]
proof fn lemma_dec_step_response_of_enc(
    e: StepEntriesView,
    n: nat,
    recalc: bool,
    st: Option<Seq<u8>>,
    mt: Option<Seq<u8>>,
)
    requires
        spec_wf_step_entries(e, n, recalc),
        forall|i: int| 0 <= i < e.obs.len() ==> #[trigger] e.obs[i].len() <= u64::MAX,
        forall|i: int| 0 <= i < e.rewards.len() ==> #[trigger] e.rewards[i].len() <= u64::MAX,
        st matches Some(p) ==> p.len() <= u64::MAX,
        mt matches Some(p) ==> p.len() <= u64::MAX,
    ensures
        ({
            let s = spec_enc_step_entries(e, recalc) + spec_enc_opt_payload(st)
                + spec_enc_opt_payload(mt);
            spec_dec_step_response(s, 0, n, recalc, st is Some, mt is Some) == Some(
                (
                    StepResponseView {
                        agent_ids: if recalc {
                            Some(e.agent_ids)
                        } else {
                            None
                        },
                        obs: e.obs,
                        rewards: e.rewards,
                        terminateds: e.terminateds,
                        truncateds: e.truncateds,
                        state: st,
                        metrics: mt,
                    },
                    s.len() as int,
                ),
            )
        }),
{
    lemma_auto_spec_u64_to_from_le_bytes();
    let enc_items = spec_enc_step_entries(e, recalc);
    let enc_state = spec_enc_opt_payload(st);
    let enc_metrics = spec_enc_opt_payload(mt);
    let s = enc_items + enc_state + enc_metrics;
    assert(s =~= Seq::<u8>::empty() + enc_items + (enc_state + enc_metrics));
    lemma_dec_step_entries_of_enc(Seq::<u8>::empty(), e, n, recalc, enc_state + enc_metrics);
    assert(spec_dec_step_entries(s, 0, n, recalc) == Some((e, enc_items.len() as int)));
    match st {
        Some(p) => {
            assert(s =~= enc_items + spec_enc_payload(p) + enc_metrics);
            lemma_dec_payload_of_enc(enc_items, p, enc_metrics);
        },
        None => {},
    }
    assert(spec_dec_opt_payload(s, enc_items.len() as int, st is Some) == Some(
        (st, enc_items.len() + enc_state.len() as int),
    ));
    let pre3 = enc_items + enc_state;
    assert(pre3.len() == enc_items.len() + enc_state.len());
    match mt {
        Some(p) => {
            assert(s =~= pre3 + spec_enc_payload(p) + Seq::<u8>::empty());
            lemma_dec_payload_of_enc(pre3, p, Seq::<u8>::empty());
        },
        None => {},
    }
    assert(spec_dec_opt_payload(s, pre3.len() as int, mt is Some) == Some(
        (mt, pre3.len() + enc_metrics.len() as int),
    ));
    assert(s.len() == pre3.len() + enc_metrics.len());
}

/// Writes the per-agent entry columns of a step response.
#[verifier::rlimit(100)]
#[verifier::spinoff_prover]
fn encode_step_entries(
    agent_id_list_option: &Option<Vec<AgentId>>,
    obs_list: &Vec<Payload>,
    reward_list: &Vec<Payload>,
    terminated_list: &Vec<bool>,
    truncated_list: &Vec<bool>,
) -> (r: Vec<u8>)
    requires
        reward_list.len() == obs_list.len(),
        terminated_list.len() == obs_list.len(),
        truncated_list.len() == obs_list.len(),
        agent_id_list_option matches Some(ids) ==> ids.len() == obs_list.len(),
    ensures
        r@ == spec_enc_step_entries(
            StepEntriesView {
                agent_ids: match agent_id_list_option {
                    Some(ids) => ids@,
                    None => Seq::<AgentId>::empty(),
                },
                obs: obs_list.deep_view(),
                rewards: reward_list.deep_view(),
                terminateds: terminated_list@,
                truncateds: truncated_list@,
            },
            agent_id_list_option is Some,
        ),
{
    let recalc = agent_id_list_option.is_some();
    let n = obs_list.len();
    let ghost full = StepEntriesView {
        agent_ids: match agent_id_list_option {
            Some(ids) => ids@,
            None => Seq::<AgentId>::empty(),
        },
        obs: obs_list.deep_view(),
        rewards: reward_list.deep_view(),
        terminateds: terminated_list@,
        truncateds: truncated_list@,
    };
    let ghost taken = |i: int|
        StepEntriesView {
            agent_ids: if recalc {
                full.agent_ids.take(i)
            } else {
                Seq::<AgentId>::empty()
            },
            obs: full.obs.take(i),
            rewards: full.rewards.take(i),
            terminateds: full.terminateds.take(i),
            truncateds: full.truncateds.take(i),
        };
    let mut buf: Vec<u8> = Vec::new();
    proof {
        assert(taken(0).obs.len() == 0);
        assert(spec_enc_step_entries(taken(0), recalc) == Seq::<u8>::empty());
        assert(buf@ =~= spec_enc_step_entries(taken(0), recalc));
    }
    let mut i: usize = 0;
    while i < n
        invariant
            i <= n,
            n == obs_list.len(),
            reward_list.len() == obs_list.len(),
            terminated_list.len() == obs_list.len(),
            truncated_list.len() == obs_list.len(),
            recalc == (agent_id_list_option is Some),
            agent_id_list_option matches Some(ids) ==> ids.len() == obs_list.len(),
            full == (StepEntriesView {
                agent_ids: match agent_id_list_option {
                    Some(ids) => ids@,
                    None => Seq::<AgentId>::empty(),
                },
                obs: obs_list.deep_view(),
                rewards: reward_list.deep_view(),
                terminateds: terminated_list@,
                truncateds: truncated_list@,
            }),
            taken == (|j: int|
                StepEntriesView {
                    agent_ids: if recalc {
                        full.agent_ids.take(j)
                    } else {
                        Seq::<AgentId>::empty()
                    },
                    obs: full.obs.take(j),
                    rewards: full.rewards.take(j),
                    terminateds: full.terminateds.take(j),
                    truncateds: full.truncateds.take(j),
                }),
            buf@ == spec_enc_step_entries(taken(i as int), recalc),
        decreases n - i,
    {
        let ghost x = StepEntryView {
            agent_id: if recalc {
                Some(full.agent_ids[i as int])
            } else {
                None
            },
            ob: full.obs[i as int],
            rw: full.rewards[i as int],
            tm: full.terminateds[i as int],
            tc: full.truncateds[i as int],
        };
        proof {
            assert(spec_wf_step_entries(taken(i as int), i as nat, recalc));
            lemma_enc_step_entries_push(taken(i as int), x, i as nat, recalc);
            assert(spec_step_entries_push(taken(i as int), x).agent_ids =~= taken(
                i + 1,
            ).agent_ids);
            assert(spec_step_entries_push(taken(i as int), x).obs =~~= taken(i + 1).obs);
            assert(spec_step_entries_push(taken(i as int), x).rewards =~~= taken(i + 1).rewards);
            assert(spec_step_entries_push(taken(i as int), x).terminateds =~= taken(
                i + 1,
            ).terminateds);
            assert(spec_step_entries_push(taken(i as int), x).truncateds =~= taken(
                i + 1,
            ).truncateds);
            assert(spec_step_entries_push(taken(i as int), x) =~~= taken(i + 1));
        }
        match agent_id_list_option {
            Some(ids) => {
                append_u64(&mut buf, ids[i]);
            },
            None => {},
        }
        append_payload(&mut buf, &obs_list[i]);
        append_payload(&mut buf, &reward_list[i]);
        append_bool(&mut buf, terminated_list[i]);
        append_bool(&mut buf, truncated_list[i]);
        proof {
            assert(obs_list@[i as int]@ == full.obs[i as int]);
            assert(reward_list@[i as int]@ == full.rewards[i as int]);
            assert(buf@ =~= spec_enc_step_entries(taken(i as int), recalc) + spec_enc_step_entry(
                x,
            ));
            assert(buf@ =~= spec_enc_step_entries(taken(i + 1), recalc));
        }
        i = i + 1;
    }
    proof {
        assert(taken(n as int).agent_ids =~= full.agent_ids);
        assert(taken(n as int).obs =~~= full.obs);
        assert(taken(n as int).rewards =~~= full.rewards);
        assert(taken(n as int).terminateds =~= full.terminateds);
        assert(taken(n as int).truncateds =~= full.truncateds);
        assert(taken(n as int) =~~= full);
    }
    buf
}

/// Writes the step layout for the given columns: the exact bytes a
/// conforming worker places in shared memory after a STEP. Agent ids are
/// included exactly when `agent_id_list_option` is present.
#[verifier::spinoff_prover]
pub fn encode_step_response(
    agent_id_list_option: &Option<Vec<AgentId>>,
    obs_list: &Vec<Payload>,
    reward_list: &Vec<Payload>,
    terminated_list: &Vec<bool>,
    truncated_list: &Vec<bool>,
    state_option: &Option<Payload>,
    metrics_option: &Option<Payload>,
) -> (r: Vec<u8>)
    requires
        reward_list.len() == obs_list.len(),
        terminated_list.len() == obs_list.len(),
        truncated_list.len() == obs_list.len(),
        agent_id_list_option matches Some(ids) ==> ids.len() == obs_list.len(),
    ensures
        spec_dec_step_response(
            r@,
            0,
            obs_list.len() as nat,
            agent_id_list_option is Some,
            state_option is Some,
            metrics_option is Some,
        ) == Some(
            (
                StepResponseView {
                    agent_ids: agent_id_list_option.deep_view(),
                    obs: obs_list.deep_view(),
                    rewards: reward_list.deep_view(),
                    terminateds: terminated_list@,
                    truncateds: truncated_list@,
                    state: state_option.deep_view(),
                    metrics: metrics_option.deep_view(),
                },
                r@.len() as int,
            ),
        ),
{
    let recalc = agent_id_list_option.is_some();
    let n = obs_list.len();
    let ghost full = StepEntriesView {
        agent_ids: match agent_id_list_option {
            Some(ids) => ids@,
            None => Seq::<AgentId>::empty(),
        },
        obs: obs_list.deep_view(),
        rewards: reward_list.deep_view(),
        terminateds: terminated_list@,
        truncateds: truncated_list@,
    };
    let mut buf = encode_step_entries(
        agent_id_list_option,
        obs_list,
        reward_list,
        terminated_list,
        truncated_list,
    );
    match state_option {
        Some(p) => {
            append_payload(&mut buf, p);
            proof {
                assert(state_option.deep_view() =~~= Some(p@));
            }
        },
        None => {
            proof {
                assert(state_option.deep_view() =~~= None::<Seq<u8>>);
            }
        },
    }
    match metrics_option {
        Some(p) => {
            append_payload(&mut buf, p);
            proof {
                assert(metrics_option.deep_view() =~~= Some(p@));
            }
        },
        None => {
            proof {
                assert(metrics_option.deep_view() =~~= None::<Seq<u8>>);
            }
        },
    }
    proof {
        assert(buf@ =~= spec_enc_step_entries(full, recalc) + spec_enc_opt_payload(
            state_option.deep_view(),
        ) + spec_enc_opt_payload(metrics_option.deep_view()));
        assert forall|j: int| 0 <= j < full.obs.len() implies #[trigger] full.obs[j].len()
            <= u64::MAX by {
            assert(full.obs[j] == obs_list@[j]@);
            crate::wire::lemma_payload_len_bound(obs_list@[j]);
        }
        assert forall|j: int| 0 <= j < full.rewards.len() implies #[trigger] full.rewards[j].len()
            <= u64::MAX by {
            assert(full.rewards[j] == reward_list@[j]@);
            crate::wire::lemma_payload_len_bound(reward_list@[j]);
        }
        match state_option {
            Some(p) => {
                crate::wire::lemma_payload_len_bound(*p);
            },
            None => {},
        }
        match metrics_option {
            Some(p) => {
                crate::wire::lemma_payload_len_bound(*p);
            },
            None => {},
        }
        assert(spec_wf_step_entries(full, n as nat, recalc));
        lemma_dec_step_response_of_enc(
            full,
            n as nat,
            recalc,
            state_option.deep_view(),
            metrics_option.deep_view(),
        );
        match agent_id_list_option {
            Some(ids) => {
                assert(agent_id_list_option.deep_view() =~~= Some(ids@));
            },
            None => {
                assert(agent_id_list_option.deep_view() =~~= None::<Seq<AgentId>>);
            },
        }
    }
    buf
}

/// Writes the reply to a shapes request.
pub fn encode_shapes_response(obs_space: &Payload, action_space: &Payload) -> (r: Vec<u8>)
    ensures
        spec_dec_shapes_response(r@, 0) == Some(((obs_space@, action_space@), r@.len() as int)),
{
    let mut buf: Vec<u8> = Vec::new();
    append_payload(&mut buf, obs_space);
    append_payload(&mut buf, action_space);
    proof {
        lemma_auto_spec_u64_to_from_le_bytes();
        crate::wire::lemma_payload_len_bound(*obs_space);
        crate::wire::lemma_payload_len_bound(*action_space);
        assert(buf@ =~= Seq::<u8>::empty() + spec_enc_payload(obs_space@) + spec_enc_payload(
            action_space@,
        ));
        lemma_dec_payload_of_enc(Seq::<u8>::empty(), obs_space@, spec_enc_payload(action_space@));
        let pre2 = Seq::<u8>::empty() + spec_enc_payload(obs_space@);
        assert(buf@ =~= pre2 + spec_enc_payload(action_space@) + Seq::<u8>::empty());
        lemma_dec_payload_of_enc(pre2, action_space@, Seq::<u8>::empty());
        assert(buf@.len() == pre2.len() + spec_enc_payload(action_space@).len());
    }
    buf
}

/// Reads a new-episode (or initial) response from the start of `buf`.
/// Bytes past the decoded portion are ignored.
pub fn parse_episode_response(buf: &[u8], with_state: bool, with_metrics: bool) -> (r: Result<
    (EpisodeResponse, usize),
    EpiError,
>)
    ensures
        match r {
            Ok(v) => spec_dec_episode_response(buf@, 0, with_state, with_metrics) == Some(
                (v.0@, v.1 as int),
            ),
            Err(e) => spec_dec_episode_response(buf@, 0, with_state, with_metrics) is None && e
                == EpiError::CodecFailed,
        },
{
    let (n_u64, off0) = match retrieve_u64(buf, 0) {
        Some(v) => v,
        None => {
            return Err(EpiError::CodecFailed);
        },
    };
    if n_u64 > buf.len() as u64 {
        proof {
            lemma_dec_id_obs_list_bounds(buf@, off0 as int, n_u64 as nat);
        }
        return Err(EpiError::CodecFailed);
    }
    let n = n_u64 as usize;
    let mut agent_id_list: Vec<AgentId> = Vec::new();
    let mut obs_list: Vec<Payload> = Vec::new();
    let mut off = off0;
    let mut i: usize = 0;
    while i < n
        invariant
            i <= n,
            n == n_u64,
            spec_dec_u64(buf@, 0) == Some((n_u64, off0 as int)),
            spec_dec_id_obs_list(buf@, off0 as int, i as nat) == Some(
                ((agent_id_list@, obs_list.deep_view()), off as int),
            ),
        decreases n - i,
    {
        let ghost ids_old = agent_id_list@;
        let ghost obs_old = obs_list.deep_view();
        let (id, o1) = match retrieve_u64(buf, off) {
            Some(v) => v,
            None => {
                proof {
                    lemma_dec_id_obs_list_split(buf@, off0 as int, i as nat, (n - i) as nat);
                    assert((n - i) as nat != 0);
                    assert(spec_dec_id_obs_list(buf@, off as int, (n - i) as nat) is None);
                    assert(i as nat + (n - i) as nat == n_u64 as nat);
                    assert(spec_dec_id_obs_list(buf@, off0 as int, n_u64 as nat) is None);
                }
                return Err(EpiError::CodecFailed);
            },
        };
        let (ob, o2) = match retrieve_payload(buf, o1) {
            Some(v) => v,
            None => {
                proof {
                    lemma_dec_id_obs_list_split(buf@, off0 as int, i as nat, (n - i) as nat);
                    assert((n - i) as nat != 0);
                    assert(spec_dec_id_obs_list(buf@, off as int, (n - i) as nat) is None);
                    assert(i as nat + (n - i) as nat == n_u64 as nat);
                    assert(spec_dec_id_obs_list(buf@, off0 as int, n_u64 as nat) is None);
                }
                return Err(EpiError::CodecFailed);
            },
        };
        let ghost obv = ob@;
        proof {
            lemma_dec_id_obs_list_split(buf@, off0 as int, i as nat, 1nat);
            assert(spec_dec_id_obs_list(buf@, o2 as int, 0nat) == Some(
                ((Seq::<AgentId>::empty(), Seq::<Seq<u8>>::empty()), o2 as int),
            ));
            assert(seq![id] + Seq::<AgentId>::empty() =~= seq![id]);
            assert(seq![obv] + Seq::<Seq<u8>>::empty() =~= seq![obv]);
            assert(spec_dec_id_obs_list(buf@, off as int, 1nat) == Some(
                ((seq![id], seq![obv]), o2 as int),
            ));
            assert(spec_dec_id_obs_list(buf@, off0 as int, (i + 1) as nat) == Some(
                ((ids_old + seq![id], obs_old + seq![obv]), o2 as int),
            ));
        }
        agent_id_list.push(id);
        obs_list.push(ob);
        off = o2;
        i = i + 1;
        proof {
            assert(agent_id_list@ =~= ids_old + seq![id]);
            assert(obs_list.deep_view() =~~= obs_old + seq![obv]);
        }
    }
    let ghost off_items = off as int;
    let state_option: Option<Payload>;
    if with_state {
        match retrieve_payload(buf, off) {
            Some((p, o)) => {
                let ghost pv = p@;
                state_option = Some(p);
                off = o;
                proof {
                    assert(state_option.deep_view() =~~= Some(pv));
                }
            },
            None => {
                return Err(EpiError::CodecFailed);
            },
        }
    } else {
        state_option = None;
    }
    proof {
        assert(spec_dec_opt_payload(buf@, off_items, with_state) == Some(
            (state_option.deep_view(), off as int),
        ));
    }
    let ghost off_state = off as int;
    let metrics_option: Option<Payload>;
    if with_metrics {
        match retrieve_payload(buf, off) {
            Some((p, o)) => {
                let ghost pv = p@;
                metrics_option = Some(p);
                off = o;
                proof {
                    assert(metrics_option.deep_view() =~~= Some(pv));
                }
            },
            None => {
                return Err(EpiError::CodecFailed);
            },
        }
    } else {
        metrics_option = None;
    }
    proof {
        assert(spec_dec_opt_payload(buf@, off_state, with_metrics) == Some(
            (metrics_option.deep_view(), off as int),
        ));
    }
    let resp = EpisodeResponse { agent_id_list, obs_list, state_option, metrics_option };
    proof {
        assert(spec_dec_episode_response(buf@, 0, with_state, with_metrics) == Some(
            (resp@, off as int),
        ));
    }
    Ok((resp, off))
}

/// Reads a step response for `n_agents` agents from the start of `buf`.
/// Bytes past the decoded portion are ignored.
pub fn parse_step_response(
    buf: &[u8],
    n_agents: usize,
    recalc: bool,
    with_state: bool,
    with_metrics: bool,
) -> (r: Result<(StepResponse, usize), EpiError>)
    ensures
        match r {
            Ok(v) => spec_dec_step_response(
                buf@,
                0,
                n_agents as nat,
                recalc,
                with_state,
                with_metrics,
            ) == Some((v.0@, v.1 as int)),
            Err(e) => spec_dec_step_response(
                buf@,
                0,
                n_agents as nat,
                recalc,
                with_state,
                with_metrics,
            ) is None && e == EpiError::CodecFailed,
        },
{
    let mut agent_id_list: Vec<AgentId> = Vec::new();
    let mut obs_list: Vec<Payload> = Vec::new();
    let mut reward_list: Vec<Payload> = Vec::new();
    let mut terminated_list: Vec<bool> = Vec::new();
    let mut truncated_list: Vec<bool> = Vec::new();
    let mut off: usize = 0;
    let mut i: usize = 0;
    proof {
        assert(agent_id_list@ =~= Seq::<AgentId>::empty());
        assert(obs_list.deep_view() =~~= Seq::<Seq<u8>>::empty());
        assert(reward_list.deep_view() =~~= Seq::<Seq<u8>>::empty());
        assert(terminated_list@ =~= Seq::<bool>::empty());
        assert(truncated_list@ =~= Seq::<bool>::empty());
        assert(StepEntriesView {
            agent_ids: agent_id_list@,
            obs: obs_list.deep_view(),
            rewards: reward_list.deep_view(),
            terminateds: terminated_list@,
            truncateds: truncated_list@,
        } =~~= spec_empty_step_entries());
    }
    while i < n_agents
        invariant
            i <= n_agents,
            agent_id_list@.len() == (if recalc {
                i as int
            } else {
                0int
            }),
            spec_dec_step_entries(buf@, 0, i as nat, recalc) == Some(
                (
                    StepEntriesView {
                        agent_ids: agent_id_list@,
                        obs: obs_list.deep_view(),
                        rewards: reward_list.deep_view(),
                        terminateds: terminated_list@,
                        truncateds: truncated_list@,
                    },
                    off as int,
                ),
            ),
        decreases n_agents - i,
    {
        let ghost e_old = StepEntriesView {
            agent_ids: agent_id_list@,
            obs: obs_list.deep_view(),
            rewards: reward_list.deep_view(),
            terminateds: terminated_list@,
            truncateds: truncated_list@,
        };
        let id_option: Option<AgentId>;
        let o1: usize;
        if recalc {
            match retrieve_u64(buf, off) {
                Some((id, o)) => {
                    id_option = Some(id);
                    o1 = o;
                },
                None => {
                    proof {
                        assert(spec_dec_step_entry(buf@, off as int, recalc) is None);
                        lemma_dec_step_entries_split(buf@, 0, i as nat, (n_agents - i) as nat, recalc);
                        assert(spec_dec_step_entries(buf@, off as int, (n_agents - i) as nat, recalc)
                            is None);
                        assert(i as nat + (n_agents - i) as nat == n_agents as nat);
                        assert(spec_dec_step_entries(buf@, 0, n_agents as nat, recalc) is None);
                    }
                    return Err(EpiError::CodecFailed);
                },
            }
        } else {
            id_option = None;
            o1 = off;
        }
        let (ob, o2) = match retrieve_payload(buf, o1) {
            Some(v) => v,
            None => {
                proof {
                    assert(spec_dec_step_entry(buf@, off as int, recalc) is None);
                    lemma_dec_step_entries_split(buf@, 0, i as nat, (n_agents - i) as nat, recalc);
                    assert(spec_dec_step_entries(buf@, off as int, (n_agents - i) as nat, recalc)
                        is None);
                    assert(i as nat + (n_agents - i) as nat == n_agents as nat);
                    assert(spec_dec_step_entries(buf@, 0, n_agents as nat, recalc) is None);
                }
                return Err(EpiError::CodecFailed);
            },
        };
        let (rw, o3) = match retrieve_payload(buf, o2) {
            Some(v) => v,
            None => {
                proof {
                    assert(spec_dec_step_entry(buf@, off as int, recalc) is None);
                    lemma_dec_step_entries_split(buf@, 0, i as nat, (n_agents - i) as nat, recalc);
                    assert(spec_dec_step_entries(buf@, off as int, (n_agents - i) as nat, recalc)
                        is None);
                    assert(i as nat + (n_agents - i) as nat == n_agents as nat);
                    assert(spec_dec_step_entries(buf@, 0, n_agents as nat, recalc) is None);
                }
                return Err(EpiError::CodecFailed);
            },
        };
        let (tm, o4) = match retrieve_bool(buf, o3) {
            Some(v) => v,
            None => {
                proof {
                    assert(spec_dec_step_entry(buf@, off as int, recalc) is None);
                    lemma_dec_step_entries_split(buf@, 0, i as nat, (n_agents - i) as nat, recalc);
                    assert(spec_dec_step_entries(buf@, off as int, (n_agents - i) as nat, recalc)
                        is None);
                    assert(i as nat + (n_agents - i) as nat == n_agents as nat);
                    assert(spec_dec_step_entries(buf@, 0, n_agents as nat, recalc) is None);
                }
                return Err(EpiError::CodecFailed);
            },
        };
        let (tc, o5) = match retrieve_bool(buf, o4) {
            Some(v) => v,
            None => {
                proof {
                    assert(spec_dec_step_entry(buf@, off as int, recalc) is None);
                    lemma_dec_step_entries_split(buf@, 0, i as nat, (n_agents - i) as nat, recalc);
                    assert(spec_dec_step_entries(buf@, off as int, (n_agents - i) as nat, recalc)
                        is None);
                    assert(i as nat + (n_agents - i) as nat == n_agents as nat);
                    assert(spec_dec_step_entries(buf@, 0, n_agents as nat, recalc) is None);
                }
                return Err(EpiError::CodecFailed);
            },
        };
        let ghost x = StepEntryView { agent_id: id_option, ob: ob@, rw: rw@, tm, tc };
        proof {
            assert(spec_dec_step_entry(buf@, off as int, recalc) == Some((x, o5 as int)));
            lemma_dec_step_entries_split(buf@, 0, i as nat, 1nat, recalc);
            assert(spec_dec_step_entries(buf@, o5 as int, 0nat, recalc) == Some(
                (spec_empty_step_entries(), o5 as int),
            ));
            assert(spec_dec_step_entries(buf@, off as int, 1nat, recalc) == Some(
                (spec_step_entries_cons(x, spec_empty_step_entries()), o5 as int),
            ));
        }
        if let Some(id) = id_option {
            agent_id_list.push(id);
        }
        obs_list.push(ob);
        reward_list.push(rw);
        terminated_list.push(tm);
        truncated_list.push(tc);
        off = o5;
        i = i + 1;
        proof {
            let e_new = StepEntriesView {
                agent_ids: agent_id_list@,
                obs: obs_list.deep_view(),
                rewards: reward_list.deep_view(),
                terminateds: terminated_list@,
                truncateds: truncated_list@,
            };
            let e_one = spec_step_entries_cons(x, spec_empty_step_entries());
            assert(e_new.agent_ids =~= e_old.agent_ids + e_one.agent_ids);
            assert(e_new.obs =~~= e_old.obs + e_one.obs);
            assert(e_new.rewards =~~= e_old.rewards + e_one.rewards);
            assert(e_new.terminateds =~= e_old.terminateds + e_one.terminateds);
            assert(e_new.truncateds =~= e_old.truncateds + e_one.truncateds);
            assert(spec_dec_step_entries(buf@, 0, (i as nat), recalc) == Some(
                (e_new, off as int),
            ));
        }
    }
    let ghost off_items = off as int;
    let state_option: Option<Payload>;
    if with_state {
        match retrieve_payload(buf, off) {
            Some((p, o)) => {
                let ghost pv = p@;
                state_option = Some(p);
                off = o;
                proof {
                    assert(state_option.deep_view() =~~= Some(pv));
                }
            },
            None => {
                return Err(EpiError::CodecFailed);
            },
        }
    } else {
        state_option = None;
    }
    proof {
        assert(spec_dec_opt_payload(buf@, off_items, with_state) == Some(
            (state_option.deep_view(), off as int),
        ));
    }
    let ghost off_state = off as int;
    let metrics_option: Option<Payload>;
    if with_metrics {
        match retrieve_payload(buf, off) {
            Some((p, o)) => {
                let ghost pv = p@;
                metrics_option = Some(p);
                off = o;
                proof {
                    assert(metrics_option.deep_view() =~~= Some(pv));
                }
            },
            None => {
                return Err(EpiError::CodecFailed);
            },
        }
    } else {
        metrics_option = None;
    }
    proof {
        assert(spec_dec_opt_payload(buf@, off_state, with_metrics) == Some(
            (metrics_option.deep_view(), off as int),
        ));
    }
    let ghost idsv = agent_id_list@;
    let agent_id_list_option: Option<Vec<AgentId>> = if recalc {
        Some(agent_id_list)
    } else {
        None
    };
    proof {
        if recalc {
            assert(agent_id_list_option.deep_view() =~~= Some(idsv));
        } else {
            assert(agent_id_list_option.deep_view() =~~= None::<Seq<AgentId>>);
        }
    }
    let resp = StepResponse {
        agent_id_list_option,
        obs_list,
        reward_list,
        terminated_list,
        truncated_list,
        state_option,
        metrics_option,
    };
    proof {
        assert(spec_dec_step_response(buf@, 0, n_agents as nat, recalc, with_state, with_metrics)
            == Some((resp@, off as int)));
    }
    Ok((resp, off))
}

/// Reads the reply to a shapes request from the start of `buf`.
pub fn parse_shapes_response(buf: &[u8]) -> (r: Result<((Payload, Payload), usize), EpiError>)
    ensures
        match r {
            Ok(v) => spec_dec_shapes_response(buf@, 0) == Some(
                ((v.0.0@, v.0.1@), v.1 as int),
            ),
            Err(e) => spec_dec_shapes_response(buf@, 0) is None && e == EpiError::CodecFailed,
        },
{
    let (obs_space, o1) = match retrieve_payload(buf, 0) {
        Some(v) => v,
        None => {
            return Err(EpiError::CodecFailed);
        },
    };
    let (action_space, o2) = match retrieve_payload(buf, o1) {
        Some(v) => v,
        None => {
            return Err(EpiError::CodecFailed);
        },
    };
    Ok(((obs_space, action_space), o2))
}

} // verus!
