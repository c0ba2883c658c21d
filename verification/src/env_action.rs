use vstd::prelude::*;

verus! {

use vstd::slice::{slice_index_get, slice_to_vec};
use crate::{Payload, AgentId, TimestepId, EpiError};
use crate::wire::{
    spec_enc_payload, spec_dec_payload, append_payload, retrieve_payload, clone_payload,
    lemma_dec_payload_of_enc,
};

// The command framing written by the parent into a worker's shared-memory
// payload area: a one-byte header tag, and for the EnvAction command a
// tagged payload holding the command variant.

/// Header tag written at payload offset 0 of a command frame.
#[derive(Clone, Copy)]
pub enum Header {
    EnvShapesRequest,
    EnvAction,
    Stop,
}

pub open spec fn spec_header_byte(h: Header) -> u8 {
    match h {
        Header::EnvShapesRequest => 0u8,
        Header::EnvAction => 1u8,
        Header::Stop => 2u8,
    }
}

pub fn append_header(buf: &mut Vec<u8>, h: Header)
    ensures
        final(buf)@ == old(buf)@ + seq![spec_header_byte(h)],
{
    let b: u8 = match h {
        Header::EnvShapesRequest => 0,
        Header::EnvAction => 1,
        Header::Stop => 2,
    };
    buf.push(b);
    proof {
        assert(buf@ =~= old(buf)@ + seq![spec_header_byte(h)]);
    }
}

/// The command sent to a worker: advance the episode by one step, start a
/// fresh episode, or force the environment into a desired state.
#[allow(non_camel_case_types)]
#[derive(Debug)]
pub enum EnvAction {
    STEP {
        action_list: Vec<Payload>,
        action_associated_learning_data: Payload,
    },
    RESET {},
    SET_STATE {
        desired_state: Payload,
        prev_timestep_id_dict_option: Option<Vec<(AgentId, Option<TimestepId>)>>,
    },
}

/// Mathematical image of an `EnvAction`.
#[allow(non_camel_case_types)]
#[verifier::ext_equal]
pub ghost enum EnvActionView {
    STEP {
        action_list: Seq<Seq<u8>>,
        action_associated_learning_data: Seq<u8>,
    },
    RESET {},
    SET_STATE {
        desired_state: Seq<u8>,
        prev_timestep_id_dict_option: Option<Seq<(AgentId, Option<TimestepId>)>>,
    },
}

impl View for EnvAction {
    type V = EnvActionView;

    open spec fn view(&self) -> EnvActionView {
        match self {
            EnvAction::STEP { action_list, action_associated_learning_data } => {
                EnvActionView::STEP {
                    action_list: action_list.deep_view(),
                    action_associated_learning_data: action_associated_learning_data@,
                }
            },
            EnvAction::RESET {} => EnvActionView::RESET {},
            EnvAction::SET_STATE { desired_state, prev_timestep_id_dict_option } => {
                EnvActionView::SET_STATE {
                    desired_state: desired_state@,
                    prev_timestep_id_dict_option: match prev_timestep_id_dict_option {
                        Some(d) => Some(d@),
                        None => None,
                    },
                }
            },
        }
    }
}

/// The learner-facing counterpart of `EnvAction`, exposed at the boundary
/// for agent controllers.
#[allow(non_camel_case_types)]
pub enum EnvActionResponse {
    STEP(),
    RESET(),
    SET_STATE(Payload, Option<Vec<(AgentId, Option<TimestepId>)>>),
}

/// Discriminator for `EnvActionResponse`.
#[allow(non_camel_case_types)]
#[derive(Clone, Copy, Debug, PartialEq, Eq, Structural)]
pub enum EnvActionResponseType {
    STEP,
    RESET,
    SET_STATE,
}

impl EnvActionResponse {
    pub open spec fn spec_enum_type(&self) -> EnvActionResponseType {
        match self {
            EnvActionResponse::STEP() => EnvActionResponseType::STEP,
            EnvActionResponse::RESET() => EnvActionResponseType::RESET,
            EnvActionResponse::SET_STATE(_, _) => EnvActionResponseType::SET_STATE,
        }
    }

    pub fn enum_type(&self) -> (r: EnvActionResponseType)
        ensures
            r == self.spec_enum_type(),
    {
        match self {
            EnvActionResponse::STEP() => EnvActionResponseType::STEP,
            EnvActionResponse::RESET() => EnvActionResponseType::RESET,
            EnvActionResponse::SET_STATE(_, _) => EnvActionResponseType::SET_STATE,
        }
    }

    pub fn desired_state(&self) -> (r: Option<Payload>)
        ensures
            match self {
                EnvActionResponse::SET_STATE(s, _) => r matches Some(p) && p@ == s@,
                _ => r is None,
            },
    {
        match self {
            EnvActionResponse::SET_STATE(desired_state, _) => Some(clone_payload(desired_state)),
            _ => None,
        }
    }

    pub fn prev_timestep_id_dict(&self) -> (r: Option<Vec<(AgentId, Option<TimestepId>)>>)
        ensures
            match self {
                EnvActionResponse::SET_STATE(_, Some(d)) => r matches Some(rd) && rd@ == d@,
                _ => r is None,
            },
    {
        match self {
            EnvActionResponse::SET_STATE(_, Some(d)) => Some(slice_to_vec(d.as_slice())),
            _ => None,
        }
    }
}

// Wire form of an EnvAction (parent to worker), after the header byte:
// byte 0 is the variant tag (0 STEP, 1 RESET, 2 SET_STATE); a STEP carries
// the encoded actions back to back with no count (both sides hold the agent
// count as shadow state); a RESET carries nothing; a SET_STATE carries one
// encoded state. The learning data of a STEP and the previous-timestep
// map of a SET_STATE are deliberately not carried on the wire.

pub open spec fn spec_enc_action_list(l: Seq<Seq<u8>>) -> Seq<u8>
    decreases l.len(),
{
    if l.len() == 0 {
        Seq::<u8>::empty()
    } else {
        spec_enc_payload(l.first()) + spec_enc_action_list(l.drop_first())
    }
}

pub open spec fn spec_enc_env_action(a: EnvActionView) -> Seq<u8> {
    match a {
        EnvActionView::STEP { action_list, .. } => seq![0u8] + spec_enc_action_list(action_list),
        EnvActionView::RESET {} => seq![1u8],
        EnvActionView::SET_STATE { desired_state, .. } => seq![2u8] + spec_enc_payload(
            desired_state,
        ),
    }
}

pub open spec fn spec_dec_action_list(s: Seq<u8>, off: int, n: nat) -> Option<(Seq<Seq<u8>>, int)>
    decreases n,
{
    if n == 0 {
        Some((Seq::<Seq<u8>>::empty(), off))
    } else {
        match spec_dec_payload(s, off) {
            Some((p, o2)) => match spec_dec_action_list(s, o2, (n - 1) as nat) {
                Some((l, o3)) => Some((seq![p] + l, o3)),
                None => None,
            },
            None => None,
        }
    }
}

pub open spec fn spec_dec_env_action(s: Seq<u8>, off: int, n_actions: nat) -> Option<
    (EnvActionView, int),
> {
    if 0 <= off && off < s.len() {
        if s[off] == 0u8 {
            match spec_dec_action_list(s, off + 1, n_actions) {
                Some((l, o)) => Some(
                    (
                        EnvActionView::STEP {
                            action_list: l,
                            action_associated_learning_data: Seq::<u8>::empty(),
                        },
                        o,
                    ),
                ),
                None => None,
            }
        } else if s[off] == 1u8 {
            Some((EnvActionView::RESET {}, off + 1))
        } else if s[off] == 2u8 {
            match spec_dec_payload(s, off + 1) {
                Some((p, o)) => Some(
                    (
                        EnvActionView::SET_STATE {
                            desired_state: p,
                            prev_timestep_id_dict_option: None,
                        },
                        o,
                    ),
                ),
                None => None,
            }
        } else {
            None
        }
    } else {
        None
    }
}

proof fn lemma_enc_action_list_push(l: Seq<Seq<u8>>, x: Seq<u8>)
    ensures
        spec_enc_action_list(l.push(x)) == spec_enc_action_list(l) + spec_enc_payload(x),
    decreases l.len(),
{
    if l.len() == 0 {
        assert(l.push(x).first() == x);
        assert(l.push(x).drop_first() =~= Seq::<Seq<u8>>::empty());
        assert(spec_enc_action_list(l.push(x)) == spec_enc_payload(x) + spec_enc_action_list(
            Seq::<Seq<u8>>::empty(),
        ));
        assert(spec_enc_payload(x) + Seq::<u8>::empty() =~= spec_enc_payload(x));
        assert(spec_enc_action_list(l) == Seq::<u8>::empty());
        assert(Seq::<u8>::empty() + spec_enc_payload(x) =~= spec_enc_payload(x));
    } else {
        assert(l.push(x).first() == l.first());
        assert(l.push(x).drop_first() =~= l.drop_first().push(x));
        lemma_enc_action_list_push(l.drop_first(), x);
        assert(spec_enc_payload(l.first()) + (spec_enc_action_list(l.drop_first())
            + spec_enc_payload(x)) =~= (spec_enc_payload(l.first()) + spec_enc_action_list(
            l.drop_first(),
        )) + spec_enc_payload(x));
    }
}

proof fn lemma_dec_action_list_split(s: Seq<u8>, off: int, a: nat, b: nat)
    ensures
        spec_dec_action_list(s, off, a + b) == (match spec_dec_action_list(s, off, a) {
            Some((l1, o1)) => match spec_dec_action_list(s, o1, b) {
                Some((l2, o2)) => Some((l1 + l2, o2)),
                None => None::<(Seq<Seq<u8>>, int)>,
            },
            None => None::<(Seq<Seq<u8>>, int)>,
        }),
    decreases a,
{
    if a == 0 {
        match spec_dec_action_list(s, off, b) {
            Some((l2, o2)) => {
                assert(Seq::<Seq<u8>>::empty() + l2 =~= l2);
            },
            None => {},
        }
    } else {
        match spec_dec_payload(s, off) {
            Some((p, o2)) => {
                lemma_dec_action_list_split(s, o2, (a - 1) as nat, b);
                match spec_dec_action_list(s, o2, (a - 1) as nat) {
                    Some((l1, o3)) => {
                        match spec_dec_action_list(s, o3, b) {
                            Some((l2, o4)) => {
                                assert(seq![p] + (l1 + l2) =~= (seq![p] + l1) + l2);
                            },
                            None => {},
                        }
                    },
                    None => {},
                }
            },
            None => {},
        }
    }
}

/// Decoding an encoded action list right after an arbitrary prefix
/// recovers the list, whatever bytes follow.
proof fn lemma_dec_action_list_of_enc(pre: Seq<u8>, l: Seq<Seq<u8>>, rest: Seq<u8>)
    requires
        forall|i: int| 0 <= i < l.len() ==> #[trigger] l[i].len() <= u64::MAX,
    ensures
        spec_dec_action_list(pre + spec_enc_action_list(l) + rest, pre.len() as int, l.len())
            == Some((l, pre.len() + spec_enc_action_list(l).len() as int)),
    decreases l.len(),
{
    vstd::bytes::lemma_auto_spec_u64_to_from_le_bytes();
    let s = pre + spec_enc_action_list(l) + rest;
    if l.len() == 0 {
        assert(s =~= pre + rest);
        assert(l =~= Seq::<Seq<u8>>::empty());
        assert(spec_dec_action_list(s, pre.len() as int, l.len()) == Some(
            (Seq::<Seq<u8>>::empty(), pre.len() as int),
        ));
        assert(spec_enc_action_list(l).len() == 0);
    } else {
        let tail_enc = spec_enc_action_list(l.drop_first());
        assert(s =~= pre + spec_enc_payload(l.first()) + (tail_enc + rest));
        lemma_dec_payload_of_enc(pre, l.first(), tail_enc + rest);
        let pre2 = pre + spec_enc_payload(l.first());
        lemma_dec_action_list_of_enc(pre2, l.drop_first(), rest);
        assert(pre2 + tail_enc + rest =~= s);
        let n1 = (l.len() - 1) as nat;
        assert(l.drop_first().len() == n1);
        assert(spec_dec_payload(s, pre.len() as int) == Some((l.first(), pre2.len() as int)));
        assert(spec_dec_action_list(s, pre2.len() as int, n1) == Some(
            (l.drop_first(), pre2.len() + tail_enc.len() as int),
        ));
        assert(spec_dec_action_list(s, pre.len() as int, l.len()) == Some(
            (seq![l.first()] + l.drop_first(), pre2.len() + tail_enc.len() as int),
        ));
        assert(seq![l.first()] + l.drop_first() =~= l);
        assert(spec_enc_action_list(l).len() == spec_enc_payload(l.first()).len()
            + tail_enc.len());
    }
}

/// Appends the wire form of an `EnvAction` (without the header byte) and
/// returns the length of the buffer afterwards.
pub fn append_env_action_new(buf: &mut Vec<u8>, env_action: &EnvAction) -> (r: usize)
    ensures
        final(buf)@ == old(buf)@ + spec_enc_env_action(env_action@),
        r == final(buf)@.len(),
{
    match env_action {
        EnvAction::STEP { action_list, .. } => {
            buf.push(0u8);
            proof {
                assert(buf@ =~= old(buf)@ + seq![0u8]);
            }
            let ghost l: Seq<Seq<u8>> = action_list.deep_view();
            let mut i: usize = 0;
            while i < action_list.len()
                invariant
                    i <= action_list.len(),
                    l == action_list.deep_view(),
                    buf@ == old(buf)@ + seq![0u8] + spec_enc_action_list(l.take(i as int)),
                decreases action_list.len() - i,
            {
                proof {
                    assert(l.take(i as int).push(l[i as int]) =~= l.take(i + 1));
                    lemma_enc_action_list_push(l.take(i as int), l[i as int]);
                }
                append_payload(buf, &action_list[i]);
                proof {
                    assert(action_list[i as int]@ == l[i as int]);
                    assert(buf@ =~= old(buf)@ + seq![0u8] + spec_enc_action_list(l.take(i + 1)));
                }
                i = i + 1;
            }
            proof {
                assert(l.take(action_list.len() as int) =~= l);
                assert(buf@ =~= old(buf)@ + spec_enc_env_action(env_action@));
            }
        },
        EnvAction::RESET {} => {
            buf.push(1u8);
            proof {
                assert(buf@ =~= old(buf)@ + spec_enc_env_action(env_action@));
            }
        },
        EnvAction::SET_STATE { desired_state, .. } => {
            buf.push(2u8);
            proof {
                assert(buf@ =~= old(buf)@ + seq![2u8]);
            }
            append_payload(buf, desired_state);
            proof {
                assert(buf@ =~= old(buf)@ + spec_enc_env_action(env_action@));
            }
        },
    }
    buf.len()
}

/// Reads back the wire form of an `EnvAction` (without the header byte).
/// The fields that are not carried on the wire come back empty: a STEP's
/// learning data and a SET_STATE's previous-timestep map.
pub fn retrieve_env_action_new(buf: &[u8], offset: usize, n_actions: usize) -> (r: Result<
    (EnvAction, usize),
    EpiError,
>)
    ensures
        match r {
            Ok(v) => spec_dec_env_action(buf@, offset as int, n_actions as nat) == Some(
                (v.0@, v.1 as int),
            ),
            Err(e) => spec_dec_env_action(buf@, offset as int, n_actions as nat) is None && e
                == EpiError::CodecFailed,
        },
{
    if offset >= buf.len() {
        return Err(EpiError::CodecFailed);
    }
    let tag = *slice_index_get(buf, offset);
    let start = offset + 1;
    if tag == 0 {
        let mut action_list: Vec<Payload> = Vec::new();
        let mut off = start;
        let mut i: usize = 0;
        while i < n_actions
            invariant
                i <= n_actions,
                start == offset + 1 <= buf@.len(),
                buf@[offset as int] == 0u8,
                spec_dec_action_list(buf@, start as int, i as nat) == Some(
                    (action_list.deep_view(), off as int),
                ),
            decreases n_actions - i,
        {
            let ghost dv = action_list.deep_view();
            match retrieve_payload(buf, off) {
                Some((p, o2)) => {
                    let ghost pv = p@;
                    proof {
                        lemma_dec_action_list_split(buf@, start as int, i as nat, 1nat);
                        assert(spec_dec_action_list(buf@, o2 as int, 0nat) == Some(
                            (Seq::<Seq<u8>>::empty(), o2 as int),
                        ));
                        assert(seq![pv] + Seq::<Seq<u8>>::empty() =~= seq![pv]);
                        assert(spec_dec_action_list(buf@, off as int, 1nat) == Some(
                            (seq![pv], o2 as int),
                        ));
                        assert(spec_dec_action_list(buf@, start as int, (i + 1) as nat) == Some(
                            (dv + seq![pv], o2 as int),
                        ));
                    }
                    action_list.push(p);
                    off = o2;
                    i = i + 1;
                    proof {
                        assert(action_list.deep_view() =~~= dv + seq![pv]);
                    }
                },
                None => {
                    proof {
                        lemma_dec_action_list_split(
                            buf@,
                            start as int,
                            i as nat,
                            (n_actions - i) as nat,
                        );
                        assert((n_actions - i) as nat != 0);
                        assert(spec_dec_action_list(buf@, off as int, (n_actions - i) as nat)
                            is None);
                        assert(i as nat + (n_actions - i) as nat == n_actions as nat);
                        assert(spec_dec_action_list(buf@, start as int, n_actions as nat)
                            is None);
                        assert(spec_dec_env_action(buf@, offset as int, n_actions as nat)
                            is None);
                    }
                    return Err(EpiError::CodecFailed);
                },
            }
        }
        let aald: Payload = Vec::new();
        proof {
            assert(aald@ =~= Seq::<u8>::empty());
        }
        Ok((EnvAction::STEP { action_list, action_associated_learning_data: aald }, off))
    } else if tag == 1 {
        Ok((EnvAction::RESET {}, start))
    } else if tag == 2 {
        match retrieve_payload(buf, start) {
            Some((p, o2)) => Ok(
                (EnvAction::SET_STATE { desired_state: p, prev_timestep_id_dict_option: None }, o2),
            ),
            None => Err(EpiError::CodecFailed),
        }
    } else {
        Err(EpiError::CodecFailed)
    }
}

/// What survives the wire: the learning data of a STEP and the
/// previous-timestep map of a SET_STATE travel beside the channel, so the
/// decoded command carries them empty.
pub open spec fn spec_scrub_env_action(a: EnvActionView) -> EnvActionView {
    match a {
        EnvActionView::STEP { action_list, .. } => EnvActionView::STEP {
            action_list,
            action_associated_learning_data: Seq::<u8>::empty(),
        },
        EnvActionView::RESET {} => EnvActionView::RESET {},
        EnvActionView::SET_STATE { desired_state, .. } => EnvActionView::SET_STATE {
            desired_state,
            prev_timestep_id_dict_option: None,
        },
    }
}

/// Every payload the command carries fits under the length prefix. True of
/// every `EnvAction` value built in executable code.
pub open spec fn spec_wf_env_action(a: EnvActionView) -> bool {
    match a {
        EnvActionView::STEP { action_list, .. } => forall|i: int|
            0 <= i < action_list.len() ==> #[trigger] action_list[i].len() <= u64::MAX,
        EnvActionView::RESET {} => true,
        EnvActionView::SET_STATE { desired_state, .. } => desired_state.len() <= u64::MAX,
    }
}

/// The agent count both sides hold as shadow state while this command is
/// in flight.
pub open spec fn spec_n_actions(a: EnvActionView) -> nat {
    match a {
        EnvActionView::STEP { action_list, .. } => action_list.len(),
        EnvActionView::RESET {} => 0nat,
        EnvActionView::SET_STATE { .. } => 0nat,
    }
}

/// Codec round trip: decoding an encoded command, at its position in any
/// surrounding buffer, recovers the command exactly, but for the fields
/// that are deliberately excluded from the wire form.
pub proof fn lemma_env_action_round_trip(pre: Seq<u8>, a: EnvActionView, rest: Seq<u8>)
    requires
        spec_wf_env_action(a),
    ensures
        spec_dec_env_action(
            pre + spec_enc_env_action(a) + rest,
            pre.len() as int,
            spec_n_actions(a),
        ) == Some((spec_scrub_env_action(a), pre.len() + spec_enc_env_action(a).len() as int)),
{
    vstd::bytes::lemma_auto_spec_u64_to_from_le_bytes();
    let s = pre + spec_enc_env_action(a) + rest;
    match a {
        EnvActionView::STEP { action_list, .. } => {
            assert(s[pre.len() as int] == 0u8);
            assert(s =~= (pre + seq![0u8]) + spec_enc_action_list(action_list) + rest);
            lemma_dec_action_list_of_enc(pre + seq![0u8], action_list, rest);
            assert((pre + seq![0u8]).len() == pre.len() + 1);
            assert(spec_dec_action_list(s, pre.len() + 1 as int, action_list.len()) == Some(
                (action_list, pre.len() + 1 + spec_enc_action_list(action_list).len() as int),
            ));
            assert(spec_enc_env_action(a).len() == 1 + spec_enc_action_list(action_list).len());
        },
        EnvActionView::RESET {} => {
            assert(s[pre.len() as int] == 1u8);
        },
        EnvActionView::SET_STATE { desired_state, .. } => {
            assert(s[pre.len() as int] == 2u8);
            assert(s =~= (pre + seq![2u8]) + spec_enc_payload(desired_state) + rest);
            lemma_dec_payload_of_enc(pre + seq![2u8], desired_state, rest);
        },
    }
}

} // verus!
