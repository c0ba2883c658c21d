use env_process_interface::env_action::EnvAction;
use env_process_interface::env_process_interface::EnvProcessInterface;
use env_process_interface::responses::{encode_episode_response, encode_step_response, encode_shapes_response};
use env_process_interface::EpiError;

fn make_epi(recalc: bool, min_steps: usize) -> EnvProcessInterface {
    EnvProcessInterface::new(recalc, "flinks".to_string(), min_steps, false, false, false, false)
        .unwrap()
}

fn init_one(epi: &mut EnvProcessInterface, proc_id: &str, agent_ids: &[u64], obs: &[Vec<u8>]) {
    let init_msg = encode_episode_response(&agent_ids.to_vec(), &obs.to_vec(), &None, &None);
    let shapes = encode_shapes_response(&vec![1u8], &vec![2u8]);
    epi.init_processes(&vec![(proc_id.to_string(), init_msg)], &shapes)
        .unwrap();
}

fn step_action(actions: Vec<Vec<u8>>) -> EnvAction {
    EnvAction::STEP {
        action_list: actions,
        action_associated_learning_data: vec![99u8],
    }
}

#[test]
fn single_worker_two_steps() {
    let mut epi = make_epi(false, 1);
    init_one(&mut epi, "w0", &[1, 2], &[vec![10u8], vec![20u8]]);

    let frames = epi
        .send_env_actions(&vec![("w0".to_string(), step_action(vec![vec![7u8], vec![8u8]]))])
        .unwrap();
    assert_eq!(frames.len(), 1);
    assert_eq!(frames[0].0, 0usize);
    assert_eq!(frames[0].1[0], 1u8);

    let resp1 = encode_step_response(
        &None,
        &vec![vec![11u8], vec![21u8]],
        &vec![vec![1u8], vec![2u8]],
        &vec![false, false],
        &vec![false, false],
        &None,
        &None,
    );
    let (n1, obs1, td1, si1) = epi.collect_step_data(&vec![(0usize, resp1)]).unwrap();
    assert_eq!(n1, 2);
    assert_eq!(obs1.len(), 1);
    assert_eq!(obs1[0].0, "w0");
    assert_eq!(obs1[0].1.agent_id_list, vec![1, 2]);
    assert_eq!(obs1[0].1.obs_list, vec![vec![11u8], vec![21u8]]);
    let ts1 = &td1[0].1.timestep_list;
    assert_eq!(ts1.len(), 2);
    assert_eq!(ts1[0].previous_timestep_id, None);
    assert_eq!(ts1[1].previous_timestep_id, None);
    assert_eq!(ts1[0].obs, vec![10u8]);
    assert_eq!(ts1[0].next_obs, vec![11u8]);
    assert_eq!(ts1[0].action, vec![7u8]);
    assert_eq!(ts1[0].reward, vec![1u8]);
    assert!(!ts1[0].terminated);
    assert!(!ts1[0].truncated);
    assert_eq!(td1[0].1.aald_option, Some(vec![99u8]));
    let term_map = si1[0].1.terminated_kv_list.as_ref().unwrap();
    assert_eq!(term_map, &vec![(1u64, false), (2u64, false)]);
    let id_a = ts1[0].timestep_id;
    let id_b = ts1[1].timestep_id;

    epi.send_env_actions(&vec![("w0".to_string(), step_action(vec![vec![70u8], vec![80u8]]))])
        .unwrap();
    let resp2 = encode_step_response(
        &None,
        &vec![vec![12u8], vec![22u8]],
        &vec![vec![3u8], vec![4u8]],
        &vec![true, false],
        &vec![false, true],
        &None,
        &None,
    );
    let (n2, _obs2, td2, si2) = epi.collect_step_data(&vec![(0usize, resp2)]).unwrap();
    assert_eq!(n2, 2);
    let ts2 = &td2[0].1.timestep_list;
    assert_eq!(ts2[0].previous_timestep_id, Some(id_a));
    assert_eq!(ts2[1].previous_timestep_id, Some(id_b));
    assert_eq!(ts2[0].obs, vec![11u8]);
    assert_eq!(ts2[0].next_obs, vec![12u8]);
    assert!(ts2[0].terminated);
    assert!(!ts2[0].truncated);
    let term_map2 = si2[0].1.terminated_kv_list.as_ref().unwrap();
    assert_eq!(term_map2, &vec![(1u64, true), (2u64, false)]);
}

#[test]
fn reset_then_step() {
    let mut epi = make_epi(false, 1);
    init_one(&mut epi, "w0", &[1, 2], &[vec![10u8], vec![20u8]]);

    epi.send_env_actions(&vec![("w0".to_string(), EnvAction::RESET {})])
        .unwrap();
    let reset_resp = encode_episode_response(
        &vec![1u64, 2u64],
        &vec![vec![30u8], vec![40u8]],
        &None,
        &None,
    );
    let (n0, obs0, td0, si0) = epi.collect_step_data(&vec![(0usize, reset_resp)]).unwrap();
    assert_eq!(n0, 0);
    assert_eq!(td0[0].1.timestep_list.len(), 0);
    assert!(si0[0].1.terminated_kv_list.is_none());
    assert!(si0[0].1.truncated_kv_list.is_none());
    assert_eq!(obs0[0].1.obs_list, vec![vec![30u8], vec![40u8]]);

    epi.send_env_actions(&vec![("w0".to_string(), step_action(vec![vec![7u8], vec![8u8]]))])
        .unwrap();
    let resp = encode_step_response(
        &None,
        &vec![vec![31u8], vec![41u8]],
        &vec![vec![1u8], vec![2u8]],
        &vec![false, false],
        &vec![false, false],
        &None,
        &None,
    );
    let (_, _, td, _) = epi.collect_step_data(&vec![(0usize, resp)]).unwrap();
    let ts = &td[0].1.timestep_list;
    assert_eq!(ts[0].previous_timestep_id, None);
    assert_eq!(ts[1].previous_timestep_id, None);
    assert_eq!(ts[0].obs, vec![30u8]);
}

#[test]
fn set_state_with_prev_map() {
    let mut epi = make_epi(false, 1);
    init_one(&mut epi, "w0", &[1, 2], &[vec![10u8], vec![20u8]]);

    // First run one STEP so that real ids exist.
    epi.send_env_actions(&vec![("w0".to_string(), step_action(vec![vec![7u8], vec![8u8]]))])
        .unwrap();
    let resp1 = encode_step_response(
        &None,
        &vec![vec![11u8], vec![21u8]],
        &vec![vec![1u8], vec![2u8]],
        &vec![false, false],
        &vec![false, false],
        &None,
        &None,
    );
    let (_, _, td1, _) = epi.collect_step_data(&vec![(0usize, resp1)]).unwrap();
    let id_a = td1[0].1.timestep_list[0].timestep_id;

    // SET_STATE with an explicit map: agent 1 chains to id_a, agent 2 to None.
    let set_state = EnvAction::SET_STATE {
        desired_state: vec![55u8],
        prev_timestep_id_dict_option: Some(vec![(1u64, Some(id_a)), (2u64, None)]),
    };
    epi.send_env_actions(&vec![("w0".to_string(), set_state)])
        .unwrap();
    let ss_resp = encode_episode_response(
        &vec![1u64, 2u64],
        &vec![vec![50u8], vec![60u8]],
        &None,
        &None,
    );
    epi.collect_step_data(&vec![(0usize, ss_resp)]).unwrap();

    epi.send_env_actions(&vec![("w0".to_string(), step_action(vec![vec![9u8], vec![9u8]]))])
        .unwrap();
    let resp2 = encode_step_response(
        &None,
        &vec![vec![51u8], vec![61u8]],
        &vec![vec![1u8], vec![2u8]],
        &vec![false, false],
        &vec![false, false],
        &None,
        &None,
    );
    let (_, _, td2, _) = epi.collect_step_data(&vec![(0usize, resp2)]).unwrap();
    let ts = &td2[0].1.timestep_list;
    assert_eq!(ts[0].previous_timestep_id, Some(id_a));
    assert_eq!(ts[1].previous_timestep_id, None);
}

#[test]
fn threshold_clamp() {
    let mut epi = make_epi(false, 8);
    let shapes = encode_shapes_response(&vec![1u8], &vec![2u8]);
    let defs: Vec<(String, Vec<u8>)> = (0..3)
        .map(|i| {
            (
                format!("w{}", i),
                encode_episode_response(&vec![1u64], &vec![vec![0u8]], &None, &None),
            )
        })
        .collect();
    epi.init_processes(&defs, &shapes).unwrap();
    assert_eq!(epi.min_process_steps_per_inference, 3);

    epi.delete_process();
    assert_eq!(epi.min_process_steps_per_inference, 2);
    epi.delete_process();
    assert_eq!(epi.min_process_steps_per_inference, 1);
    assert_eq!(epi.decrease_min_process_steps_per_inference(), 1);
    assert_eq!(epi.increase_min_process_steps_per_inference(), 1);
}

#[test]
fn add_process_mid_run() {
    let mut epi = make_epi(false, 1);
    init_one(&mut epi, "w0", &[1], &[vec![10u8]]);

    epi.send_env_actions(&vec![("w0".to_string(), step_action(vec![vec![7u8]]))])
        .unwrap();

    // A new worker joins before the next collection.
    let joined = encode_episode_response(&vec![9u64], &vec![vec![90u8]], &None, &None);
    epi.add_process("w1".to_string(), &joined).unwrap();

    let resp = encode_step_response(
        &None,
        &vec![vec![11u8]],
        &vec![vec![1u8]],
        &vec![false],
        &vec![false],
        &None,
        &None,
    );
    let (n, obs, td, si) = epi.collect_step_data(&vec![(0usize, resp)]).unwrap();
    assert_eq!(n, 1);
    // The joined worker's initial entries come first, then the ready slot.
    assert_eq!(obs.len(), 2);
    assert_eq!(obs[0].0, "w1");
    assert_eq!(obs[0].1.agent_id_list, vec![9]);
    assert_eq!(obs[0].1.obs_list, vec![vec![90u8]]);
    assert_eq!(obs[1].0, "w0");
    assert_eq!(td.len(), 1);
    assert_eq!(td[0].0, "w0");
    assert_eq!(si.len(), 2);
    assert_eq!(si[0].0, "w1");
    assert!(si[0].1.terminated_kv_list.is_none());
}

#[test]
fn recalculate_agent_id_off_vs_on() {
    // Flag off: the agent id list is reused from shadow state.
    let mut epi_off = make_epi(false, 1);
    init_one(&mut epi_off, "w0", &[5, 6], &[vec![10u8], vec![20u8]]);
    epi_off
        .send_env_actions(&vec![("w0".to_string(), step_action(vec![vec![1u8], vec![2u8]]))])
        .unwrap();
    let resp_off = encode_step_response(
        &None,
        &vec![vec![11u8], vec![21u8]],
        &vec![vec![1u8], vec![2u8]],
        &vec![false, false],
        &vec![false, false],
        &None,
        &None,
    );
    let (_, obs_off, _, _) = epi_off.collect_step_data(&vec![(0usize, resp_off)]).unwrap();
    assert_eq!(obs_off[0].1.agent_id_list, vec![5, 6]);

    // Flag on: the response stream includes fresh agent ids.
    let mut epi_on = make_epi(true, 1);
    init_one(&mut epi_on, "w0", &[5, 6], &[vec![10u8], vec![20u8]]);
    epi_on
        .send_env_actions(&vec![("w0".to_string(), step_action(vec![vec![1u8], vec![2u8]]))])
        .unwrap();
    let resp_on = encode_step_response(
        &Some(vec![7u64, 8u64]),
        &vec![vec![11u8], vec![21u8]],
        &vec![vec![1u8], vec![2u8]],
        &vec![false, false],
        &vec![false, false],
        &None,
        &None,
    );
    let (_, obs_on, td_on, _) = epi_on.collect_step_data(&vec![(0usize, resp_on)]).unwrap();
    assert_eq!(obs_on[0].1.agent_id_list, vec![7, 8]);
    assert_eq!(td_on[0].1.timestep_list[0].agent_id, 7);
}

#[test]
fn unknown_proc_id_fails() {
    let mut epi = make_epi(false, 1);
    init_one(&mut epi, "w0", &[1], &[vec![10u8]]);
    let r = epi.send_env_actions(&vec![("nope".to_string(), EnvAction::RESET {})]);
    assert_eq!(r.unwrap_err(), EpiError::ProtocolState);
}

#[test]
fn collect_without_action_fails() {
    let mut epi = make_epi(false, 1);
    init_one(&mut epi, "w0", &[1], &[vec![10u8]]);
    let resp = encode_step_response(
        &None,
        &vec![vec![11u8]],
        &vec![vec![1u8]],
        &vec![false],
        &vec![false],
        &None,
        &None,
    );
    let r = epi.collect_step_data(&vec![(0usize, resp)]);
    assert_eq!(r.unwrap_err(), EpiError::ProtocolState);
}

#[test]
fn truncated_response_fails() {
    let mut epi = make_epi(false, 1);
    init_one(&mut epi, "w0", &[1], &[vec![10u8]]);
    epi.send_env_actions(&vec![("w0".to_string(), step_action(vec![vec![7u8]]))])
        .unwrap();
    let r = epi.collect_step_data(&vec![(0usize, vec![0u8, 1u8])]);
    assert_eq!(r.unwrap_err(), EpiError::CodecFailed);
}

#[test]
fn duplicate_readiness_collected_once() {
    let mut epi = make_epi(false, 1);
    init_one(&mut epi, "w0", &[1], &[vec![10u8]]);
    epi.send_env_actions(&vec![("w0".to_string(), step_action(vec![vec![7u8]]))])
        .unwrap();
    let resp = encode_step_response(
        &None,
        &vec![vec![11u8]],
        &vec![vec![1u8]],
        &vec![false],
        &vec![false],
        &None,
        &None,
    );
    let (n, obs, td, _) = epi
        .collect_step_data(&vec![(0usize, resp.clone()), (0usize, resp)])
        .unwrap();
    assert_eq!(n, 1);
    assert_eq!(obs.len(), 1);
    assert_eq!(td.len(), 1);
}

#[test]
fn trailing_region_bytes_are_ignored() {
    // A shared-memory region is larger than any one message: whatever
    // lies past the decoded portion must not disturb collection.
    let mut epi = make_epi(false, 1);
    let mut init_msg = encode_episode_response(&vec![1u64], &vec![vec![10u8]], &None, &None);
    init_msg.extend_from_slice(&[0xAAu8; 32]);
    let mut shapes = encode_shapes_response(&vec![1u8], &vec![2u8]);
    shapes.extend_from_slice(&[0xBBu8; 16]);
    epi.init_processes(&vec![("w0".to_string(), init_msg)], &shapes)
        .unwrap();

    epi.send_env_actions(&vec![("w0".to_string(), step_action(vec![vec![7u8]]))])
        .unwrap();
    let mut resp = encode_step_response(
        &None,
        &vec![vec![11u8]],
        &vec![vec![1u8]],
        &vec![true],
        &vec![false],
        &None,
        &None,
    );
    resp.extend_from_slice(&[0xCCu8; 64]);
    let (n, obs, td, _) = epi.collect_step_data(&vec![(0usize, resp)]).unwrap();
    assert_eq!(n, 1);
    assert_eq!(obs[0].1.obs_list, vec![vec![11u8]]);
    assert!(td[0].1.timestep_list[0].terminated);
}

#[test]
fn duplicate_proc_id_rejected() {
    let mut epi = make_epi(false, 1);
    init_one(&mut epi, "w0", &[1], &[vec![10u8]]);
    let joined = encode_episode_response(&vec![9u64], &vec![vec![90u8]], &None, &None);
    let r = epi.add_process("w0".to_string(), &joined);
    assert_eq!(r.unwrap_err(), EpiError::ProtocolState);
    assert_eq!(epi.proc_ids.len(), 1);
}

#[test]
fn bad_shapes_reply_leaves_coordinator_unchanged() {
    let mut epi = make_epi(false, 1);
    let init_msg = encode_episode_response(&vec![1u64], &vec![vec![10u8]], &None, &None);
    let r = epi.init_processes(&vec![("w0".to_string(), init_msg)], &[1u8, 2u8]);
    assert_eq!(r.unwrap_err(), EpiError::CodecFailed);
    assert_eq!(epi.proc_ids.len(), 0);
}

#[test]
fn cleanup_clears_all_slots() {
    let mut epi = make_epi(false, 2);
    let shapes = encode_shapes_response(&vec![1u8], &vec![2u8]);
    let defs: Vec<(String, Vec<u8>)> = (0..2)
        .map(|i| {
            (
                format!("w{}", i),
                encode_episode_response(&vec![1u64], &vec![vec![0u8]], &None, &None),
            )
        })
        .collect();
    epi.init_processes(&defs, &shapes).unwrap();
    assert_eq!(epi.proc_ids.len(), 2);
    epi.cleanup();
    assert_eq!(epi.proc_ids.len(), 0);
    assert_eq!(epi.added_process_obs_data_kv_list.len(), 0);
    assert_eq!(epi.added_process_state_info_kv_list.len(), 0);
}

#[test]
fn delete_discards_queued_entries_of_the_deleted_worker() {
    let mut epi = make_epi(false, 1);
    init_one(&mut epi, "w0", &[1], &[vec![10u8]]);

    epi.send_env_actions(&vec![("w0".to_string(), step_action(vec![vec![7u8]]))])
        .unwrap();

    // A worker joins and is torn down again before the next collection:
    // nothing of it may surface in the batches.
    let joined = encode_episode_response(&vec![9u64], &vec![vec![90u8]], &None, &None);
    epi.add_process("w1".to_string(), &joined).unwrap();
    let (pid, _) = epi.delete_process();
    assert_eq!(pid, "w1");

    let resp = encode_step_response(
        &None,
        &vec![vec![11u8]],
        &vec![vec![1u8]],
        &vec![false],
        &vec![false],
        &None,
        &None,
    );
    let (_, obs, td, si) = epi.collect_step_data(&vec![(0usize, resp)]).unwrap();
    assert_eq!(obs.len(), 1);
    assert_eq!(obs[0].0, "w0");
    assert_eq!(td.len(), 1);
    assert_eq!(si.len(), 1);
    assert_eq!(si[0].0, "w0");
}

#[test]
fn config_requires_state_serde() {
    let r = EnvProcessInterface::new(false, "flinks".to_string(), 1, true, false, false, false);
    assert_eq!(r.unwrap_err(), EpiError::ConfigInvalid);
    let r2 = EnvProcessInterface::new(false, "flinks".to_string(), 1, false, true, true, false);
    assert_eq!(r2.unwrap_err(), EpiError::ConfigInvalid);
    assert!(EnvProcessInterface::new(false, "flinks".to_string(), 1, true, true, true, true).is_ok());
}

#[test]
fn delete_process_emits_stop_frame() {
    let mut epi = make_epi(false, 1);
    init_one(&mut epi, "w0", &[1], &[vec![10u8]]);
    let (pid, frame) = epi.delete_process();
    assert_eq!(pid, "w0");
    assert_eq!(frame, vec![2u8]);
    assert_eq!(epi.proc_ids.len(), 0);
}

#[test]
fn state_and_metrics_are_collected() {
    let mut epi =
        EnvProcessInterface::new(false, "flinks".to_string(), 1, true, true, true, true).unwrap();
    let init_msg = encode_episode_response(
        &vec![1u64],
        &vec![vec![10u8]],
        &Some(vec![77u8]),
        &None,
    );
    let shapes = encode_shapes_response(&vec![1u8], &vec![2u8]);
    let (_, si_init, obs_space, action_space) = epi
        .init_processes(&vec![("w0".to_string(), init_msg)], &shapes)
        .unwrap();
    assert_eq!(obs_space, vec![1u8]);
    assert_eq!(action_space, vec![2u8]);
    assert_eq!(si_init[0].1.state_option, Some(vec![77u8]));

    epi.send_env_actions(&vec![("w0".to_string(), step_action(vec![vec![7u8]]))])
        .unwrap();
    let resp = encode_step_response(
        &None,
        &vec![vec![11u8]],
        &vec![vec![1u8]],
        &vec![true],
        &vec![false],
        &Some(vec![88u8]),
        &Some(vec![99u8]),
    );
    let (_, _, td, si) = epi.collect_step_data(&vec![(0usize, resp)]).unwrap();
    assert_eq!(td[0].1.state_option, Some(vec![88u8]));
    assert_eq!(td[0].1.metrics_option, Some(vec![99u8]));
    assert_eq!(si[0].1.state_option, Some(vec![88u8]));
}
