use env_process_interface::env_action::{
    append_env_action_new, retrieve_env_action_new, append_header, Header, EnvAction,
    EnvActionResponse, EnvActionResponseType,
};
use env_process_interface::wire::{append_u64, retrieve_u64, append_bool, retrieve_bool, append_payload, retrieve_payload};
use env_process_interface::EpiError;

#[test]
fn u64_little_endian_exact() {
    let mut buf: Vec<u8> = Vec::new();
    append_u64(&mut buf, 0x0102030405060708u64);
    assert_eq!(buf, vec![8u8, 7, 6, 5, 4, 3, 2, 1]);
    let (x, off) = retrieve_u64(&buf, 0).unwrap();
    assert_eq!(x, 0x0102030405060708u64);
    assert_eq!(off, 8);
    assert!(retrieve_u64(&buf, 1).is_none());
}

#[test]
fn bool_wire_form() {
    let mut buf: Vec<u8> = Vec::new();
    append_bool(&mut buf, true);
    append_bool(&mut buf, false);
    assert_eq!(buf, vec![1u8, 0u8]);
    assert_eq!(retrieve_bool(&buf, 0).unwrap(), (true, 1));
    assert_eq!(retrieve_bool(&buf, 1).unwrap(), (false, 2));
    // Any byte other than 0 or 1 is rejected.
    assert!(retrieve_bool(&[7u8], 0).is_none());
}

#[test]
fn payload_roundtrip() {
    let mut buf: Vec<u8> = Vec::new();
    append_payload(&mut buf, &vec![9u8, 8, 7]);
    assert_eq!(buf, vec![3u8, 0, 0, 0, 0, 0, 0, 0, 9, 8, 7]);
    let (p, off) = retrieve_payload(&buf, 0).unwrap();
    assert_eq!(p, vec![9u8, 8, 7]);
    assert_eq!(off, 11);
}

#[test]
fn header_bytes() {
    let mut buf: Vec<u8> = Vec::new();
    append_header(&mut buf, Header::EnvShapesRequest);
    append_header(&mut buf, Header::EnvAction);
    append_header(&mut buf, Header::Stop);
    assert_eq!(buf, vec![0u8, 1u8, 2u8]);
}

#[test]
fn env_action_step_roundtrip() {
    let action = EnvAction::STEP {
        action_list: vec![vec![1u8, 2], vec![3u8]],
        action_associated_learning_data: vec![42u8],
    };
    let mut buf: Vec<u8> = Vec::new();
    let end = append_env_action_new(&mut buf, &action);
    assert_eq!(end, buf.len());
    assert_eq!(buf[0], 0u8);
    let (back, off) = retrieve_env_action_new(&buf, 0, 2).unwrap();
    assert_eq!(off, buf.len());
    match back {
        EnvAction::STEP { action_list, action_associated_learning_data } => {
            assert_eq!(action_list, vec![vec![1u8, 2], vec![3u8]]);
            // The learning data is not carried on the wire.
            assert_eq!(action_associated_learning_data, Vec::<u8>::new());
        }
        _ => panic!("wrong variant"),
    }
}

#[test]
fn env_action_reset_roundtrip() {
    let mut buf: Vec<u8> = Vec::new();
    append_env_action_new(&mut buf, &EnvAction::RESET {});
    assert_eq!(buf, vec![1u8]);
    let (back, off) = retrieve_env_action_new(&buf, 0, 0).unwrap();
    assert_eq!(off, 1);
    assert!(matches!(back, EnvAction::RESET {}));
}

#[test]
fn env_action_set_state_roundtrip() {
    let action = EnvAction::SET_STATE {
        desired_state: vec![5u8, 6],
        prev_timestep_id_dict_option: Some(vec![(1u64, Some(10u128)), (2u64, None)]),
    };
    let mut buf: Vec<u8> = Vec::new();
    append_env_action_new(&mut buf, &action);
    assert_eq!(buf[0], 2u8);
    let (back, _) = retrieve_env_action_new(&buf, 0, 0).unwrap();
    match back {
        EnvAction::SET_STATE { desired_state, prev_timestep_id_dict_option } => {
            assert_eq!(desired_state, vec![5u8, 6]);
            // The previous-timestep map is not carried on the wire.
            assert!(prev_timestep_id_dict_option.is_none());
        }
        _ => panic!("wrong variant"),
    }
}

#[test]
fn env_action_bad_tag_fails() {
    let r = retrieve_env_action_new(&[9u8], 0, 0);
    assert_eq!(r.unwrap_err(), EpiError::CodecFailed);
    let r2 = retrieve_env_action_new(&[], 0, 0);
    assert_eq!(r2.unwrap_err(), EpiError::CodecFailed);
}

#[test]
fn env_action_response_projections() {
    let step = EnvActionResponse::STEP();
    assert_eq!(step.enum_type(), EnvActionResponseType::STEP);
    assert!(step.desired_state().is_none());
    assert!(step.prev_timestep_id_dict().is_none());

    let reset = EnvActionResponse::RESET();
    assert_eq!(reset.enum_type(), EnvActionResponseType::RESET);

    let ss = EnvActionResponse::SET_STATE(vec![1u8], Some(vec![(3u64, Some(4u128))]));
    assert_eq!(ss.enum_type(), EnvActionResponseType::SET_STATE);
    assert_eq!(ss.desired_state(), Some(vec![1u8]));
    assert_eq!(ss.prev_timestep_id_dict(), Some(vec![(3u64, Some(4u128))]));
}
