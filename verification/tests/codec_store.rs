//! The persistence record's round trip, the address scheme, and the
//! session-identity paths.

use frs::codec::{decode_context, encode_context};
use frs::model::{activate_context, get_base_context, Context, Metadata, MetadataStepLog};
use frs::ops::{with_env, with_workdir};
use frs::store::{
    get_saved_context_path, get_session_path, get_current_shell_context, prepare_save,
};
use frs::FrsError;

fn sample_context() -> Context {
    Context {
        meta: Metadata {
            namespace: "team".to_owned(),
            name: "build".to_owned(),
            is_dirty: true,
            step_log: vec![
                MetadataStepLog {
                    description: "core::with_workdir \"/tmp\"".to_owned(),
                    prompt: Some("wd(..tmp)".to_owned()),
                },
                MetadataStepLog {
                    description: "a step with: colons 10:20".to_owned(),
                    prompt: None,
                },
            ],
        },
        env: vec![
            ("FRS_VERSION".to_owned(), "0.1.0".to_owned()),
            ("ODD KEY".to_owned(), "value with\nnewline and \"quotes\"".to_owned()),
        ],
        template: "(cd /tmp;\n (((( echo 'frs placeholder' ))));\n )".to_owned(),
    }
}

#[test]
fn round_trip() {
    let c = sample_context();
    let record = encode_context(&c);
    let back = decode_context(&record).expect("a record the encoder wrote must decode");
    assert_eq!(back, c);
}

#[test]
fn round_trip_empty_fields() {
    let c = Context {
        meta: Metadata {
            namespace: String::new(),
            name: String::new(),
            is_dirty: false,
            step_log: vec![],
        },
        env: vec![],
        template: String::new(),
    };
    let record = encode_context(&c);
    let back = decode_context(&record).unwrap();
    assert_eq!(back, c);
}

#[test]
fn decode_rejects_garbage() {
    assert_eq!(decode_context("not a record"), Err(FrsError::Encoding));
    assert_eq!(decode_context(""), Err(FrsError::Encoding));
    assert_eq!(decode_context("3:abc"), Err(FrsError::Encoding));
}

#[test]
fn decode_rejects_trailing_garbage() {
    let c = sample_context();
    let mut record = encode_context(&c);
    record.push('x');
    assert_eq!(decode_context(&record), Err(FrsError::Encoding));
}

#[test]
fn save_then_activate_round_trips() {
    let mut c = get_base_context();
    c = with_workdir(c, String::from("/srv"));
    c = with_env(c, String::from("A"), String::from("B"));
    let saved = prepare_save(c, String::from("team"), String::from("build"));
    let record = encode_context(&saved);
    // A different, unrelated in-memory context is fully replaced.
    let other = with_workdir(get_base_context(), String::from("/elsewhere"));
    let loaded = decode_context(&record).unwrap();
    let activated = activate_context(other, loaded);
    assert_eq!(activated, saved);
    assert!(!activated.meta.is_dirty);
}

#[test]
fn saved_paths_are_deterministic_and_sanitized() {
    let p = get_saved_context_path("/home/u", "team", "build");
    assert_eq!(p, "/home/u/.config/frs/context/team/build.json");
    assert_eq!(p, get_saved_context_path("/home/u", "team", "build"));
    let crafted = get_saved_context_path("/home/u", "a/b", "..\\up");
    assert_eq!(crafted, "/home/u/.config/frs/context/a\u{b7}b/..\u{b7}up.json");
}

#[test]
fn session_paths_by_identity() {
    let a = get_session_path(1234, 98765);
    assert_eq!(a, "/tmp/1234.98765.json");
    // The same pair resolves to the identical path.
    assert_eq!(a, get_session_path(1234, 98765));
    // A reused process id with another start time is another address.
    assert_ne!(a, get_session_path(1234, 98766));
    assert_ne!(a, get_session_path(1235, 98765));
}

#[test]
fn stat_start_time_is_field_twenty_two() {
    let stat = "77 (bash) S 1 77 77 0 -1 4194560 1234 0 0 0 1 2 0 0 20 0 1 0 424242 8000 500 18446744073709551615";
    assert_eq!(frs::store::parse_stat_start_time(stat), Ok(424242));
    assert_eq!(
        frs::store::parse_stat_start_time("too short"),
        Err(FrsError::Configuration)
    );
    assert_eq!(
        frs::store::parse_stat_start_time(
            "77 (bash) S 1 77 77 0 -1 4194560 1234 0 0 0 1 2 0 0 20 0 1 0 not-a-number 8000"
        ),
        Err(FrsError::Configuration)
    );
}

#[test]
fn absent_session_record_yields_base() {
    let c = get_current_shell_context(None).unwrap();
    assert_eq!(c, get_base_context());
}

#[test]
fn present_session_record_is_decoded() {
    let mut c = get_base_context();
    c = with_workdir(c, String::from("/tmp"));
    let record = encode_context(&c);
    let back = get_current_shell_context(Some(&record)).unwrap();
    assert_eq!(back, c);
    assert_eq!(
        get_current_shell_context(Some(&"junk".to_owned())),
        Err(FrsError::Encoding)
    );
}
