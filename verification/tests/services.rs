use api::config::{AppConfig, EnvVars};
use api::error::AppError;
use api::features::{is_unknown_merchant, time_features};
use api::ingestion::{should_skip_ingestion, IngestBatcher};
use api::readiness::{collection_ready, poll_step, readiness_timeout, service_timeout, PollStep};
use api::scoring::decide;

fn no_env() -> EnvVars {
    EnvVars {
        app_host: None,
        app_port: None,
        normalization_file: None,
        mcc_risk_file: None,
        index_file: None,
        references_file: None,
    }
}

#[test]
fn config_defaults() {
    let c = AppConfig::from_env(&no_env()).unwrap();
    assert_eq!(c.host, "0.0.0.0");
    assert_eq!(c.port, 3000);
    assert_eq!(c.normalization_path, "/app/resources/normalization.json");
    assert_eq!(c.mcc_risk_path, "/app/resources/mcc_risk.json");
    assert_eq!(c.index_path, "/app/resources/index.bin");
    assert_eq!(c.references_path, "/app/resources/references.json.gz");
}

#[test]
fn config_reads_variables() {
    let mut env = no_env();
    env.app_host = Some("127.0.0.1".to_string());
    env.app_port = Some("+8080".to_string());
    env.index_file = Some("/tmp/i.bin".to_string());
    let c = AppConfig::from_env(&env).unwrap();
    assert_eq!(c.host, "127.0.0.1");
    assert_eq!(c.port, 8080);
    assert_eq!(c.index_path, "/tmp/i.bin");
    assert_eq!(c.references_path, "/app/resources/references.json.gz");
}

#[test]
fn config_rejects_bad_port() {
    let mut env = no_env();
    env.app_port = Some("80a".to_string());
    assert_eq!(
        AppConfig::from_env(&env).err().unwrap(),
        AppError::Config(
            "Invalid value '80a' for env APP_PORT: invalid digit found in string".to_string()
        )
    );
    env.app_port = Some("70000".to_string());
    assert_eq!(
        AppConfig::from_env(&env).err().unwrap(),
        AppError::Config(
            "Invalid value '70000' for env APP_PORT: number too large to fit in target type"
                .to_string()
        )
    );
    env.app_port = Some("".to_string());
    assert!(matches!(AppConfig::from_env(&env), Err(AppError::Config(_))));
}

#[test]
fn time_features_of_request_without_previous() {
    let f = time_features("2026-03-11T18:45:53Z", None).unwrap();
    assert_eq!(f.hour_of_day, 18);
    // 2026-03-11 is a Wednesday
    assert_eq!(f.day_of_week, 2);
    assert_eq!(f.seconds_since_last, None);
}

#[test]
fn time_features_use_utc() {
    let f = time_features("2026-03-15T23:30:00-03:00", None).unwrap();
    // 02:30 UTC on Monday the 16th
    assert_eq!(f.hour_of_day, 2);
    assert_eq!(f.day_of_week, 0);
}

#[test]
fn seconds_since_previous_transaction() {
    let f = time_features("2026-03-11T20:23:35Z", Some("2026-03-11T18:45:53Z")).unwrap();
    assert_eq!(f.seconds_since_last, Some(5862));
    assert_eq!(f.hour_of_day, 20);
    // whole seconds are truncated toward zero
    let f = time_features("2026-03-11T00:00:00.2Z", Some("2026-03-11T00:00:00.9Z")).unwrap();
    assert_eq!(f.seconds_since_last, Some(0));
    let f = time_features("2026-03-11T00:00:00Z", Some("2026-03-11T00:00:02.5Z")).unwrap();
    assert_eq!(f.seconds_since_last, Some(-2));
}

#[test]
fn malformed_timestamps_are_date_errors() {
    assert!(matches!(time_features("yesterday", None), Err(AppError::DateTime(_))));
    assert!(matches!(
        time_features("2026-03-11T20:23:35Z", Some("nope")),
        Err(AppError::DateTime(_))
    ));
    assert_eq!(
        AppError::DateTime("x".to_string()).into_status_and_message(),
        (400, "x".to_string())
    );
}

#[test]
fn epoch_instants_before_1970() {
    let f = time_features("1969-12-31T23:00:00Z", None).unwrap();
    assert_eq!(f.hour_of_day, 23);
    // a Wednesday
    assert_eq!(f.day_of_week, 2);
}

#[test]
fn merchant_known_or_not() {
    let known = vec!["MERC-003".to_string(), "MERC-016".to_string()];
    assert!(!is_unknown_merchant(&known, &"MERC-016".to_string()));
    assert!(is_unknown_merchant(&known, &"MERC-X".to_string()));
    assert!(is_unknown_merchant(&vec![], &"MERC-X".to_string()));
}

#[test]
fn approval_needs_fewer_than_three_frauds() {
    for n in 0..=2 {
        assert!(decide(n).approved);
        assert_eq!(decide(n).fraud_neighbors, n);
    }
    for n in 3..=5 {
        assert!(!decide(n).approved);
    }
}

#[test]
fn polling_steps() {
    assert!(matches!(poll_step(true, u128::MAX, 0), PollStep::Ready));
    assert!(matches!(poll_step(false, 29_999_999_999, 30), PollStep::Wait));
    assert!(matches!(poll_step(false, 30_000_000_000, 30), PollStep::TimedOut));
}

#[test]
fn collection_readiness() {
    assert!(collection_ready(false, 0, 10));
    assert!(!collection_ready(true, 9, 10));
    assert!(collection_ready(true, 10, 10));
}

#[test]
fn timeout_messages_name_the_collection() {
    assert_eq!(
        readiness_timeout("refs"),
        AppError::Startup("Readiness timeout for collection 'refs'".to_string())
    );
    assert_eq!(
        service_timeout("refs"),
        AppError::Startup("Qdrant service timeout for collection 'refs'".to_string())
    );
}

#[test]
fn errors_map_to_statuses() {
    assert_eq!(AppError::Config("c".to_string()).into_status_and_message(), (503, "c".to_string()));
    assert_eq!(AppError::Io("i".to_string()).into_status_and_message(), (503, "i".to_string()));
    assert_eq!(AppError::Join("j".to_string()).into_status_and_message().0, 503);
}

#[test]
fn batches_number_points_from_one() {
    let mut b = IngestBatcher::new(2);
    assert_eq!(b.accept("fraud".to_string()), Ok(false));
    assert_eq!(b.accept("legit".to_string()), Ok(true));
    assert_eq!(b.pending_ids_vec(), &vec![1, 2]);
    assert_eq!(b.pending_payloads()[1].label, "legit");
    b.mark_sent();
    assert!(!b.has_pending());
    assert_eq!(b.accept("fraud".to_string()), Ok(false));
    assert_eq!(b.pending_ids_vec(), &vec![3]);
    b.mark_sent();
    assert_eq!(b.processed_count(), 3);
    assert_eq!(b.finish(), Ok(()));
}

#[test]
fn batches_reject_unknown_labels() {
    let mut b = IngestBatcher::new(10);
    assert_eq!(
        b.accept("other".to_string()),
        Err(AppError::Startup("Invalid label 'other' in reference dataset".to_string()))
    );
    assert!(!b.has_pending());
    assert_eq!(
        b.finish(),
        Err(AppError::Startup(
            "Reference dataset ingestion did not import any vectors".to_string()
        ))
    );
}

#[test]
fn batch_size_zero_flushes_every_point() {
    let mut b = IngestBatcher::new(0);
    assert_eq!(b.accept("fraud".to_string()), Ok(true));
}

#[test]
fn existing_points_skip_ingestion() {
    assert!(should_skip_ingestion(1));
    assert!(!should_skip_ingestion(0));
}
