use tikv::backend::StorageConfig;
use tikv::backend::StorageConfigError;
use tikv::rotate;

fn config() -> StorageConfig {
    StorageConfig {
        region: b"ap-southeast-2".to_vec(),
        endpoint: Vec::new(),
        bucket: b"mybucket".to_vec(),
        prefix: b"myprefix".to_vec(),
        access_key: b"abc".to_vec(),
        secret_access_key: b"xyz".to_vec(),
    }
}

#[test]
fn test_s3_config() {
    // missing both region and endpoint: no resolver knows the empty
    // region name
    let mut case = config();
    case.region = Vec::new();
    assert!(case.plan(false).is_err());
    assert_eq!(case.plan(false).unwrap_err(), StorageConfigError::UnknownRegion);

    assert!(config().plan(true).is_ok());
}

#[test]
fn unknown_region_name_is_rejected() {
    // a non-empty name the boundary's resolver does not know
    let mut case = config();
    case.region = b"not-a-region".to_vec();
    assert_eq!(case.plan(false).unwrap_err(), StorageConfigError::UnknownRegion);
    // a custom endpoint makes the region name moot
    case.endpoint = b"http://127.0.0.1:9000".to_vec();
    assert!(case.plan(false).is_ok());
}

#[test]
fn missing_bucket_is_rejected_first() {
    let mut case = config();
    case.bucket = Vec::new();
    case.region = Vec::new();
    assert_eq!(case.plan(false).unwrap_err(), StorageConfigError::MissingBucket);
}

#[test]
fn plan_picks_endpoint_and_credentials() {
    let mut case = config();
    case.endpoint = b"http://127.0.0.1:9000".to_vec();
    let plan = case.plan(false).unwrap();
    assert!(plan.custom_endpoint);
    assert!(plan.static_credentials);

    let mut anonymous = config();
    anonymous.access_key = Vec::new();
    let plan = anonymous.plan(true).unwrap();
    assert!(!plan.custom_endpoint);
    assert!(!plan.static_credentials);
}

#[test]
fn keys_are_namespaced_under_the_prefix() {
    let c = config();
    assert_eq!(c.maybe_prefix_key(&b"mykey".to_vec()), b"myprefix/mykey".to_vec());

    let mut bare = config();
    bare.prefix = Vec::new();
    assert_eq!(bare.maybe_prefix_key(&b"mykey".to_vec()), b"mykey".to_vec());
}

#[test]
fn test_one_day_before() {
    // midnight of 2016-08-30 and of 2016-08-29, in seconds
    let tm: u64 = 1472515200;
    let one_day_ago: u64 = 1472428800;
    assert_eq!(one_day_ago, rotate::one_day_before(tm));
}

#[test]
fn rollover_is_due_after_the_next_midnight() {
    // one second past midnight of 2016-08-30
    let written: u64 = 1472515201;
    let due = rotate::compute_rollover_time(written);
    // the start of 2016-08-31
    assert_eq!(due, 1472601600);
    assert!(!rotate::should_rollover(due, due));
    assert!(rotate::should_rollover(due + 1, due));
    // any later write on the same day leaves the due moment unchanged
    assert_eq!(rotate::compute_rollover_time(1472601599), due);
}
