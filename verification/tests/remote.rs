use ragent::remote::{is_secure_socket_url, job_step, valid_job_id, JobStep};

#[test]
fn job_statuses_are_read() {
    assert_eq!(job_step("succeeded"), JobStep::Done);
    assert_eq!(job_step("failed"), JobStep::Failed);
    assert_eq!(job_step("canceled"), JobStep::Failed);
    assert_eq!(job_step("created"), JobStep::Pending);
    assert_eq!(job_step("pending"), JobStep::Pending);
    assert_eq!(job_step("running"), JobStep::Pending);
    assert_eq!(job_step("Succeeded"), JobStep::Unrecognized);
    assert_eq!(job_step(""), JobStep::Unrecognized);
}

#[test]
fn job_ids_are_url_safe() {
    assert!(valid_job_id("abc-123-XYZ"));
    assert!(valid_job_id(""));
    assert!(!valid_job_id("../etc"));
    assert!(!valid_job_id("a b"));
    assert!(!valid_job_id("é"));
}

#[test]
fn live_sockets_must_use_tls() {
    assert!(is_secure_socket_url("wss://live.example/x"));
    assert!(!is_secure_socket_url("ws://live.example/x"));
    assert!(!is_secure_socket_url("wss:/"));
}
