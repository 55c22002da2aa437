//! The rules of the HTTP service.
use beater_memory::error::MemoryError;
use beater_memory::model::{MemoryMode, MemoryNodeKind, MemoryScope, ReconstructionMode};
use beater_memory::server::{
    audit_limit, authorize, constant_time_eq, maintenance_options, project_limit, query_of_request,
    remember_event, request_record, serving_token, take_up_db_task, validate_nonempty,
    validate_provider_time, validate_query_time, ApiError, ApiStatus, LiveResponse,
    MaintenanceHttpRequest, MemoryServerConfig, ProjectHttpRequest, QueryHttpRequest,
    RememberHttpRequest, RequestWindows,
};

fn test_config() -> MemoryServerConfig {
    MemoryServerConfig::new("memory.db", "127.0.0.1:0")
}

fn question(text: &str) -> QueryHttpRequest {
    QueryHttpRequest {
        question: text.to_string(),
        scope: MemoryScope::new("tenant", "project"),
        max_tokens: None,
        require_fresh: None,
        modes: None,
        reconstruction_mode: None,
        max_reconstruction_steps: None,
        max_reconstruction_tokens: None,
    }
}

#[test]
fn v1_routes_require_bearer_auth() {
    let config = test_config().with_bearer_token("secret");

    let err = authorize(&config, None).unwrap_err();

    assert_eq!(err.status, ApiStatus::Unauthorized);
    assert_eq!(err.status.as_u16(), 401);
    assert!(authorize(&config, Some("Bearer wrong!")).is_err());
    assert!(authorize(&config, Some("bearer secret")).is_err());
    assert!(authorize(&config, Some("secret")).is_err());
    assert!(authorize(&config, Some("Bearer secret")).is_ok());
    assert!(authorize(&test_config(), None).is_ok());
}

#[test]
fn query_limit_is_enforced() {
    let config = test_config()
        .with_bearer_token("secret")
        .with_limits(4096, 10, 5);
    let request = QueryHttpRequest {
        max_tokens: Some(6),
        ..question("anything")
    };

    let err = query_of_request(&config, request).unwrap_err();

    assert_eq!(err.status, ApiStatus::BadRequest);
    assert_eq!(err.status.as_u16(), 400);
    assert_eq!(err.message, "query max_tokens 6 exceeds configured max 5");
}

#[test]
fn questions_are_checked_before_reading() {
    let config = test_config();
    let err = query_of_request(&config, question(" ")).unwrap_err();
    assert_eq!(err.message, "question must not be empty");
    let request = QueryHttpRequest {
        scope: MemoryScope::new(" tenant", "project"),
        ..question("anything")
    };
    let err = query_of_request(&config, request).unwrap_err();
    assert_eq!(err.status, ApiStatus::BadRequest);
    assert!(err.message.contains("tenant_id"));
    let request = QueryHttpRequest {
        modes: Some(Vec::new()),
        ..question("anything")
    };
    assert!(query_of_request(&config, request)
        .unwrap_err()
        .message
        .contains("modes"));

    let request = QueryHttpRequest {
        require_fresh: Some(true),
        modes: Some(vec![MemoryMode::State]),
        reconstruction_mode: Some(ReconstructionMode::Auto),
        max_reconstruction_steps: Some(2),
        ..question("anything")
    };
    let query = query_of_request(&config, request).unwrap();
    assert!(query.require_fresh);
    assert!(query.modes_explicit);
    assert_eq!(query.max_tokens, 1_200);
    assert_eq!(query.reconstruction.mode, ReconstructionMode::Auto);
    assert_eq!(query.reconstruction.max_steps, 2);
    assert_eq!(query.reconstruction.max_tokens, 2_000);
}

#[test]
fn project_and_audit_limits_are_enforced() {
    let config = test_config().with_limits(4096, 10, 5).with_audit_limit(3);
    assert_eq!(
        project_limit(&config, &ProjectHttpRequest { limit: Some(10) }).unwrap(),
        10
    );
    assert_eq!(
        project_limit(&config, &ProjectHttpRequest { limit: None })
            .unwrap_err()
            .message,
        "project limit 1000 exceeds configured max 10"
    );
    assert_eq!(
        project_limit(&test_config(), &ProjectHttpRequest { limit: None }).unwrap(),
        1_000
    );
    assert_eq!(audit_limit(&config, None).unwrap(), 3);
    assert_eq!(audit_limit(&config, Some(2)).unwrap(), 2);
    assert!(audit_limit(&config, Some(4)).is_err());
}

#[test]
fn configurations_are_checked() {
    let config = test_config();
    config.validate().unwrap();
    assert_eq!(config.max_body_bytes, 1024 * 1024);
    assert_eq!(
        config
            .clone()
            .with_bearer_token("  secret ")
            .bearer_token
            .as_deref(),
        Some("secret")
    );
    for (config, words) in [
        (config.clone().with_bearer_token("  "), "bearer token"),
        (config.clone().with_limits(0, 1, 1), "max_body_bytes"),
        (config.clone().with_limits(1, 0, 1), "max_project_limit"),
        (config.clone().with_limits(1, 1, 0), "max_query_tokens"),
        (config.clone().with_audit_limit(0), "max_audit_limit"),
    ] {
        assert!(config.validate().unwrap_err().message().contains(words));
    }
    config
        .with_rate_limit(0)
        .with_db_concurrency_limit(0)
        .with_db_task_timeout_ms(0)
        .validate()
        .unwrap();
}

#[test]
fn serving_without_a_token_has_to_be_allowed() {
    assert_eq!(
        serving_token(Some(" given "), Some("other"), "TOKEN", false).unwrap(),
        Some("given".to_string())
    );
    assert_eq!(
        serving_token(None, Some("other"), "TOKEN", false).unwrap(),
        Some("other".to_string())
    );
    assert_eq!(serving_token(None, None, "TOKEN", true).unwrap(), None);
    let err = serving_token(Some("  "), Some("other"), "TOKEN", false).unwrap_err();
    assert!(err.message().contains("set TOKEN"));
}

#[test]
fn bytes_are_compared_whole() {
    assert!(constant_time_eq(b"secret", b"secret"));
    assert!(!constant_time_eq(b"secret", b"secreT"));
    assert!(!constant_time_eq(b"secret", b"secrets"));
    assert!(constant_time_eq(b"", b""));
}

#[test]
fn memories_to_keep_are_checked() {
    let request = RememberHttpRequest {
        tenant_id: "tenant".to_string(),
        project_id: "project".to_string(),
        environment_id: Some("prod".to_string()),
        kind: MemoryNodeKind::Fact,
        text: "Checkout uses DATABASE_URL.".to_string(),
        project: None,
        idempotency_key: None,
    };
    let event = remember_event(request.clone(), 5).unwrap();
    assert_eq!(event.environment_id.as_deref(), Some("prod"));
    assert_eq!(event.observed_at_unix_ms, 5);
    for (change, field) in [
        (
            RememberHttpRequest {
                tenant_id: " ".to_string(),
                ..request.clone()
            },
            "tenant_id",
        ),
        (
            RememberHttpRequest {
                project_id: String::new(),
                ..request.clone()
            },
            "project_id",
        ),
        (
            RememberHttpRequest {
                text: "\t".to_string(),
                ..request.clone()
            },
            "text",
        ),
        (
            RememberHttpRequest {
                idempotency_key: Some(" ".to_string()),
                ..request.clone()
            },
            "idempotency_key",
        ),
    ] {
        assert_eq!(
            remember_event(change, 5).unwrap_err().message,
            format!("{field} must not be empty")
        );
    }
    assert!(validate_nonempty("text", "x").is_ok());
}

#[test]
fn errors_of_the_engine_become_answers() {
    let err = ApiError::from_memory_error(MemoryError::invalid("bad"));
    assert_eq!(err.status.code(), "bad_request");
    assert_eq!(err.message, "bad");
    let err = ApiError::from_memory_error(MemoryError::Io("disk".to_string()));
    assert_eq!(err.status.as_u16(), 500);
    assert_eq!(err.status.code(), "internal_error");
    assert_eq!(err.message, "io error: disk");
    assert_eq!(ApiError::timeout().status.as_u16(), 504);
    assert_eq!(LiveResponse::ok().status, "ok");
}

#[test]
fn actors_are_limited_by_the_minute() {
    let mut windows = RequestWindows::new();
    assert!(windows.let_through("a", 2, 0).is_ok());
    assert!(windows.let_through("a", 2, 30_000).is_ok());
    let err = windows.let_through("a", 2, 59_999).unwrap_err();
    assert_eq!(err.status, ApiStatus::TooManyRequests);
    assert!(windows.let_through("b", 2, 59_999).is_ok());
    assert!(windows.let_through("a", 2, 60_000).is_ok());
    assert!(windows.let_through("a", 0, 60_000).is_ok());
}

#[test]
fn database_tasks_are_bounded() {
    let config = test_config().with_db_concurrency_limit(2);
    assert_eq!(take_up_db_task(&config, 0).unwrap(), 1);
    assert_eq!(take_up_db_task(&config, 1).unwrap(), 2);
    let err = take_up_db_task(&config, 2).unwrap_err();
    assert_eq!(err.status.as_u16(), 503);
    assert_eq!(err.status.code(), "service_busy");
}

#[test]
fn maintenance_does_what_it_is_asked() {
    let options = maintenance_options(&MaintenanceHttpRequest {
        vacuum: None,
        repair_orphans: Some(true),
        prune_audit_before_unix_ms: None,
        retain_latest_audit_events: Some(10_000),
    });
    assert!(!options.vacuum);
    assert!(options.repair_orphans);
    assert_eq!(options.retain_latest_audit_events, Some(10_000));
}

#[test]
fn reconstruction_commands_end_before_database_tasks() {
    let config = test_config().with_db_task_timeout_ms(1_000);
    validate_provider_time(&config, 999).unwrap();
    assert!(validate_provider_time(&config, 1_000).is_err());
    let request = QueryHttpRequest {
        reconstruction_mode: Some(ReconstructionMode::Force),
        max_reconstruction_steps: Some(4),
        ..question("anything")
    };
    let query = query_of_request(&config, request).unwrap();
    assert!(validate_query_time(&config, &query, 249).is_ok());
    assert_eq!(
        validate_query_time(&config, &query, 250).unwrap_err().status,
        ApiStatus::BadRequest
    );
    let plain = query_of_request(&config, question("anything")).unwrap();
    assert!(validate_query_time(&config, &plain, u64::MAX).is_ok());
}

#[test]
fn requests_are_recorded_by_what_became_of_them() {
    for (status, outcome) in [
        (200, "success"),
        (401, "denied"),
        (429, "throttled"),
        (503, "failure"),
    ] {
        let record = request_record(true, "/v1/query", status);
        assert_eq!(record.outcome, outcome);
        assert_eq!(record.actor, "bearer");
        assert_eq!(record.status_code, Some(status));
        assert!(record.validate().is_ok());
    }
    assert_eq!(request_record(false, "/v1/stats", 200).actor, "anonymous");
}
