//! Decisions of a reconstruction and the commands behind them.
use beater_memory::error::{MemoryError, MemoryResult};
use beater_memory::explore::{explore, Exploration, NodeLink};
use beater_memory::model::MemoryNodeKind;
use beater_memory::reconstruct::{
    command_result, command_timeout_error, next_command_action, ActiveReconstructor, CommandAction,
    CommandLookup, CommandReconstructionProviderConfig, DeterministicReconstructor, ProviderAction,
    ProviderDecision, ProviderReconstructor, ReconstructionCandidate, ReconstructionDecision,
    ReconstructionProvider, ReconstructionReply, ReconstructionStep, ReconstructorConfig,
    RuntimeReconstructor,
};

struct StaticProvider {
    raw: Result<&'static str, &'static str>,
}

fn decode(raw: &str) -> Result<ProviderDecision, String> {
    let value: serde_json::Value = serde_json::from_str(raw).map_err(|err| err.to_string())?;
    let decision = match value.get("decision").and_then(serde_json::Value::as_str) {
        Some("accept") => ProviderAction::Accept,
        Some("prune") => ProviderAction::Prune,
        Some("stop") => ProviderAction::Stop,
        _ => return Err("unknown decision".to_string()),
    };
    Ok(ProviderDecision {
        decision,
        node_id: value
            .get("node_id")
            .and_then(serde_json::Value::as_str)
            .map(str::to_string),
    })
}

impl ReconstructionProvider for StaticProvider {
    fn decide(&self, _step: &ReconstructionStep) -> MemoryResult<ReconstructionReply> {
        match self.raw {
            Ok(raw) => Ok(ReconstructionReply {
                text: raw.to_string(),
                output: decode(raw),
            }),
            Err(err) => Err(MemoryError::invalid(err)),
        }
    }
}

fn candidate(id: &str, score: u32, tokens: u32) -> ReconstructionCandidate {
    ReconstructionCandidate {
        node_id: id.to_string(),
        kind: MemoryNodeKind::Procedure,
        text: "Run the checkout database migration.".to_string(),
        score,
        token_estimate: tokens,
    }
}

fn step() -> ReconstructionStep {
    ReconstructionStep {
        question: "which runbook fixes checkout?".to_string(),
        step_index: 0,
        expanded_node_id: "node_seed".to_string(),
        remaining_tokens: 100,
        candidates: vec![candidate("node_candidate", 800_000_000, 8)],
    }
}

#[test]
fn provider_reconstructor_accepts_valid_candidate() -> MemoryResult<()> {
    let reconstructor = ProviderReconstructor::new(StaticProvider {
        raw: Ok("{\"decision\":\"accept\",\"node_id\":\"node_candidate\"}"),
    });

    let outcome = reconstructor.decide(&step())?;

    assert_eq!(
        outcome.decision,
        ReconstructionDecision::Accept {
            node_id: "node_candidate".to_string()
        }
    );
    assert_eq!(outcome.metrics.provider_calls, 1);
    assert_eq!(outcome.metrics.provider_errors, 0);
    assert!(outcome.metrics.input_tokens > 0);
    assert!(outcome.metrics.output_tokens > 0);
    Ok(())
}

#[test]
fn provider_reconstructor_prunes_valid_candidate() -> MemoryResult<()> {
    let reconstructor = ProviderReconstructor::new(StaticProvider {
        raw: Ok("{\"decision\":\"prune\",\"node_id\":\"node_candidate\"}"),
    });

    let outcome = reconstructor.decide(&step())?;

    assert_eq!(
        outcome.decision,
        ReconstructionDecision::Prune {
            node_id: "node_candidate".to_string()
        }
    );
    assert_eq!(outcome.metrics.provider_calls, 1);
    assert_eq!(outcome.metrics.provider_errors, 0);
    assert_eq!(outcome.metrics.schema_errors, 0);
    Ok(())
}

#[test]
fn provider_reconstructor_stops_on_stop_decision() -> MemoryResult<()> {
    let reconstructor = ProviderReconstructor::new(StaticProvider {
        raw: Ok("{\"decision\":\"stop\"}"),
    });

    let outcome = reconstructor.decide(&step())?;

    assert_eq!(outcome.decision, ReconstructionDecision::Stop);
    assert_eq!(outcome.metrics.provider_calls, 1);
    assert_eq!(outcome.metrics.provider_errors, 0);
    assert_eq!(outcome.metrics.schema_errors, 0);
    Ok(())
}

#[test]
fn provider_reconstructor_stops_on_invalid_candidate() -> MemoryResult<()> {
    let reconstructor = ProviderReconstructor::new(StaticProvider {
        raw: Ok("{\"decision\":\"accept\",\"node_id\":\"missing\"}"),
    });

    let outcome = reconstructor.decide(&step())?;

    assert_eq!(outcome.decision, ReconstructionDecision::Stop);
    assert_eq!(outcome.metrics.provider_calls, 1);
    assert_eq!(outcome.metrics.provider_errors, 0);
    assert_eq!(outcome.metrics.schema_errors, 1);
    Ok(())
}

#[test]
fn provider_reconstructor_stops_on_malformed_json() -> MemoryResult<()> {
    let reconstructor = ProviderReconstructor::new(StaticProvider {
        raw: Ok("not json"),
    });

    let outcome = reconstructor.decide(&step())?;

    assert_eq!(outcome.decision, ReconstructionDecision::Stop);
    assert_eq!(outcome.metrics.provider_calls, 1);
    assert_eq!(outcome.metrics.provider_errors, 0);
    assert_eq!(outcome.metrics.schema_errors, 1);
    Ok(())
}

#[test]
fn provider_reconstructor_stops_on_transport_error() -> MemoryResult<()> {
    let reconstructor = ProviderReconstructor::new(StaticProvider {
        raw: Err("timeout"),
    });

    let outcome = reconstructor.decide(&step())?;

    assert_eq!(outcome.decision, ReconstructionDecision::Stop);
    assert_eq!(outcome.metrics.provider_calls, 1);
    assert_eq!(outcome.metrics.provider_errors, 1);
    assert_eq!(outcome.metrics.schema_errors, 0);
    Ok(())
}

#[test]
fn command_reconstructor_rejects_missing_command() {
    let err = CommandReconstructionProviderConfig::new(
        "/definitely/missing/beater-memory-reconstructor",
    )
    .validate(&CommandLookup::NotAccessible(
        "No such file or directory (os error 2)".to_string(),
    ))
    .unwrap_err();

    assert!(err.message().contains("not accessible"));
    assert!(err
        .message()
        .contains("\"/definitely/missing/beater-memory-reconstructor\""));
}

#[test]
fn command_configurations_are_checked() {
    let found = CommandLookup::Executable;
    CommandReconstructionProviderConfig::new("/bin/sh")
        .validate(&found)
        .unwrap();
    assert!(CommandReconstructionProviderConfig::new("")
        .validate(&found)
        .unwrap_err()
        .message()
        .contains("must not be empty"));
    assert!(CommandReconstructionProviderConfig::new("/bin/sh")
        .with_timeout_ms(0)
        .validate(&found)
        .unwrap_err()
        .message()
        .contains("timeout_ms"));
    let named = CommandReconstructionProviderConfig::new("judge");
    for (lookup, words) in [
        (CommandLookup::NotAFile, "is not a file"),
        (CommandLookup::NotExecutable, "is not executable"),
        (CommandLookup::Searched(false), "was not found in PATH"),
        (CommandLookup::NoSearchPath, "PATH is unset"),
    ] {
        assert!(named.validate(&lookup).unwrap_err().message().contains(words));
    }
    assert_eq!(
        named
            .with_arg("-c")
            .with_args(vec!["a".to_string(), "b".to_string()])
            .args,
        vec!["-c", "a", "b"]
    );
}

#[test]
fn finished_commands_come_to_their_output() {
    assert_eq!(
        command_result(true, "exit status: 0", Ok("{}".to_string()), "").unwrap(),
        "{}"
    );
    let err = command_result(
        false,
        "exit status: 42",
        Ok(String::new()),
        "provider failed",
    )
    .unwrap_err();
    assert!(err.message().contains("exited with status"));
    assert!(err.message().contains("provider failed"));
    let err = command_result(
        true,
        "exit status: 0",
        Err("invalid utf-8 sequence".to_string()),
        "",
    )
    .unwrap_err();
    assert!(err.message().contains("UTF-8"));
    assert!(command_timeout_error(50)
        .message()
        .contains("exceeded timeout_ms 50"));
}

#[test]
fn running_commands_are_ended_when_late() {
    assert_eq!(
        next_command_action(true, true, true),
        CommandAction::Finish
    );
    assert_eq!(
        next_command_action(false, true, true),
        CommandAction::TimeOut
    );
    assert_eq!(
        next_command_action(true, false, false),
        CommandAction::Wait
    );
}

#[test]
fn runtime_reconstructors_follow_their_configuration() {
    let found = CommandLookup::Executable;
    let built = ReconstructorConfig::default()
        .build(&found, StaticProvider { raw: Err("unused") })
        .unwrap();
    assert!(matches!(built, RuntimeReconstructor::Deterministic(_)));
    let built = ReconstructorConfig::command("/bin/sh")
        .build(
            &found,
            StaticProvider {
                raw: Ok("{\"decision\":\"stop\"}"),
            },
        )
        .unwrap();
    assert_eq!(
        built.decide(&step()).unwrap().decision,
        ReconstructionDecision::Stop
    );
    assert!(ReconstructorConfig::command("missing")
        .validate(&CommandLookup::Searched(false))
        .is_err());
}

#[test]
fn deterministic_policy_takes_the_best_that_fits() {
    let mut step = step();
    step.candidates = vec![
        candidate("small", 300_000_000, 8),
        candidate("large", 900_000_000, 500),
        candidate("good", 700_000_000, 40),
    ];
    assert_eq!(
        DeterministicReconstructor.decide(&step).unwrap().decision,
        ReconstructionDecision::Accept {
            node_id: "good".to_string()
        }
    );
}

#[test]
fn walks_keep_within_steps_and_tokens() -> MemoryResult<()> {
    let input = Exploration {
        question: "which runbook fixes checkout?".to_string(),
        pool: vec![
            candidate("a", 900_000_000, 10),
            candidate("b", 800_000_000, 10),
            candidate("c", 700_000_000, 10),
        ],
        links: vec![
            NodeLink {
                from: "seed".to_string(),
                to: "a".to_string(),
            },
            NodeLink {
                from: "a".to_string(),
                to: "b".to_string(),
            },
            NodeLink {
                from: "b".to_string(),
                to: "c".to_string(),
            },
        ],
        start: vec!["seed".to_string()],
        max_steps: 2,
        max_tokens: 100,
    };
    let walk = explore(&input, &DeterministicReconstructor)?;
    assert_eq!(walk.accepted, vec!["a", "b"]);
    assert_eq!(walk.steps, 2);
    assert_eq!(walk.spent, 20);
    Ok(())
}

#[test]
fn walks_count_what_their_provider_was_asked() -> MemoryResult<()> {
    let input = Exploration {
        question: "which runbook fixes checkout?".to_string(),
        pool: vec![candidate("a", 900_000_000, 10)],
        links: vec![NodeLink {
            from: "seed".to_string(),
            to: "a".to_string(),
        }],
        start: vec!["seed".to_string()],
        max_steps: 3,
        max_tokens: 100,
    };
    let failing = ProviderReconstructor::new(StaticProvider {
        raw: Err("timeout"),
    });
    let walk = explore(&input, &failing)?;
    assert!(walk.accepted.is_empty());
    assert_eq!(walk.metrics.provider_calls, 1);
    assert_eq!(walk.metrics.provider_errors, 1);
    assert!(walk.metrics.input_tokens > 0);
    let quiet = explore(&input, &DeterministicReconstructor)?;
    assert_eq!(quiet.metrics.provider_calls, 0);
    Ok(())
}
