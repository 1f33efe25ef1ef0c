use flex_updater_mc::bot::bot_username;
use flex_updater_mc::bot::login_on_event;
use flex_updater_mc::bot::tp_command;
use flex_updater_mc::bot::worker_handle_chunk;
use flex_updater_mc::bot::worker_next_target;
use flex_updater_mc::bot::AzaleaBotSpawner;
use flex_updater_mc::bot::BotEvent;
use flex_updater_mc::bot::LoginAction;
use flex_updater_mc::bot::LoginState;
use flex_updater_mc::chunk::ChunkPos;
use flex_updater_mc::executor::MockServerExecutor;
use flex_updater_mc::executor::ServerExecutionConfig;
use flex_updater_mc::executor::ServerExecutor;
use flex_updater_mc::pending::PendingSet;
use flex_updater_mc::stage::is_ready_line;

fn drive_login(max_retries: u32, events: &[BotEvent]) -> (LoginState, Vec<LoginAction>) {
    let mut state = LoginState::Waiting { retry_count: 0 };
    let mut actions = Vec::new();
    for ev in events {
        match state {
            LoginState::Waiting { .. } => {
                let (next, action) = login_on_event(state, max_retries, 1, ev);
                state = next;
                if let Some(a) = action {
                    actions.push(a);
                }
            }
            _ => break,
        }
    }
    (state, actions)
}

#[test]
fn test_mock_server_executor_command_without_running() {
    let mut executor = MockServerExecutor::new();

    let result = executor.send_command("test command");
    assert!(result.is_err());
    assert!(result.unwrap_err().contains("not running"));
}

#[test]
fn test_mock_server_executor_default() {
    let executor = MockServerExecutor::default();
    assert!(!executor.is_running());
    assert!(executor.commands_sent().is_empty());
}

#[test]
fn test_mock_server_executor_basic_operations() {
    let mut executor = MockServerExecutor::new();

    assert!(!executor.is_running());
    assert!(executor.commands_sent().is_empty());

    let config = ServerExecutionConfig {
        java_path: None,
        jar_file_name: "test.jar".to_string(),
        port: 25565,
        cwd: "work".to_string(),
    };

    assert!(executor.start(config).is_ok());
    assert!(executor.is_running());

    assert!(executor.send_command("say Hello").is_ok());
    assert!(executor.send_command("time set day").is_ok());

    let commands = executor.commands_sent();
    assert_eq!(commands.len(), 2);
    assert_eq!(commands[0], "say Hello");
    assert_eq!(commands[1], "time set day");

    assert!(executor.stop().is_ok());
    assert!(!executor.is_running());
}

#[test]
fn test_mock_server_executor_already_running_error() {
    let mut executor = MockServerExecutor::new();

    let config = ServerExecutionConfig {
        java_path: None,
        jar_file_name: "test.jar".to_string(),
        port: 25565,
        cwd: "work".to_string(),
    };
    assert!(executor.start(config).is_ok());

    let config2 = ServerExecutionConfig {
        java_path: None,
        jar_file_name: "test2.jar".to_string(),
        port: 25566,
        cwd: "work".to_string(),
    };
    let result = executor.start(config2);
    assert!(result.is_err());
    assert!(result.unwrap_err().contains("already running"));
}

#[test]
fn test_mock_server_executor_with_start_failure() {
    let mut executor = MockServerExecutor::with_start_failure();
    let config = ServerExecutionConfig {
        java_path: None,
        jar_file_name: "test.jar".to_string(),
        port: 25565,
        cwd: "work".to_string(),
    };
    assert!(executor.start(config).is_err());
    assert!(!executor.is_running());
}

#[test]
fn test_mock_server_executor_with_stop_failure() {
    let mut executor = MockServerExecutor::with_stop_failure();
    assert!(executor.stop().is_err());
}

#[test]
fn test_mock_server_executor_with_command_failure() {
    let mut executor = MockServerExecutor::with_command_failure();
    let config = ServerExecutionConfig {
        java_path: None,
        jar_file_name: "test.jar".to_string(),
        port: 25565,
        cwd: "work".to_string(),
    };
    assert!(executor.start(config).is_ok());
    assert!(executor.send_command("anything").is_err());
    assert!(executor.commands_sent().is_empty());
}

#[test]
fn test_mock_server_executor_clear_commands() {
    let mut executor = MockServerExecutor::new();
    let config = ServerExecutionConfig {
        java_path: None,
        jar_file_name: "test.jar".to_string(),
        port: 25565,
        cwd: "work".to_string(),
    };
    assert!(executor.start(config).is_ok());
    assert!(executor.send_command("command1").is_ok());
    assert!(executor.send_command("command2").is_ok());
    assert_eq!(executor.commands_sent().len(), 2);

    executor.clear_commands();
    assert!(executor.commands_sent().is_empty());

    assert!(executor.send_command("command3").is_ok());
    assert_eq!(executor.commands_sent().len(), 1);
    assert_eq!(executor.commands_sent()[0], "command3");
}

#[test]
fn test_single_chunk_single_bot_schedule() {
    // One chunk and one bot: the worker teleports to the chunk centre,
    // the confirmation drains the pending set, and the worker exits.
    let chunks = vec![ChunkPos::new(0, 0)];
    let mut pending = PendingSet::from_chunks(&chunks);
    let mut executor = MockServerExecutor::new();
    let config = ServerExecutionConfig {
        java_path: None,
        jar_file_name: "server.jar".to_string(),
        port: 25565,
        cwd: "work".to_string(),
    };
    executor.start(config).unwrap();

    let name = bot_username(0);
    assert_eq!(name, "bot00");

    let (state, actions) = drive_login(3, &[BotEvent::Spawn {}]);
    assert_eq!(state, LoginState::Running);
    assert_eq!(actions, vec![LoginAction::EnterWorld]);

    let (target, cmd) = worker_next_target(&pending, 42, &name).unwrap();
    assert_eq!(target, ChunkPos::new(0, 0));
    assert_eq!(cmd, "tp bot00 8 100 8\n");
    executor.send_command(&cmd).unwrap();
    assert_eq!(executor.commands_sent()[0], "tp bot00 8 100 8\n");

    let removed = worker_handle_chunk(&mut pending, 0, 0);
    assert!(removed);
    assert!(pending.is_empty());
    assert!(worker_next_target(&pending, 7, &name).is_none());

    executor.send_command("stop").unwrap();
    executor.stop().unwrap();
    assert!(!executor.is_running());
}

#[test]
fn test_login_succeeds_after_disconnects_within_budget() {
    // Two disconnects, then a spawn, with three retries available.
    let events = vec![
        BotEvent::Disconnect { reason: "kicked".to_string() },
        BotEvent::Disconnect { reason: "kicked".to_string() },
        BotEvent::Spawn {},
    ];
    let (state, actions) = drive_login(3, &events);
    assert_eq!(state, LoginState::Running);
    assert_eq!(
        actions,
        vec![
            LoginAction::RetryAfter { delay_ms: 1 },
            LoginAction::RetryAfter { delay_ms: 1 },
            LoginAction::EnterWorld,
        ]
    );
}

#[test]
fn test_login_fails_with_attempts_after_budget() {
    // retries + 1 disconnects before any spawn: the failure reports
    // retries + 1 attempts.
    let events = vec![
        BotEvent::Disconnect { reason: "a".to_string() },
        BotEvent::Disconnect { reason: "b".to_string() },
        BotEvent::Disconnect { reason: "c".to_string() },
    ];
    let (state, actions) = drive_login(2, &events);
    assert_eq!(state, LoginState::Failed { attempts: 3 });
    assert_eq!(actions.last(), Some(&LoginAction::Fail { attempts: 3 }));
}

#[test]
fn test_bot_disconnect_then_retry_succeeds() {
    let spawner = AzaleaBotSpawner::with_retry_config("cache/bot-exe".to_string(), 2, 1);
    assert_eq!(spawner.max_retries, 2);
    assert_eq!(spawner.retry_delay_ms, 1);
    let events = vec![
        BotEvent::Disconnect { reason: "kicked".to_string() },
        BotEvent::Spawn {},
    ];
    let (state, actions) = drive_login(spawner.max_retries, &events);
    assert_eq!(state, LoginState::Running);
    assert_eq!(actions.len(), 2);
}

#[test]
fn test_chunk_event_before_login_is_forwarded() {
    let state = LoginState::Waiting { retry_count: 0 };
    let (next, action) = login_on_event(state, 3, 5000, &BotEvent::Chunk { x: 4, z: -9 });
    assert_eq!(next, LoginState::Waiting { retry_count: 0 });
    assert_eq!(action, Some(LoginAction::ForwardChunk { x: 4, z: -9 }));
}

#[test]
fn test_unlisted_chunk_reports_are_discarded() {
    let chunks = vec![ChunkPos::new(1, 1)];
    let mut pending = PendingSet::from_chunks(&chunks);
    let removed = worker_handle_chunk(&mut pending, 50, 50);
    assert!(!removed);
    assert_eq!(pending.len(), 1);
}

#[test]
fn test_worker_exit_only_on_empty_pending_set() {
    // A chunk the server never reports keeps the worker sampling; the
    // loop ends only once the set drains.
    let chunks = vec![ChunkPos::new(2, 3)];
    let mut pending = PendingSet::from_chunks(&chunks);
    for round in 0..5usize {
        let t = worker_next_target(&pending, round, "bot00");
        assert!(t.is_some());
    }
    worker_handle_chunk(&mut pending, 2, 3);
    assert!(worker_next_target(&pending, 0, "bot00").is_none());
}

#[test]
fn test_many_chunks_all_removed() {
    let mut chunks = Vec::new();
    for x in 0..10isize {
        for z in 0..10isize {
            chunks.push(ChunkPos::new(x, z));
        }
    }
    let mut pending = PendingSet::from_chunks(&chunks);
    assert_eq!(pending.len(), 100);
    for bot in 0..4usize {
        let name = bot_username(bot as u32);
        let t = worker_next_target(&pending, bot * 31, &name);
        assert!(t.is_some());
    }
    for x in 0..10i32 {
        for z in 0..10i32 {
            assert!(worker_handle_chunk(&mut pending, x, z));
        }
    }
    assert!(pending.is_empty());
}

#[test]
fn test_tp_command_format_for_negative_chunks() {
    let cmd = tp_command("bot03", &ChunkPos::new(-2, 5));
    assert_eq!(cmd, "tp bot03 -24 100 88\n");
}

#[test]
fn test_ready_line_detection() {
    assert!(is_ready_line(
        "[12:00:00] [Server thread/INFO]: Done (3.14s)! For help, type \"help\""
    ));
    assert!(!is_ready_line("[12:00:00] [Server thread/INFO]: Starting minecraft server"));
}
