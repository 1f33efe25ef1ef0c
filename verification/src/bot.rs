//! Bot lifecycle: the event protocol, the login retry policy and the
//! worker's scheduling decisions.
//!
//! A bot runs as a subprocess and reports events as JSON lines on its
//! stdout. The decisions taken on those events are pure functions here;
//! the process plumbing that produces the events lives outside the
//! library.

use crate::chunk::ChunkPos;
use crate::pending::PendingSet;
use crate::text::dec_digits;
use crate::text::push_char;
use crate::text::push_dec_i64;
use crate::text::append_str;
use vstd::prelude::*;

verus! {

/// One event from a bot's stdout stream. Unknown event types are dropped
/// by the reader before they reach the library, so the protocol stays
/// forward-compatible.
#[derive(Debug, Clone, PartialEq, Eq)]
pub enum BotEvent {
    /// The bot completed login and entered the world.
    Spawn {},
    /// The bot lost its connection; the subprocess is finished.
    Disconnect { reason: String },
    /// The server sent the bot the chunk at `(x, z)`.
    Chunk { x: i32, z: i32 },
}

/// Spawns bot subprocesses with a bounded login retry policy.
#[derive(Debug, Clone)]
pub struct AzaleaBotSpawner {
    pub bot_file_path: String,
    pub max_retries: u32,
    pub retry_delay_ms: u64,
}

impl AzaleaBotSpawner {
    /// The default policy: three retries, five seconds apart.
    pub fn new(bot_file_path: String) -> (r: AzaleaBotSpawner)
        ensures
            r.bot_file_path == bot_file_path,
            r.max_retries == 3u32,
            r.retry_delay_ms == 5000u64,
    {
        AzaleaBotSpawner { bot_file_path, max_retries: 3, retry_delay_ms: 5000 }
    }

    pub fn with_retry_config(bot_file_path: String, max_retries: u32, retry_delay_ms: u64) -> (
        r: AzaleaBotSpawner)
        ensures
            r.bot_file_path == bot_file_path,
            r.max_retries == max_retries,
            r.retry_delay_ms == retry_delay_ms,
    {
        AzaleaBotSpawner { bot_file_path, max_retries, retry_delay_ms }
    }
}

/// A handle on a running bot subprocess: its name, and a stop that must be
/// idempotent against an already-exited child.
pub trait BotHandle {
    fn name(&self) -> String;

    fn stop(self) -> Result<(), String>;
}

/// Where the login handshake stands.
#[derive(Debug, Clone, PartialEq, Eq, Structural)]
pub enum LoginState {
    /// Waiting for the first terminal event of the current attempt;
    /// `retry_count` attempts have already been retried.
    Waiting { retry_count: u32 },
    /// The bot is in the world.
    Running,
    /// Every attempt ended in a disconnect; `attempts` subprocesses were
    /// started in all.
    Failed { attempts: u32 },
}

/// What the spawner must do next after an event.
#[derive(Debug, Clone, PartialEq, Eq, Structural)]
pub enum LoginAction {
    /// Login finished; hand out the handle.
    EnterWorld,
    /// Start a fresh subprocess after the given delay.
    RetryAfter { delay_ms: u64 },
    /// Give up with `BotLoginFailed`.
    Fail { attempts: u32 },
    /// Forward a pre-login chunk confirmation into the channel.
    ForwardChunk { x: i32, z: i32 },
}

/// The outcome of running the login handshake over a whole event stream.
#[derive(Debug, Clone, PartialEq, Eq, Structural)]
pub enum LoginOutcome {
    Success,
    Failure { attempts: u32 },
    Pending,
}

/// The handshake outcome over a sequence of pre-login events, starting
/// with `count` retries already spent: a spawn succeeds; a disconnect
/// retries while retries remain and otherwise fails after `count + 1`
/// attempts; chunk events pass through.
pub open spec fn login_outcome(events: Seq<BotEvent>, max_retries: u32, count: u32) -> LoginOutcome
    decreases events.len(),
{
    if events.len() == 0 {
        LoginOutcome::Pending
    } else {
        match events[0] {
            BotEvent::Spawn {  } => LoginOutcome::Success,
            BotEvent::Disconnect { .. } => if count < max_retries {
                login_outcome(events.drop_first(), max_retries, (count + 1) as u32)
            } else {
                LoginOutcome::Failure { attempts: (count + 1) as u32 }
            },
            BotEvent::Chunk { .. } => login_outcome(events.drop_first(), max_retries, count),
        }
    }
}

/// One step of the login handshake: feeds one event into the state.
pub fn login_on_event(
    state: LoginState,
    max_retries: u32,
    retry_delay_ms: u64,
    event: &BotEvent,
) -> (r: (LoginState, Option<LoginAction>))
    requires
        state matches LoginState::Waiting { retry_count } && retry_count <= max_retries,
        max_retries < 0xffff_ffffu32,
    ensures
        ({
            let count = state->Waiting_retry_count;
            match event {
                BotEvent::Spawn {  } => r == (
                    LoginState::Running,
                    Some(LoginAction::EnterWorld),
                ),
                BotEvent::Disconnect { .. } => if count < max_retries {
                    r == (
                        LoginState::Waiting { retry_count: (count + 1) as u32 },
                        Some(LoginAction::RetryAfter { delay_ms: retry_delay_ms }),
                    )
                } else {
                    r == (
                        LoginState::Failed { attempts: (count + 1) as u32 },
                        Some(LoginAction::Fail { attempts: (count + 1) as u32 }),
                    )
                },
                BotEvent::Chunk { x, z } => r == (
                    state,
                    Some(LoginAction::ForwardChunk { x: *x, z: *z }),
                ),
            }
        }),
{
    let count = match state {
        LoginState::Waiting { retry_count } => retry_count,
        _ => 0,
    };
    match event {
        BotEvent::Spawn {  } => (LoginState::Running, Some(LoginAction::EnterWorld)),
        BotEvent::Disconnect { reason: _ } => {
            if count < max_retries {
                (
                    LoginState::Waiting { retry_count: count + 1 },
                    Some(LoginAction::RetryAfter { delay_ms: retry_delay_ms }),
                )
            } else {
                (
                    LoginState::Failed { attempts: count + 1 },
                    Some(LoginAction::Fail { attempts: count + 1 }),
                )
            }
        },
        BotEvent::Chunk { x, z } => (state, Some(LoginAction::ForwardChunk { x: *x, z: *z })),
    }
}

/// Login succeeds after exactly `n` disconnects followed by a spawn,
/// whenever the retry budget covers them: with `retries >= n`, the `n`
/// retries are spent and the spawn enters the world.
pub proof fn lemma_login_succeeds_within_budget(
    pre: Seq<BotEvent>,
    max_retries: u32,
    count: u32,
)
    requires
        forall|k: int| 0 <= k < pre.len() ==> (#[trigger] pre[k]) matches BotEvent::Disconnect { .. },
        count + pre.len() <= max_retries,
    ensures
        login_outcome(pre.push(BotEvent::Spawn {  }), max_retries, count) == LoginOutcome::Success,
    decreases pre.len(),
{
    let events = pre.push(BotEvent::Spawn {  });
    if pre.len() == 0 {
        assert(events[0] == BotEvent::Spawn {  });
    } else {
        assert(events[0] == pre[0]);
        assert(events[0] matches BotEvent::Disconnect { .. });
        assert(count < max_retries);
        assert(events.drop_first() =~= pre.drop_first().push(BotEvent::Spawn {  }));
        assert(forall|k: int|
            0 <= k < pre.drop_first().len() ==> (#[trigger] pre.drop_first()[k])
                matches BotEvent::Disconnect { .. });
        lemma_login_succeeds_within_budget(pre.drop_first(), max_retries, (count + 1) as u32);
    }
}

/// Login fails with `attempts == retries + 1` when `retries + 1`
/// disconnects arrive before any spawn.
pub proof fn lemma_login_fails_past_budget(
    pre: Seq<BotEvent>,
    tail: Seq<BotEvent>,
    max_retries: u32,
    count: u32,
)
    requires
        forall|k: int| 0 <= k < pre.len() ==> (#[trigger] pre[k]) matches BotEvent::Disconnect { .. },
        count + pre.len() == max_retries + 1,
        pre.len() >= 1,
    ensures
        login_outcome(pre + tail, max_retries, count) == (LoginOutcome::Failure {
            attempts: (max_retries + 1) as u32,
        }),
    decreases pre.len(),
{
    let events = pre + tail;
    assert(events[0] == pre[0]);
    assert(events[0] matches BotEvent::Disconnect { .. });
    if count < max_retries {
        assert(events.drop_first() =~= pre.drop_first() + tail);
        assert(forall|k: int|
            0 <= k < pre.drop_first().len() ==> (#[trigger] pre.drop_first()[k])
                matches BotEvent::Disconnect { .. });
        lemma_login_fails_past_budget(pre.drop_first(), tail, max_retries, (count + 1) as u32);
    } else {
        assert(count == max_retries);
    }
}

/// The console line that teleports `name` to the centre of `chunk`:
/// `tp <name> <x*16+8> 100 <z*16+8>` followed by a newline.
pub open spec fn tp_command_chars(name: Seq<char>, x: int, z: int) -> Seq<char> {
    seq!['t', 'p', ' '] + name + seq![' '] + crate::text::dec_int(x * 16 + 8) + seq![
        ' ',
        '1',
        '0',
        '0',
        ' ',
    ] + crate::text::dec_int(z * 16 + 8) + seq!['\n']
}

/// Builds the teleport command for a bot and a chunk.
pub fn tp_command(name: &str, chunk: &ChunkPos) -> (s: String)
    ensures
        s@ == tp_command_chars(name@, chunk.x as int, chunk.z as int),
{
    let mut s = String::new();
    push_char(&mut s, 't');
    push_char(&mut s, 'p');
    push_char(&mut s, ' ');
    append_str(&mut s, name);
    push_char(&mut s, ' ');
    crate::text::push_dec_i128(&mut s, (chunk.x as i128) * 16 + 8);
    push_char(&mut s, ' ');
    push_char(&mut s, '1');
    push_char(&mut s, '0');
    push_char(&mut s, '0');
    push_char(&mut s, ' ');
    crate::text::push_dec_i128(&mut s, (chunk.z as i128) * 16 + 8);
    push_char(&mut s, '\n');
    proof {
        assert(s@ =~= tp_command_chars(name@, chunk.x as int, chunk.z as int));
    }
    s
}

/// The username of worker `idx`: `bot` followed by the index padded to at
/// least two digits.
pub open spec fn bot_username_chars(idx: int) -> Seq<char> {
    if idx < 10 {
        seq!['b', 'o', 't', '0'] + dec_digits(idx)
    } else {
        seq!['b', 'o', 't'] + dec_digits(idx)
    }
}

pub fn bot_username(idx: u32) -> (s: String)
    ensures
        s@ == bot_username_chars(idx as int),
{
    let mut s = String::new();
    push_char(&mut s, 'b');
    push_char(&mut s, 'o');
    push_char(&mut s, 't');
    if idx < 10 {
        push_char(&mut s, '0');
    }
    crate::text::push_dec_u64(&mut s, idx as u64);
    proof {
        assert(s@ =~= bot_username_chars(idx as int));
    }
    s
}

/// The release file name of the bot binary for a version and platform:
/// `flex-update-mc-bot-<version>-<os>-<arch>`, with `.exe` on Windows.
pub open spec fn bot_executable_name_chars(
    version: Seq<char>,
    os: Seq<char>,
    arch: Seq<char>,
) -> Seq<char> {
    "flex-update-mc-bot-"@ + version + seq!['-'] + os + seq!['-'] + arch + (if os
        == "windows"@ {
        ".exe"@
    } else {
        Seq::<char>::empty()
    })
}

/// The release URL the bot binary downloads from:
/// `<repository>/releases/download/v<version>/<file name>`.
pub open spec fn bot_download_url_chars(version: Seq<char>, file_name: Seq<char>) -> Seq<char> {
    "https://github.com/txkodo/FlexUpdateMcBot/releases/download/v"@ + version + seq!['/']
        + file_name
}

/// Builds the bot binary's release file name for a version and platform.
pub fn bot_executable_name(version: &str, os: &str, arch: &str) -> (s: String)
    ensures
        s@ == bot_executable_name_chars(version@, os@, arch@),
{
    proof {
        reveal_strlit("flex-update-mc-bot-");
        reveal_strlit("windows");
        reveal_strlit(".exe");
    }
    let mut s = String::from_str("flex-update-mc-bot-");
    append_str(&mut s, version);
    push_char(&mut s, '-');
    append_str(&mut s, os);
    push_char(&mut s, '-');
    append_str(&mut s, arch);
    if crate::text::str_eq(os, "windows") {
        append_str(&mut s, ".exe");
    }
    proof {
        assert(s@ =~= bot_executable_name_chars(version@, os@, arch@));
    }
    s
}

/// Builds the release URL of a bot binary file.
pub fn bot_download_url(version: &str, file_name: &str) -> (s: String)
    ensures
        s@ == bot_download_url_chars(version@, file_name@),
{
    let mut s = String::from_str(
        "https://github.com/txkodo/FlexUpdateMcBot/releases/download/v",
    );
    append_str(&mut s, version);
    push_char(&mut s, '/');
    append_str(&mut s, file_name);
    proof {
        assert(s@ =~= bot_download_url_chars(version@, file_name@));
    }
    s
}

/// Picks a worker's next move: a teleport to a still-pending chunk chosen
/// by the caller-supplied sample index, or nothing exactly when the
/// pending set is empty. The worker exits on `None` — emptiness of the
/// pending set, not the state of any channel, ends the loop.
pub fn worker_next_target(pending: &PendingSet, sample_index: usize, bot_name: &str) -> (r:
    Option<(ChunkPos, String)>)
    ensures
        match r {
            Some(t) => pending@.contains((t.0.x as int, t.0.z as int)) && t.1@
                == tp_command_chars(bot_name@, t.0.x as int, t.0.z as int),
            None => pending@ =~= Set::<(int, int)>::empty(),
        },
{
    match pending.sample(sample_index) {
        None => None,
        Some(c) => {
            let cmd = tp_command(bot_name, &c);
            Some((c, cmd))
        },
    }
}

/// Strikes a reported chunk from the pending set; a report for a chunk
/// outside the set is silently discarded.
pub fn worker_handle_chunk(pending: &mut PendingSet, x: i32, z: i32) -> (r: bool)
    ensures
        final(pending)@ =~= old(pending)@.remove((x as int, z as int)),
        final(pending)@.subset_of(old(pending)@),
        r == old(pending)@.contains((x as int, z as int)),
{
    pending.remove(x, z)
}

} // verus!
