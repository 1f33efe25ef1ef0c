//! Driving a server process through start, console commands and stop.
//!
//! The trait is the seam between the coordinator and the process: the real
//! child-process executor lives with the process plumbing, while the mock
//! here records commands and is fully verified.

use vstd::prelude::*;

verus! {

/// What a server needs to start: the launcher path, the jar, the port and
/// the working directory.
#[derive(Debug, Clone)]
pub struct ServerExecutionConfig {
    pub java_path: Option<String>,
    pub jar_file_name: String,
    pub port: u16,
    pub cwd: String,
}

/// Starts and stops a server and feeds its console.
pub trait ServerExecutor {
    fn start(&mut self, config: ServerExecutionConfig) -> Result<(), String>;

    fn stop(&mut self) -> Result<(), String>;

    fn send_command(&mut self, command: &str) -> Result<(), String>;
}

/// An executor that runs no process: it tracks the running state and
/// records every command sent while running.
#[derive(Debug)]
pub struct MockServerExecutor {
    is_running: bool,
    commands_sent: Vec<String>,
    should_fail_start: bool,
    should_fail_stop: bool,
    should_fail_command: bool,
}

impl MockServerExecutor {
    pub closed spec fn spec_is_running(&self) -> bool {
        self.is_running
    }

    pub closed spec fn spec_commands(&self) -> Seq<Seq<char>> {
        self.commands_sent.deep_view()
    }

    pub closed spec fn spec_fail_start(&self) -> bool {
        self.should_fail_start
    }

    pub closed spec fn spec_fail_stop(&self) -> bool {
        self.should_fail_stop
    }

    pub closed spec fn spec_fail_command(&self) -> bool {
        self.should_fail_command
    }

    /// A fresh mock: stopped, no commands recorded, no induced failures.
    pub fn new() -> (r: MockServerExecutor)
        ensures
            !r.spec_is_running(),
            r.spec_commands() =~= Seq::<Seq<char>>::empty(),
            !r.spec_fail_start(),
            !r.spec_fail_stop(),
            !r.spec_fail_command(),
    {
        MockServerExecutor {
            is_running: false,
            commands_sent: Vec::new(),
            should_fail_start: false,
            should_fail_stop: false,
            should_fail_command: false,
        }
    }

    /// A mock whose `start` always fails.
    pub fn with_start_failure() -> (r: MockServerExecutor)
        ensures
            !r.spec_is_running(),
            r.spec_commands() =~= Seq::<Seq<char>>::empty(),
            r.spec_fail_start(),
            !r.spec_fail_stop(),
            !r.spec_fail_command(),
    {
        MockServerExecutor {
            is_running: false,
            commands_sent: Vec::new(),
            should_fail_start: true,
            should_fail_stop: false,
            should_fail_command: false,
        }
    }

    /// A mock whose `stop` always fails.
    pub fn with_stop_failure() -> (r: MockServerExecutor)
        ensures
            !r.spec_is_running(),
            r.spec_commands() =~= Seq::<Seq<char>>::empty(),
            !r.spec_fail_start(),
            r.spec_fail_stop(),
            !r.spec_fail_command(),
    {
        MockServerExecutor {
            is_running: false,
            commands_sent: Vec::new(),
            should_fail_start: false,
            should_fail_stop: true,
            should_fail_command: false,
        }
    }

    /// A mock whose `send_command` always fails.
    pub fn with_command_failure() -> (r: MockServerExecutor)
        ensures
            !r.spec_is_running(),
            r.spec_commands() =~= Seq::<Seq<char>>::empty(),
            !r.spec_fail_start(),
            !r.spec_fail_stop(),
            r.spec_fail_command(),
    {
        MockServerExecutor {
            is_running: false,
            commands_sent: Vec::new(),
            should_fail_start: false,
            should_fail_stop: false,
            should_fail_command: true,
        }
    }

    pub fn is_running(&self) -> (r: bool)
        ensures
            r == self.spec_is_running(),
    {
        self.is_running
    }

    /// The commands recorded so far, in the order they were sent.
    pub fn commands_sent(&self) -> (r: &Vec<String>)
        ensures
            r.deep_view() == self.spec_commands(),
    {
        &self.commands_sent
    }

    /// Forgets all recorded commands.
    pub fn clear_commands(&mut self)
        ensures
            final(self).spec_commands() =~= Seq::<Seq<char>>::empty(),
            final(self).spec_is_running() == old(self).spec_is_running(),
            final(self).spec_fail_start() == old(self).spec_fail_start(),
            final(self).spec_fail_stop() == old(self).spec_fail_stop(),
            final(self).spec_fail_command() == old(self).spec_fail_command(),
    {
        self.commands_sent.clear();
    }
}

impl ServerExecutor for MockServerExecutor {
    /// Succeeds exactly when no start failure is induced and the mock is
    /// not already running; on success the mock is running.
    fn start(&mut self, config: ServerExecutionConfig) -> (r: Result<(), String>)
        ensures
            final(self).spec_commands() == old(self).spec_commands(),
            final(self).spec_fail_start() == old(self).spec_fail_start(),
            final(self).spec_fail_stop() == old(self).spec_fail_stop(),
            final(self).spec_fail_command() == old(self).spec_fail_command(),
            r is Ok <==> (!old(self).spec_fail_start() && !old(self).spec_is_running()),
            r is Ok ==> final(self).spec_is_running(),
            r is Err ==> final(self).spec_is_running() == old(self).spec_is_running(),
    {
        if self.should_fail_start {
            return Err(String::from_str("Mock start failure"));
        }
        if self.is_running {
            return Err(String::from_str("Server is already running"));
        }
        self.is_running = true;
        Ok(())
    }

    /// Succeeds exactly when no stop failure is induced; afterwards the
    /// mock is stopped. Stopping an already stopped mock succeeds too.
    fn stop(&mut self) -> (r: Result<(), String>)
        ensures
            final(self).spec_commands() == old(self).spec_commands(),
            final(self).spec_fail_start() == old(self).spec_fail_start(),
            final(self).spec_fail_stop() == old(self).spec_fail_stop(),
            final(self).spec_fail_command() == old(self).spec_fail_command(),
            r is Ok <==> !old(self).spec_fail_stop(),
            r is Ok ==> !final(self).spec_is_running(),
            r is Err ==> final(self).spec_is_running() == old(self).spec_is_running(),
    {
        if self.should_fail_stop {
            return Err(String::from_str("Mock stop failure"));
        }
        self.is_running = false;
        Ok(())
    }

    /// Succeeds exactly when no command failure is induced and the mock is
    /// running; on success the command is appended to the record.
    fn send_command(&mut self, command: &str) -> (r: Result<(), String>)
        ensures
            final(self).spec_is_running() == old(self).spec_is_running(),
            final(self).spec_fail_start() == old(self).spec_fail_start(),
            final(self).spec_fail_stop() == old(self).spec_fail_stop(),
            final(self).spec_fail_command() == old(self).spec_fail_command(),
            r is Ok <==> (!old(self).spec_fail_command() && old(self).spec_is_running()),
            r is Ok ==> final(self).spec_commands() == old(self).spec_commands().push(command@),
            r is Err ==> final(self).spec_commands() == old(self).spec_commands(),
    {
        if self.should_fail_command {
            return Err(String::from_str("Mock command failure"));
        }
        if !self.is_running {
            return Err(String::from_str("Server is not running"));
        }
        let owned = String::from_str(command);
        self.commands_sent.push(owned);
        proof {
            assert(self.commands_sent.deep_view() =~~= old(self).commands_sent.deep_view().push(
                command@,
            ));
        }
        Ok(())
    }
}

impl Default for MockServerExecutor {
    /// Same as `new`: stopped, no commands, no induced failures.
    fn default() -> (r: MockServerExecutor)
        ensures
            !r.spec_is_running(),
            r.spec_commands() =~= Seq::<Seq<char>>::empty(),
            !r.spec_fail_start(),
            !r.spec_fail_stop(),
            !r.spec_fail_command(),
    {
        MockServerExecutor::new()
    }
}

} // verus!
