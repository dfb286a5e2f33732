//! The executor's tunables and the runtime environment switch.

use vstd::prelude::*;

verus! {

/// The knobs that shape the executor's memory and concurrency footprint.
#[derive(Clone, Copy, PartialEq, Eq, Structural, Debug)]
pub struct ServerConfig {
    /// Whether the process prints its configuration on startup.
    pub print_config_on_startup: bool,
    /// Port of the HTTP submission surface.
    pub listen_port: u16,
    /// The horizon: a worker never sleeps longer than this many seconds, so a
    /// task further out than `now + max_seconds_to_sleep` is never held in
    /// memory.
    pub max_seconds_to_sleep: i64,
    /// Seconds between two sweeps of the store for soon-due tasks.
    pub look_for_new_tasks_interval: i64,
    /// Capacity of the in-process queue and size of the sleep semaphore.
    pub max_concurrent_tasks_in_memory: usize,
    /// Size of the execution semaphore: how many task bodies may run at once.
    pub max_concurrent_executing_tasks: usize,
}

impl ServerConfig {
    /// The configuration values the executor's arithmetic relies on.
    pub open spec fn wf(&self) -> bool {
        &&& 0 <= self.max_seconds_to_sleep
        &&& self.max_seconds_to_sleep * 1_000_000 <= i64::MAX
        &&& 0 <= self.look_for_new_tasks_interval
        &&& 1 <= self.max_concurrent_tasks_in_memory
        &&& 1 <= self.max_concurrent_executing_tasks
    }
}

/// The runtime environment the process was started for.
#[derive(Clone, Copy, PartialEq, Eq, Structural, Debug)]
pub enum Environment {
    Production,
    Local,
}

impl Default for Environment {
    fn default() -> (r: Self)
        ensures
            r == Environment::Local,
    {
        Environment::Local
    }
}

impl Environment {
    /// The environment's name, as configuration files spell it.
    pub fn name(&self) -> (r: String)
        ensures
            r@ == match *self {
                Environment::Local => "local"@,
                Environment::Production => "production"@,
            },
    {
        match *self {
            Environment::Local => "local".to_string(),
            Environment::Production => "production".to_string(),
        }
    }

    /// Parse an environment name; the inverse of `name`.
    pub fn parse(s: &str) -> (r: Option<Environment>)
        ensures
            s@ == "local"@ ==> r == Some(Environment::Local),
            s@ == "production"@ ==> r == Some(Environment::Production),
            r is Some ==> s@ == r->Some_0.name_spec(),
    {
        proof {
            reveal_strlit("local");
            reveal_strlit("production");
            assert("local"@.len() == 5);
            assert("production"@.len() == 10);
        }
        let owned = s.to_owned();
        if owned == String::from_str("local") {
            Some(Environment::Local)
        } else if owned == String::from_str("production") {
            Some(Environment::Production)
        } else {
            None
        }
    }

    /// What `name` returns, as a mathematical value.
    pub open spec fn name_spec(&self) -> Seq<char> {
        match *self {
            Environment::Local => "local"@,
            Environment::Production => "production"@,
        }
    }
}

} // verus!
