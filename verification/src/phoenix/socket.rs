//! What a socket is built from.

use std::time::Duration;

use vstd::prelude::*;

use crate::phoenix::error::BuildError;
use crate::phoenix::url;
use crate::phoenix::url::Params;
use crate::state::keyed;
use crate::state::text::Chars;

verus! {

/// The heartbeat interval of a socket that sets none, in seconds. A reply that
/// is missing after one interval means that the socket is dead.
pub const DEFAULT_HEARTBEAT_SECS: u64 = 30;

/// How long a push may go unanswered on a socket that sets no limit, in seconds;
/// joins and leaves are pushes.
pub const DEFAULT_TIMEOUT_SECS: u64 = 10;

/// The duration `Duration::from_secs` makes.
pub uninterp spec fn seconds(n: u64) -> std::time::Duration;

/// `Duration::from_secs`: its result depends on the count alone.
pub assume_specification[ std::time::Duration::from_secs ](secs: u64) -> (d: std::time::Duration)
    ensures
        d == seconds(secs),
;

/// What the task that owns a socket is given: where to connect, how long to
/// wait, and the parts that reach outside.
pub struct Settings<C, S, T> {
    /// The whole endpoint address.
    pub url: String,
    /// The heartbeat interval.
    pub heartbeat: Duration,
    /// How long a join may go unanswered.
    pub join_timeout: Duration,
    /// How long any other push may go unanswered.
    pub push_timeout: Duration,
    /// Opens sockets.
    pub connector: C,
    /// Runs tasks.
    pub spawner: S,
    /// Measures time.
    pub timer: T,
}

/// A socket under construction.
pub struct SocketBuilder<C, S, T> {
    url: Option<String>,
    params: Params,
    connector: Option<C>,
    spawner: Option<S>,
    timer: Option<T>,
    heartbeat: Option<Duration>,
    join_timeout: Option<Duration>,
    push_timeout: Option<Duration>,
}

/// A [`SocketBuilder`] as contracts see it.
#[verifier::ext_equal]
pub struct Plan<C, S, T> {
    pub url: Option<Chars>,
    pub params: Seq<(Chars, Chars)>,
    pub connector: Option<C>,
    pub spawner: Option<S>,
    pub timer: Option<T>,
    pub heartbeat: Option<Duration>,
    pub join_timeout: Option<Duration>,
    pub push_timeout: Option<Duration>,
}

/// A plan with nothing in it.
pub open spec fn blank<C, S, T>() -> Plan<C, S, T> {
    Plan {
        url: None,
        params: Seq::empty(),
        connector: None,
        spawner: None,
        timer: None,
        heartbeat: None,
        join_timeout: None,
        push_timeout: None,
    }
}

/// What a plan lacks, the first of it.
pub open spec fn missing<C, S, T>(plan: Plan<C, S, T>) -> Option<BuildError> {
    if plan.url is None {
        Some(BuildError::MissingUrl)
    } else if plan.connector is None {
        Some(BuildError::MissingConnector)
    } else if plan.spawner is None {
        Some(BuildError::MissingSpawner)
    } else if plan.timer is None {
        Some(BuildError::MissingTimer)
    } else {
        None
    }
}

/// A duration that was set, or the default.
pub open spec fn or_seconds(set: Option<Duration>, n: u64) -> Duration {
    match set {
        Some(held) => held,
        None => seconds(n),
    }
}

impl<C, S, T> View for SocketBuilder<C, S, T> {
    type V = Plan<C, S, T>;

    closed spec fn view(&self) -> Plan<C, S, T> {
        Plan {
            url: match self.url {
                Some(text) => Some(text@),
                None => None,
            },
            params: self.params@,
            connector: self.connector,
            spawner: self.spawner,
            timer: self.timer,
            heartbeat: self.heartbeat,
            join_timeout: self.join_timeout,
            push_timeout: self.push_timeout,
        }
    }
}

fn or_default(set: Option<Duration>, secs: u64) -> (length: Duration)
    ensures
        length == or_seconds(set, secs),
{
    match set {
        Some(held) => held,
        None => Duration::from_secs(secs),
    }
}

impl<C, S, T> SocketBuilder<C, S, T> {
    /// Starts a builder. `url`, `connector`, `spawner` and `timer` are required.
    pub fn new() -> (builder: SocketBuilder<C, S, T>)
        ensures
            builder@ == blank::<C, S, T>(),
    {
        let builder = SocketBuilder {
            url: None,
            params: Params::new(),
            connector: None,
            spawner: None,
            timer: None,
            heartbeat: None,
            join_timeout: None,
            push_timeout: None,
        };
        assert(builder@ =~= blank::<C, S, T>());
        builder
    }

    /// The endpoint base. Required.
    pub fn url(self, url: String) -> (builder: SocketBuilder<C, S, T>)
        ensures
            builder@ == (Plan { url: Some(url@), ..self@ }),
    {
        SocketBuilder { url: Some(url), ..self }
    }

    /// Sets one connect param. Credentials belong here, never in join params.
    pub fn param(self, key: String, value: String) -> (builder: SocketBuilder<C, S, T>)
        ensures
            builder@ == (Plan { params: keyed::put(self@.params, key@, value@), ..self@ }),
    {
        let mut params = self.params;
        params.insert(key, value);
        SocketBuilder {
            url: self.url,
            params,
            connector: self.connector,
            spawner: self.spawner,
            timer: self.timer,
            heartbeat: self.heartbeat,
            join_timeout: self.join_timeout,
            push_timeout: self.push_timeout,
        }
    }

    /// What opens sockets. Required.
    pub fn connector(self, connector: C) -> (builder: SocketBuilder<C, S, T>)
        ensures
            builder@ == (Plan { connector: Some(connector), ..self@ }),
    {
        SocketBuilder { connector: Some(connector), ..self }
    }

    /// What runs tasks. Required.
    pub fn spawner(self, spawner: S) -> (builder: SocketBuilder<C, S, T>)
        ensures
            builder@ == (Plan { spawner: Some(spawner), ..self@ }),
    {
        SocketBuilder { spawner: Some(spawner), ..self }
    }

    /// What measures time. Required.
    pub fn timer(self, timer: T) -> (builder: SocketBuilder<C, S, T>)
        ensures
            builder@ == (Plan { timer: Some(timer), ..self@ }),
    {
        SocketBuilder { timer: Some(timer), ..self }
    }

    /// The heartbeat interval, which is also how long a dead socket goes
    /// unnoticed.
    pub fn heartbeat(self, interval: Duration) -> (builder: SocketBuilder<C, S, T>)
        ensures
            builder@ == (Plan { heartbeat: Some(interval), ..self@ }),
    {
        SocketBuilder { heartbeat: Some(interval), ..self }
    }

    /// How long a join may go unanswered.
    pub fn join_timeout(self, timeout: Duration) -> (builder: SocketBuilder<C, S, T>)
        ensures
            builder@ == (Plan { join_timeout: Some(timeout), ..self@ }),
    {
        SocketBuilder { join_timeout: Some(timeout), ..self }
    }

    /// How long any other push may go unanswered.
    pub fn push_timeout(self, timeout: Duration) -> (builder: SocketBuilder<C, S, T>)
        ensures
            builder@ == (Plan { push_timeout: Some(timeout), ..self@ }),
    {
        SocketBuilder { push_timeout: Some(timeout), ..self }
    }

    /// What the task is given. The socket itself opens lazily on the first join,
    /// so the only failure is a missing part.
    pub fn build(self) -> (built: Result<Settings<C, S, T>, BuildError>)
        ensures
            match built {
                Ok(settings) => {
                    &&& missing(self@) is None
                    &&& settings.url@ == url::endpoint(self@.url->0, self@.params)
                    &&& settings.heartbeat == or_seconds(self@.heartbeat, DEFAULT_HEARTBEAT_SECS)
                    &&& settings.join_timeout == or_seconds(
                        self@.join_timeout,
                        DEFAULT_TIMEOUT_SECS,
                    )
                    &&& settings.push_timeout == or_seconds(
                        self@.push_timeout,
                        DEFAULT_TIMEOUT_SECS,
                    )
                    &&& self@.connector == Some(settings.connector)
                    &&& self@.spawner == Some(settings.spawner)
                    &&& self@.timer == Some(settings.timer)
                },
                Err(error) => missing(self@) == Some(error),
            },
    {
        let base = match self.url {
            Some(base) => base,
            None => {
                return Err(BuildError::MissingUrl);
            },
        };
        let connector = match self.connector {
            Some(connector) => connector,
            None => {
                return Err(BuildError::MissingConnector);
            },
        };
        let spawner = match self.spawner {
            Some(spawner) => spawner,
            None => {
                return Err(BuildError::MissingSpawner);
            },
        };
        let timer = match self.timer {
            Some(timer) => timer,
            None => {
                return Err(BuildError::MissingTimer);
            },
        };
        Ok(
            Settings {
                url: url::endpoint_url(base.as_str(), &self.params),
                heartbeat: or_default(self.heartbeat, DEFAULT_HEARTBEAT_SECS),
                join_timeout: or_default(self.join_timeout, DEFAULT_TIMEOUT_SECS),
                push_timeout: or_default(self.push_timeout, DEFAULT_TIMEOUT_SECS),
                connector,
                spawner,
                timer,
            },
        )
    }
}

} // verus!
