use vstd::prelude::*;
use vstd::string::StringExecFns;
use crate::entity::Entity;

verus! {

/// Additional context for an ECS operation that failed.
#[derive(Debug, Clone)]
pub enum EcsErrorContext {
    /// A system failed.
    System {
        /// The name of the system that failed.
        name: String,
        /// The last tick the system was run at.
        last_run: u32,
    },
    /// An observer failed.
    Observer {
        /// The name of the observer that failed.
        name: String,
        /// The last tick the observer was run at.
        last_run: u32,
    },
    /// A command failed.
    Command {
        /// The name of the command that failed.
        name: String,
    },
    /// An entity command failed.
    EntityCommand {
        /// The name of the entity command that failed.
        name: String,
        /// The entity the command was run on.
        entity: Entity,
    },
}

impl EcsErrorContext {
    /// The kind of ECS operation that failed, as text.
    pub open spec fn spec_kind(&self) -> Seq<char> {
        match self {
            EcsErrorContext::System { .. } => "system"@,
            EcsErrorContext::Observer { .. } => "observer"@,
            EcsErrorContext::Command { .. } => "command"@,
            EcsErrorContext::EntityCommand { .. } => "entity command"@,
        }
    }

    /// The name of the ECS operation that failed.
    pub open spec fn spec_name(&self) -> Seq<char> {
        match self {
            EcsErrorContext::System { name, .. } => name@,
            EcsErrorContext::Observer { name, .. } => name@,
            EcsErrorContext::Command { name } => name@,
            EcsErrorContext::EntityCommand { name, .. } => name@,
        }
    }

    /// A string describing the kind of ECS operation that failed.
    pub fn kind(&self) -> (r: &'static str)
        ensures
            r@ == self.spec_kind(),
    {
        match self {
            EcsErrorContext::System { .. } => "system",
            EcsErrorContext::Observer { .. } => "observer",
            EcsErrorContext::Command { .. } => "command",
            EcsErrorContext::EntityCommand { .. } => "entity command",
        }
    }

    /// The name of the ECS operation that failed.
    pub fn name(&self) -> (r: &String)
        ensures
            r@ == self.spec_name(),
    {
        match self {
            EcsErrorContext::System { name, .. } => name,
            EcsErrorContext::Observer { name, .. } => name,
            EcsErrorContext::Command { name } => name,
            EcsErrorContext::EntityCommand { name, .. } => name,
        }
    }

    /// The message an error handler reports for `error` (the error's debug text) in this
    /// context.
    pub open spec fn spec_message(&self, error: Seq<char>) -> Seq<char> {
        "Encountered an error in "@ + self.spec_kind() + " `"@ + self.spec_name() + "`: "@ + error
    }

    /// The message an error handler reports for `error` (the error's debug text) in this
    /// context: "Encountered an error in {kind} `{name}`: {error}".
    pub fn message(&self, error: &str) -> (r: String)
        ensures
            r@ == self.spec_message(error@),
    {
        let mut m = String::from_str("Encountered an error in ");
        m.append(self.kind());
        m.append(" `");
        m.append(self.name().as_str());
        m.append("`: ");
        m.append(error);
        m
    }
}

/// The built-in error handlers: panic, log at one of the levels, or ignore.
#[derive(Debug, Clone, Copy, PartialEq, Eq, Structural)]
pub enum ErrorHandler {
    Panic,
    Error,
    Warn,
    Info,
    Debug,
    Trace,
    Ignore,
}

/// The levels an error can be logged at.
#[derive(Debug, Clone, Copy, PartialEq, Eq, Structural)]
pub enum LogLevel {
    Error,
    Warn,
    Info,
    Debug,
    Trace,
}

/// What handling an error comes to.
#[derive(Debug, Clone, PartialEq, Eq)]
pub enum ErrorAction {
    /// Panic with the message.
    Panic(String),
    /// Log the message at the level.
    Log(LogLevel, String),
    /// Do nothing.
    Ignore,
}

/// Whether `a` is what `handler` does with `message`.
pub open spec fn handled(handler: ErrorHandler, message: Seq<char>, a: ErrorAction) -> bool {
    match handler {
        ErrorHandler::Panic => a matches ErrorAction::Panic(m) && m@ == message,
        ErrorHandler::Error => a matches ErrorAction::Log(l, m) && l == LogLevel::Error && m@ == message,
        ErrorHandler::Warn => a matches ErrorAction::Log(l, m) && l == LogLevel::Warn && m@ == message,
        ErrorHandler::Info => a matches ErrorAction::Log(l, m) && l == LogLevel::Info && m@ == message,
        ErrorHandler::Debug => a matches ErrorAction::Log(l, m) && l == LogLevel::Debug && m@ == message,
        ErrorHandler::Trace => a matches ErrorAction::Log(l, m) && l == LogLevel::Trace && m@ == message,
        ErrorHandler::Ignore => a is Ignore,
    }
}

impl ErrorHandler {
    /// What this handler does with `error` (its debug text) in context `ctx`: panic with the
    /// error's message, log it at the handler's level, or ignore it.
    pub fn handle(self, error: &str, ctx: &EcsErrorContext) -> (a: ErrorAction)
        ensures
            handled(self, ctx.spec_message(error@), a),
    {
        match self {
            ErrorHandler::Ignore => ErrorAction::Ignore,
            ErrorHandler::Panic => ErrorAction::Panic(ctx.message(error)),
            ErrorHandler::Error => ErrorAction::Log(LogLevel::Error, ctx.message(error)),
            ErrorHandler::Warn => ErrorAction::Log(LogLevel::Warn, ctx.message(error)),
            ErrorHandler::Info => ErrorAction::Log(LogLevel::Info, ctx.message(error)),
            ErrorHandler::Debug => ErrorAction::Log(LogLevel::Debug, ctx.message(error)),
            ErrorHandler::Trace => ErrorAction::Log(LogLevel::Trace, ctx.message(error)),
        }
    }
}

/// The error handler of last resort for errors returned by systems, commands and observers
/// when nothing else handles them.
#[derive(Debug, Clone, Copy, PartialEq, Eq, Structural)]
pub struct FallbackErrorHandler(pub ErrorHandler);

impl Default for FallbackErrorHandler {
    /// Panics, unless set otherwise.
    fn default() -> (h: Self)
        ensures
            h == FallbackErrorHandler(ErrorHandler::Panic),
    {
        FallbackErrorHandler(ErrorHandler::Panic)
    }
}

/// The default error handler: the global one when it has been set, otherwise panicking.
pub fn default_error_handler(global: Option<ErrorHandler>) -> (h: ErrorHandler)
    ensures
        h == match global {
            Some(g) => g,
            None => ErrorHandler::Panic,
        },
{
    match global {
        Some(g) => g,
        None => ErrorHandler::Panic,
    }
}

} // verus!
