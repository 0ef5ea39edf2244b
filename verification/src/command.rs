//! Results of executed commands, and their JSON form.
use crate::time::DateTime;
use crate::views::{duplicate_opt, Duplicate};
#[allow(unused_imports)]
use crate::views::{view_opt, views};
use vstd::prelude::*;
use ya_client_model::activity::{
    CommandOutput as ModelOutput, CommandResult as ModelResult, ExeScriptCommandResult as
    ModelCommand,
};

verus! {

/// Whether a command succeeded.
#[derive(Clone, Copy, Debug, PartialEq, Eq, Structural)]
pub enum CommandResult {
    Success,
    Error,
}

/// What a command wrote.
#[derive(Debug, PartialEq, Eq)]
pub enum CommandOutput {
    Str(String),
    Bin(Vec<u8>),
}

/// The result of one command of a batch.
#[derive(Debug, PartialEq, Eq)]
pub struct ExeScriptCommandResult {
    /// The place of the command in its batch.
    pub index: u32,
    /// Whether the command succeeded.
    pub result: CommandResult,
    /// What the command wrote to its standard output.
    pub stdout: Option<CommandOutput>,
    /// What the command wrote to its standard error output.
    pub stderr: Option<CommandOutput>,
    /// A message for the requestor.
    pub message: Option<String>,
    /// Whether this was the last command of the batch.
    pub is_batch_finished: bool,
    /// When the command ended.
    pub event_date: DateTime,
}

/// The mathematical value of a [`CommandOutput`].
pub enum OutputView {
    Str(Seq<char>),
    Bin(Seq<u8>),
}

/// The mathematical value of an [`ExeScriptCommandResult`].
pub struct CommandView {
    pub index: u32,
    pub result: CommandResult,
    pub stdout: Option<OutputView>,
    pub stderr: Option<OutputView>,
    pub message: Option<Seq<char>>,
    pub is_batch_finished: bool,
    pub event_date: DateTime,
}

impl View for CommandOutput {
    type V = OutputView;

    open spec fn view(&self) -> OutputView {
        match *self {
            CommandOutput::Str(s) => OutputView::Str(s@),
            CommandOutput::Bin(b) => OutputView::Bin(b@),
        }
    }
}

impl View for ExeScriptCommandResult {
    type V = CommandView;

    open spec fn view(&self) -> CommandView {
        CommandView {
            index: self.index,
            result: self.result,
            stdout: view_opt(self.stdout),
            stderr: view_opt(self.stderr),
            message: view_opt(self.message),
            is_batch_finished: self.is_batch_finished,
            event_date: self.event_date,
        }
    }
}

impl Clone for CommandOutput {
    fn clone(&self) -> (copy: Self)
        ensures
            copy@ == self@,
    {
        match self {
            CommandOutput::Str(s) => CommandOutput::Str(s.clone()),
            CommandOutput::Bin(b) => CommandOutput::Bin(b.duplicate()),
        }
    }
}

impl Clone for ExeScriptCommandResult {
    fn clone(&self) -> (copy: Self)
        ensures
            copy@ == self@,
    {
        ExeScriptCommandResult {
            index: self.index,
            result: self.result,
            stdout: duplicate_opt(&self.stdout),
            stderr: duplicate_opt(&self.stderr),
            message: duplicate_opt(&self.message),
            is_batch_finished: self.is_batch_finished,
            event_date: self.event_date,
        }
    }
}

impl Duplicate for CommandOutput {
    fn duplicate(&self) -> (copy: Self) {
        self.clone()
    }
}

impl Duplicate for ExeScriptCommandResult {
    fn duplicate(&self) -> (copy: Self) {
        self.clone()
    }
}

/// The JSON of a batch of results, as `serde_json` writes the batch of
/// `ya_client_model`; nothing for a batch that no program can hold.
pub uninterp spec fn commands_json(batch: Seq<CommandView>) -> Option<Seq<u8>>;

/// The batch of results that `serde_json` reads from JSON; nothing where the
/// bytes are not the JSON of a batch.
pub uninterp spec fn parsed_commands(data: Seq<u8>) -> Option<Seq<CommandView>>;

/// The JSON of what a command wrote, as `serde_json` writes it.
pub uninterp spec fn output_json(output: OutputView) -> Seq<char>;

/// Calls `serde_json::to_vec` on the batch as `ya_client_model` has it, which
/// fails neither on its structs and lists nor on instants in UTC. Trusted: the
/// JSON is a function of the batch alone, and different batches have different
/// JSON. Which text it is stays unsaid.
#[verifier::external_body]
pub(crate) fn commands_to_json(batch: &[ExeScriptCommandResult]) -> (data: Vec<u8>)
    ensures
        commands_json(views(batch@)) == Some(data@),
        forall|other: Seq<CommandView>| #[trigger]
            commands_json(other) == Some(data@) ==> other == views(batch@),
{
    let out = |o: &Option<CommandOutput>| o.as_ref().map(|o| match o {
        CommandOutput::Str(s) => ModelOutput::Str(s.clone()),
        CommandOutput::Bin(b) => ModelOutput::Bin(b.clone()),
    });
    let model = batch.iter().map(|c| ModelCommand {
        index: c.index,
        result: match c.result { CommandResult::Success => ModelResult::Ok, CommandResult::Error => ModelResult::Error },
        stdout: out(&c.stdout),
        stderr: out(&c.stderr),
        message: c.message.clone(),
        is_batch_finished: c.is_batch_finished,
        event_date: chrono::DateTime::from_timestamp(c.event_date.secs, c.event_date.nanos).unwrap(),
    }).collect::<Vec<ModelCommand>>();
    serde_json::to_vec(&model).unwrap()
}

/// Calls `serde_json::from_slice` for the batch of `ya_client_model`. Trusted:
/// what is read is a function of the bytes alone, and from the JSON that was
/// written for a batch the same batch is read. What is read from other bytes
/// stays unsaid.
#[verifier::external_body]
pub(crate) fn commands_from_json(data: &[u8]) -> (batch: Option<Vec<ExeScriptCommandResult>>)
    ensures
        match batch {
            Some(commands) => parsed_commands(data@) == Some(views(commands@)),
            None => parsed_commands(data@) is None,
        },
        forall|written: Seq<CommandView>| #[trigger]
            commands_json(written) == Some(data@) ==> match batch {
                Some(commands) => views(commands@) == written,
                None => false,
            },
{
    let out = |o: Option<ModelOutput>| o.map(|o| match o {
        ModelOutput::Str(s) => CommandOutput::Str(s),
        ModelOutput::Bin(b) => CommandOutput::Bin(b),
    });
    let model = serde_json::from_slice::<Vec<ModelCommand>>(data).ok()?;
    Some(model.into_iter().map(|c| ExeScriptCommandResult {
        index: c.index,
        result: match c.result { ModelResult::Ok => CommandResult::Success, ModelResult::Error => CommandResult::Error },
        stdout: out(c.stdout),
        stderr: out(c.stderr),
        message: c.message,
        is_batch_finished: c.is_batch_finished,
        event_date: DateTime { secs: c.event_date.timestamp(), nanos: c.event_date.timestamp_subsec_nanos() },
    }).collect())
}

/// Calls `serde_json::to_string` on the output as `ya_client_model` has it,
/// which does not fail on text or bytes. Trusted: the JSON is a function of the
/// output alone, and different outputs have different JSON. Which text it is
/// stays unsaid.
#[verifier::external_body]
pub(crate) fn output_to_json(output: &CommandOutput) -> (text: String)
    ensures
        text@ == output_json(output@),
        forall|other: OutputView| #[trigger] output_json(other) == text@ ==> other == output@,
{
    let model = match output {
        CommandOutput::Str(s) => ModelOutput::Str(s.clone()),
        CommandOutput::Bin(b) => ModelOutput::Bin(b.clone()),
    };
    serde_json::to_string(&model).unwrap()
}

} // verus!
