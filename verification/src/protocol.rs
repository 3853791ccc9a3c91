//! The protocol: what a request asks for and how it is answered.

use crate::retrieval::QueryResult;
use crate::store::Stats;
use crate::text::same_text;
use vstd::prelude::*;
use vstd::string::StringExecFns;

verus! {

/// What a request can ask for.
#[derive(Clone, Copy)]
pub enum Command {
    /// Store a turn.
    Ingest,
    /// Store several turns.
    IngestBatch,
    /// Retrieve evidence.
    Query,
    /// Count what is stored.
    Stats,
    /// Become the one that fills in the history.
    AcquireBackfill,
    /// No longer be the one that fills in the history.
    ReleaseBackfill,
    /// Delete the turns of a session.
    DeleteSession,
    /// End the process.
    Shutdown,
}

/// The command with a name.
pub open spec fn command_named(name: Seq<char>) -> Option<Command> {
    if name == "ingest"@ {
        Some(Command::Ingest)
    } else if name == "ingest_batch"@ {
        Some(Command::IngestBatch)
    } else if name == "query"@ {
        Some(Command::Query)
    } else if name == "stats"@ {
        Some(Command::Stats)
    } else if name == "acquire_backfill"@ {
        Some(Command::AcquireBackfill)
    } else if name == "release_backfill"@ {
        Some(Command::ReleaseBackfill)
    } else if name == "delete_session"@ {
        Some(Command::DeleteSession)
    } else if name == "shutdown"@ {
        Some(Command::Shutdown)
    } else {
        None
    }
}

/// The text of an error about a command that does not exist.
pub open spec fn unknown_command(name: Seq<char>) -> Seq<char> {
    "unknown command: "@ + name
}

/// The command named `name`, or the text of the error.
pub fn parse_command(name: &str) -> (r: Result<Command, String>)
    ensures
        match r {
            Ok(command) => command_named(name@) == Some(command),
            Err(message) => command_named(name@) is None && message@ == unknown_command(name@),
        },
{
    if same_text(name, "ingest") {
        Ok(Command::Ingest)
    } else if same_text(name, "ingest_batch") {
        Ok(Command::IngestBatch)
    } else if same_text(name, "query") {
        Ok(Command::Query)
    } else if same_text(name, "stats") {
        Ok(Command::Stats)
    } else if same_text(name, "acquire_backfill") {
        Ok(Command::AcquireBackfill)
    } else if same_text(name, "release_backfill") {
        Ok(Command::ReleaseBackfill)
    } else if same_text(name, "delete_session") {
        Ok(Command::DeleteSession)
    } else if same_text(name, "shutdown") {
        Ok(Command::Shutdown)
    } else {
        let mut message = "unknown command: ".to_string();
        message.append(name);
        Err(message)
    }
}

/// Whether a lease on filling in the history can be asked for in this way.
pub open spec fn lease_valid(owner: Seq<char>, lease_seconds: i64) -> bool {
    owner.len() > 0 && lease_seconds > 0
}

/// Refuses to lease the filling in of the history without an owner or for no time.
pub fn check_lease(owner: &str, lease_seconds: i64) -> (r: Result<(), String>)
    ensures
        match r {
            Ok(()) => lease_valid(owner@, lease_seconds),
            Err(message) => !lease_valid(owner@, lease_seconds) && message@
                == "owner and a positive lease_seconds are required"@,
        },
{
    if owner.is_empty() || lease_seconds <= 0 {
        Err("owner and a positive lease_seconds are required".to_string())
    } else {
        Ok(())
    }
}

/// What a request that went well is answered.
pub enum Reply {
    /// Whether the turn was stored, and its row.
    Ingested { ingested: bool, turn_id: i64 },
    /// How many turns were stored and how many were not.
    BatchIngested { stored: usize, skipped: usize },
    /// The evidence for a query.
    Retrieved(QueryResult),
    /// How many of everything there are.
    Counted(Stats),
    /// How many turns were deleted.
    Deleted { deleted: usize },
    /// Whether the process ends.
    Shutdown { shutdown: bool },
}

/// The answer to a request.
pub struct Response<I> {
    /// What the request was marked with.
    pub id: I,
    pub ok: bool,
    pub result: Option<Reply>,
    pub error: Option<String>,
}

/// The answer to the request marked `id`, given what came of it.
pub open spec fn response_to<I>(id: I, outcome: Result<Reply, String>) -> Response<I> {
    match outcome {
        Ok(reply) => Response { id, ok: true, result: Some(reply), error: None },
        Err(message) => Response { id, ok: false, result: None, error: Some(message) },
    }
}

/// Whether `response` refuses the request marked `id` with this message.
pub open spec fn refuses<I>(response: Response<I>, id: I, message: Seq<char>) -> bool {
    &&& response.id == id
    &&& !response.ok
    &&& response.result is None
    &&& response.error is Some
    &&& response.error->0@ == message
}

/// The answer to the request marked `id`, given what came of it.
fn respond<I>(id: I, outcome: Result<Reply, String>) -> (r: Response<I>)
    ensures
        r == response_to(id, outcome),
{
    match outcome {
        Ok(reply) => Response { id, ok: true, result: Some(reply), error: None },
        Err(message) => Response { id, ok: false, result: None, error: Some(message) },
    }
}

/// Answers the request marked `id` for the command named `name`, and says whether the process is
/// to end. A command is carried out by `work`; only to end the process there is nothing to do, so
/// that this always goes well, and nothing else ends it.
pub fn handle<I, F: FnOnce(Command) -> Result<Reply, String>>(id: I, name: &str, work: F) -> (r: (
    Response<I>,
    bool,
))
    requires
        forall|command: Command|
            command_named(name@) == Some(command) && !(command is Shutdown)
                ==> #[trigger] call_requires(work, (command,)),
    ensures
        r.1 == (name@ == "shutdown"@),
        r.1 ==> r.0.ok,
        match command_named(name@) {
            None => refuses(r.0, id, unknown_command(name@)),
            Some(Command::Shutdown) => r.0 == response_to(
                id,
                Ok(Reply::Shutdown { shutdown: true }),
            ),
            Some(command) => exists|outcome: Result<Reply, String>| #[trigger]
                call_ensures(work, (command,), outcome) && r.0 == response_to(id, outcome),
        },
{
    proof {
        only_shutdown_is_named_so(name@);
    }
    match parse_command(name) {
        Err(message) => (respond(id, Err(message)), false),
        Ok(Command::Shutdown) => (respond(id, Ok(Reply::Shutdown { shutdown: true })), true),
        Ok(command) => (respond(id, work(command)), false),
    }
}

/// The command that ends the process is the one with that name.
proof fn only_shutdown_is_named_so(name: Seq<char>)
    ensures
        command_named(name) == Some(Command::Shutdown) <==> name == "shutdown"@,
{
    reveal_strlit("ingest");
    reveal_strlit("ingest_batch");
    reveal_strlit("query");
    reveal_strlit("stats");
    reveal_strlit("acquire_backfill");
    reveal_strlit("release_backfill");
    reveal_strlit("delete_session");
    reveal_strlit("shutdown");
    assert("shutdown"@.len() == 8);
    assert("ingest"@.len() == 6);
    assert("ingest_batch"@.len() == 12);
    assert("query"@.len() == 5);
    assert("stats"@.len() == 5);
    assert("acquire_backfill"@.len() == 16);
    assert("release_backfill"@.len() == 16);
    assert("delete_session"@.len() == 14);
}

/// Answers a line that is no request, of which the reason is `reason`; `id` marks it as an answer
/// to nothing in particular.
pub fn refuse_line<I>(id: I, reason: &str) -> (r: Response<I>)
    ensures
        refuses(r, id, "invalid request: "@ + reason@),
{
    let mut message = "invalid request: ".to_string();
    message.append(reason);
    respond(id, Err(message))
}

/// Every answer repeats the mark of its request, and holds either a result or an error: a result
/// exactly when it says that all went well.
pub proof fn response_is_result_or_error<I>(id: I, outcome: Result<Reply, String>)
    ensures
        ({
            let r = response_to(id, outcome);
            &&& r.id == id
            &&& r.ok == (outcome is Ok)
            &&& r.ok == (r.result is Some)
            &&& r.ok == (r.error is None)
        }),
{
}

/// Every command has its one name, and there are no others.
pub proof fn commands_have_their_names(name: Seq<char>)
    ensures
        command_named(name) == Some(Command::Ingest) <==> name == "ingest"@,
        command_named(name) == Some(Command::IngestBatch) <==> name == "ingest_batch"@,
        command_named(name) == Some(Command::Query) <==> name == "query"@,
        command_named(name) == Some(Command::Stats) <==> name == "stats"@,
        command_named(name) == Some(Command::AcquireBackfill) <==> name == "acquire_backfill"@,
        command_named(name) == Some(Command::ReleaseBackfill) <==> name == "release_backfill"@,
        command_named(name) == Some(Command::DeleteSession) <==> name == "delete_session"@,
        command_named(name) == Some(Command::Shutdown) <==> name == "shutdown"@,
{
    reveal_strlit("ingest");
    reveal_strlit("ingest_batch");
    reveal_strlit("query");
    reveal_strlit("stats");
    reveal_strlit("acquire_backfill");
    reveal_strlit("release_backfill");
    reveal_strlit("delete_session");
    reveal_strlit("shutdown");
    assert("ingest"@.len() == 6);
    assert("ingest_batch"@.len() == 12);
    assert("query"@.len() == 5);
    assert("stats"@.len() == 5);
    assert("acquire_backfill"@.len() == 16);
    assert("release_backfill"@.len() == 16);
    assert("delete_session"@.len() == 14);
    assert("shutdown"@.len() == 8);
    assert("query"@[0] == 'q' && "stats"@[0] == 's');
    assert("acquire_backfill"@[0] == 'a' && "release_backfill"@[0] == 'r');
}

/// The error about an unknown command ends with the whole name that was given.
pub proof fn unknown_commands_are_named_whole(name: Seq<char>)
    ensures
        unknown_command(name).len() == 17 + name.len(),
        unknown_command(name).take(17) == "unknown command: "@,
        unknown_command(name).skip(17) == name,
{
    reveal_strlit("unknown command: ");
    assert("unknown command: "@.len() == 17);
    assert(unknown_command(name).take(17) =~= "unknown command: "@);
    assert(unknown_command(name).skip(17) =~= name);
}

/// A lease can be asked for by whoever has a name, for any time of a second or more, and otherwise
/// not.
pub proof fn leases_need_a_name_and_a_second(owner: Seq<char>, seconds: i64)
    ensures
        owner.len() >= 1 && seconds >= 1 <==> lease_valid(owner, seconds),
{
}

/// What came of a request is what it is answered, whole.
pub proof fn responses_hold_what_came_of_the_request<I>(id: I, reply: Reply, message: String)
    ensures
        response_to(id, Ok(reply)).result == Some(reply),
        response_to(id, Ok(reply)).error is None,
        response_to(id, Ok(reply)).ok,
        response_to(id, Ok(reply)).id == id,
        response_to(id, Err(message)).result is None,
        response_to(id, Err(message)).error == Some(message),
        !response_to(id, Err(message)).ok,
        response_to(id, Err(message)).id == id,
{
}

/// A refusal repeats the mark and holds the whole message and no result.
pub proof fn refusals_hold_their_message<I>(response: Response<I>, id: I, message: Seq<char>)
    requires
        refuses(response, id, message),
    ensures
        response.id == id,
        !response.ok,
        response.result is None,
        response.error is Some,
        response.error->0@ == message,
{
}

} // verus!
