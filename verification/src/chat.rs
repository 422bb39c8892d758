//! What the ways to talk to the model have in common.

use vstd::prelude::*;
use vstd::string::StringExecFns;

use crate::dify_stream::DifyStreamResult;

verus! {

/// How a question to the model ended.
pub enum Outcome {
    /// No reply came; the text says why.
    Unreachable(String),
    /// The status of the reply is no success.
    Refused(String),
    /// The reply broke off, or the service gave up; the text says why.
    Broken(String),
    Answered(DifyStreamResult),
}

/// An exchange that is written to the log and to the knowledge base.
pub struct Remembered {
    pub user_input: String,
    pub bot_reply: String,
}

/// A program with its arguments.
pub struct Command {
    pub program: String,
    pub args: Vec<String>,
}

/// The conversation that a question goes on with: the one that was kept, or a new one.
pub fn conversation_of(found: Option<String>) -> (r: String)
    ensures
        r@ == match found {
            Some(id) => id@,
            None => Seq::<char>::empty(),
        },
{
    match found {
        Some(id) => id,
        None => String::new(),
    }
}

/// The conversation that is kept: the one that the answer names, if it does.
pub open spec fn kept_conversation(outcome: Outcome) -> Option<Seq<char>> {
    match outcome {
        Outcome::Answered(result) => if result.conversation_id@.len() > 0 {
            Some(result.conversation_id@)
        } else {
            None
        },
        _ => None,
    }
}

pub(crate) fn conversation_to_keep(result: &DifyStreamResult) -> (r: Option<String>)
    ensures
        match r {
            Some(id) => result.conversation_id@.len() > 0 && id@ == result.conversation_id@,
            None => result.conversation_id@.len() == 0,
        },
{
    if result.conversation_id.as_str().is_empty() {
        None
    } else {
        Some(String::from_str(result.conversation_id.as_str()))
    }
}

/// Whether `r` is an exchange with these texts.
pub open spec fn remembers(r: Option<Remembered>, want: Option<(Seq<char>, Seq<char>)>) -> bool {
    match (r, want) {
        (Some(x), Some((user, bot))) => x.user_input@ == user && x.bot_reply@ == bot,
        (None, None) => true,
        _ => false,
    }
}

/// A conversation is kept just where an answer names one, and it is the one that is named.
pub proof fn law_kept_conversation(outcome: Outcome)
    ensures
        match outcome {
            Outcome::Answered(result) => {
                &&& result.conversation_id@.len() > 0 ==> kept_conversation(outcome) == Some(
                    result.conversation_id@,
                )
                &&& result.conversation_id@.len() == 0 ==> kept_conversation(outcome) is None
            },
            _ => kept_conversation(outcome) is None,
        },
{
}

/// What is remembered has both its texts as they are.
pub proof fn law_remembered_as_it_is(r: Option<Remembered>, user: Seq<char>, bot: Seq<char>)
    ensures
        remembers(r, Some((user, bot))) <==> r is Some && r->0.user_input@ == user
            && r->0.bot_reply@ == bot,
        remembers(r, None) <==> r is None,
{
}

}
