//! Entities shared by the whole crate, their mathematical views, and the
//! error taxonomy of the persistence layer.

use vstd::prelude::*;

verus! {

/// Identifies one conversation. All stored state is partitioned by it; it is
/// used only as a lookup key.
#[derive(PartialEq, Eq, Structural, Clone, Copy, Hash, Debug)]
pub struct ChatId(pub i64);

/// Identifies one person within the external chat transport.
#[derive(PartialEq, Eq, Structural, Clone, Copy, Hash, Debug)]
pub struct UserId(pub i32);

/// One registered participant of a chat: display data, the transport
/// identity, and the account name the participant supplied at registration.
#[derive(Debug)]
pub struct CodeUser {
    pub username: Option<String>,
    pub firstname: String,
    pub telegram_id: UserId,
    pub codewars_name: String,
}

/// Mathematical value of a [`CodeUser`]: every string replaced by its
/// character sequence.
pub ghost struct CodeUserV {
    pub username: Option<Seq<char>>,
    pub firstname: Seq<char>,
    pub telegram_id: UserId,
    pub codewars_name: Seq<char>,
}

impl View for CodeUser {
    type V = CodeUserV;

    open spec fn view(&self) -> CodeUserV {
        CodeUserV {
            username: match self.username {
                Some(s) => Some(s@),
                None => None,
            },
            firstname: self.firstname@,
            telegram_id: self.telegram_id,
            codewars_name: self.codewars_name@,
        }
    }
}

impl CodeUser {
    /// A copy whose view equals this value's view.
    pub fn duplicate(&self) -> (r: CodeUser)
        ensures
            r@ == self@,
    {
        CodeUser {
            username: match &self.username {
                Some(s) => Some(s.clone()),
                None => None,
            },
            firstname: self.firstname.clone(),
            telegram_id: self.telegram_id,
            codewars_name: self.codewars_name.clone(),
        }
    }
}

/// One classified message of a chat. `id` is the transport-assigned message
/// identifier; it is observational metadata, not a key, and the log may hold
/// several entries with the same `id`.
#[derive(Debug)]
pub struct ChatMessage {
    pub id: i32,
    pub text: String,
    pub from: UserId,
}

/// Mathematical value of a [`ChatMessage`].
pub ghost struct ChatMessageV {
    pub id: i32,
    pub text: Seq<char>,
    pub from: UserId,
}

impl View for ChatMessage {
    type V = ChatMessageV;

    open spec fn view(&self) -> ChatMessageV {
        ChatMessageV { id: self.id, text: self.text@, from: self.from }
    }
}

impl ChatMessage {
    /// A copy whose view equals this value's view.
    pub fn duplicate(&self) -> (r: ChatMessage)
        ensures
            r@ == self@,
    {
        ChatMessage { id: self.id, text: self.text.clone(), from: self.from }
    }
}

/// The recoverable failures of the persistence layer: stored bytes that do
/// not decode as the expected aggregate shape, and a failed store operation.
/// Precondition violations are not represented here; they are ruled out by
/// `requires` clauses.
#[derive(PartialEq, Eq, Structural, Clone, Copy, Debug)]
pub enum PersistError {
    Serialization,
    StoreIo,
}

/// The views of a sequence of participants.
pub open spec fn users_views(s: Seq<CodeUser>) -> Seq<CodeUserV> {
    s.map_values(|u: CodeUser| u@)
}

/// The views of a sequence of logged messages.
pub open spec fn msgs_views(s: Seq<ChatMessage>) -> Seq<ChatMessageV> {
    s.map_values(|m: ChatMessage| m@)
}

} // verus!
