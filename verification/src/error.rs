//! The errors that the operations of the ledger return.

use vstd::prelude::*;
use vstd::string::StringExecFns;

verus! {

/// What is wrong with the arguments of a topic that was not created.
#[derive(Clone, Copy, Debug, PartialEq, Eq, Structural)]
pub enum InputFault {
    /// The description is empty.
    EmptyDescription,
    /// The list of options is empty.
    NoOptions,
    /// The quota of participants is zero.
    NonPositiveQuota,
}

/// Why an operation failed.
#[derive(Clone, Copy, Debug, PartialEq, Eq, Structural)]
pub enum VoteError {
    /// A topic was asked for with arguments that cannot make one.
    InvalidInput(InputFault),
    /// No topic has the given identifier.
    NotFound,
    /// The topic takes no more votes and cannot be closed again.
    AlreadyClosed,
    /// The participant has voted on the topic before.
    DuplicateVote,
    /// The topic has no option with the given index.
    InvalidOption,
}

impl InputFault {
    /// The message of the fault, as a sequence of characters.
    pub open spec fn message_text(self) -> Seq<char> {
        match self {
            InputFault::EmptyDescription => "empty description"@,
            InputFault::NoOptions => "no options"@,
            InputFault::NonPositiveQuota => "non-positive quota"@,
        }
    }

    /// The message that names the offending argument.
    pub fn message(&self) -> (s: String)
        ensures
            s@ == self.message_text(),
    {
        match self {
            InputFault::EmptyDescription => String::from_str("empty description"),
            InputFault::NoOptions => String::from_str("no options"),
            InputFault::NonPositiveQuota => String::from_str("non-positive quota"),
        }
    }
}

impl VoteError {
    /// The notice of the error, as a sequence of characters.
    pub open spec fn notice_text(self) -> Seq<char> {
        match self {
            VoteError::InvalidInput(InputFault::EmptyDescription) => "议题描述不能为空"@,
            VoteError::InvalidInput(InputFault::NoOptions) => "必须有议题投票选项"@,
            VoteError::InvalidInput(InputFault::NonPositiveQuota) => "参与人数需要大于0"@,
            VoteError::NotFound => "这个议题不存在"@,
            VoteError::AlreadyClosed => "该议题已经结束"@,
            VoteError::DuplicateVote => "您已经投过票了"@,
            VoteError::InvalidOption => "该议题没有这个选项"@,
        }
    }

    /// The notice that is shown to the person whose call failed.
    pub fn notice(&self) -> (s: String)
        ensures
            s@ == self.notice_text(),
    {
        match self {
            VoteError::InvalidInput(InputFault::EmptyDescription) => String::from_str(
                "议题描述不能为空",
            ),
            VoteError::InvalidInput(InputFault::NoOptions) => String::from_str("必须有议题投票选项"),
            VoteError::InvalidInput(InputFault::NonPositiveQuota) => String::from_str(
                "参与人数需要大于0",
            ),
            VoteError::NotFound => String::from_str("这个议题不存在"),
            VoteError::AlreadyClosed => String::from_str("该议题已经结束"),
            VoteError::DuplicateVote => String::from_str("您已经投过票了"),
            VoteError::InvalidOption => String::from_str("该议题没有这个选项"),
        }
    }
}

} // verus!
