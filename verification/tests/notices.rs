use voting::{InputFault, VoteError};

#[test]
fn every_fault_has_its_message() {
    assert_eq!(InputFault::EmptyDescription.message(), "empty description");
    assert_eq!(InputFault::NoOptions.message(), "no options");
    assert_eq!(InputFault::NonPositiveQuota.message(), "non-positive quota");
}

#[test]
fn every_error_has_its_notice() {
    assert_eq!(
        VoteError::InvalidInput(InputFault::EmptyDescription).notice(),
        "议题描述不能为空"
    );
    assert_eq!(VoteError::InvalidInput(InputFault::NoOptions).notice(), "必须有议题投票选项");
    assert_eq!(
        VoteError::InvalidInput(InputFault::NonPositiveQuota).notice(),
        "参与人数需要大于0"
    );
    assert_eq!(VoteError::NotFound.notice(), "这个议题不存在");
    assert_eq!(VoteError::AlreadyClosed.notice(), "该议题已经结束");
    assert_eq!(VoteError::DuplicateVote.notice(), "您已经投过票了");
    assert_eq!(VoteError::InvalidOption.notice(), "该议题没有这个选项");
}

#[test]
fn errors_of_different_kinds_are_different() {
    let all = [
        VoteError::InvalidInput(InputFault::EmptyDescription),
        VoteError::InvalidInput(InputFault::NoOptions),
        VoteError::InvalidInput(InputFault::NonPositiveQuota),
        VoteError::NotFound,
        VoteError::AlreadyClosed,
        VoteError::DuplicateVote,
        VoteError::InvalidOption,
    ];
    for (i, a) in all.iter().enumerate() {
        for (j, b) in all.iter().enumerate() {
            assert_eq!(a == b, i == j);
            assert_eq!(a.notice() == b.notice(), i == j);
        }
    }
}
