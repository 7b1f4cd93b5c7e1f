use voting::contract::Contract;
use voting::ident::generate;
use voting::{InputFault, VoteError};

fn text(s: &str) -> String {
    s.to_string()
}

fn texts(list: &[&str]) -> Vec<String> {
    list.iter().map(|s| s.to_string()).collect()
}

/// The message of the fault for which a call for a new topic was refused.
fn fault_message(answer: Result<bool, VoteError>) -> String {
    match answer {
        Err(VoteError::InvalidInput(fault)) => fault.message(),
        other => panic!("not refused for its input: {:?}", other),
    }
}

/// A ledger with one topic of `owner`, made at sequence number 1 and
/// timestamp 2, and the identifier of that topic.
fn ledger_with_topic(owner: &str, items: &[&str], quota: u128) -> (Contract, String) {
    let mut contract = Contract::new();
    assert_eq!(
        contract.create_topic(text(owner), 1, 2, text("lunch poll"), texts(items), quota),
        Ok(true)
    );
    (contract, generate(owner, 1, 2))
}

#[test]
fn lunch_poll_closes_at_its_quota() {
    let mut contract = Contract::new();
    assert_eq!(
        contract.create_topic(text("o"), 1, 2, text("lunch poll"), texts(&["pizza", "sushi"]), 2),
        Ok(true)
    );
    let x = text("o_1_2");
    assert_eq!(contract.vote(text("a"), x.clone(), 0), Ok(true));
    assert_eq!(contract.show(x.clone()).unwrap().over, false);
    assert_eq!(contract.vote(text("a"), x.clone(), 0), Err(VoteError::DuplicateVote));
    assert_eq!(contract.vote(text("b"), x.clone(), 1), Ok(true));
    let topic = contract.show(x.clone()).unwrap();
    assert_eq!(topic.over, true);
    assert_eq!(topic.current, texts(&["a", "b"]));
    assert_eq!(topic.total_limit, 2);
    assert_eq!(topic.item_account_by_index, vec![texts(&["a"]), texts(&["b"])]);
    assert_eq!(contract.vote(text("c"), x.clone(), 0), Err(VoteError::AlreadyClosed));
    assert_eq!(contract.show(x).unwrap(), topic);
}

#[test]
fn empty_description_is_refused() {
    let mut contract = Contract::new();
    let answer = contract.create_topic(text("o"), 1, 2, text(""), texts(&["a"]), 1);
    assert_eq!(answer, Err(VoteError::InvalidInput(InputFault::EmptyDescription)));
    assert_eq!(fault_message(answer), "empty description");
    assert_eq!(contract.show(text("o_1_2")), Err(VoteError::NotFound));
    assert!(contract.list_topic(text("o")).is_none());
}

#[test]
fn topic_without_options_is_refused() {
    let mut contract = Contract::new();
    let answer = contract.create_topic(text("o"), 1, 2, text("d"), texts(&[]), 1);
    assert_eq!(answer, Err(VoteError::InvalidInput(InputFault::NoOptions)));
    assert_eq!(fault_message(answer), "no options");
    assert_eq!(contract.show(text("o_1_2")), Err(VoteError::NotFound));
    assert!(contract.list_topic(text("o")).is_none());
}

#[test]
fn zero_quota_is_refused() {
    let mut contract = Contract::new();
    let answer = contract.create_topic(text("o"), 1, 2, text("d"), texts(&["a"]), 0);
    assert_eq!(answer, Err(VoteError::InvalidInput(InputFault::NonPositiveQuota)));
    assert_eq!(fault_message(answer), "non-positive quota");
    assert_eq!(contract.show(text("o_1_2")), Err(VoteError::NotFound));
    assert!(contract.list_topic(text("o")).is_none());
}

#[test]
fn description_is_looked_at_before_options_and_options_before_quota() {
    let mut contract = Contract::new();
    assert_eq!(
        contract.create_topic(text("o"), 1, 2, text(""), texts(&[]), 0),
        Err(VoteError::InvalidInput(InputFault::EmptyDescription))
    );
    assert_eq!(
        contract.create_topic(text("o"), 1, 2, text("d"), texts(&[]), 0),
        Err(VoteError::InvalidInput(InputFault::NoOptions))
    );
}

#[test]
fn closing_twice_fails_the_second_time() {
    let (mut contract, x) = ledger_with_topic("o", &["a"], 3);
    assert_eq!(contract.over(text("unknown")), Err(VoteError::NotFound));
    assert_eq!(contract.over(x.clone()), Ok(true));
    assert_eq!(contract.show(x.clone()).unwrap().over, true);
    assert_eq!(contract.over(x.clone()), Err(VoteError::AlreadyClosed));
    assert_eq!(contract.show(x).unwrap().over, true);
}

#[test]
fn vote_for_an_option_that_is_not_there() {
    let (mut contract, x) = ledger_with_topic("o", &["pizza", "sushi"], 2);
    assert_eq!(contract.vote(text("a"), x.clone(), 99), Err(VoteError::InvalidOption));
    assert_eq!(contract.vote(text("a"), x.clone(), 2), Err(VoteError::InvalidOption));
    let topic = contract.show(x.clone()).unwrap();
    assert!(topic.current.is_empty());
    assert_eq!(topic.item_account_by_index, vec![texts(&[]), texts(&[])]);
    assert_eq!(contract.vote(text("a"), x, 1), Ok(true));
}

#[test]
fn vote_on_an_unknown_topic_is_not_found() {
    let (mut contract, _) = ledger_with_topic("o", &["a"], 2);
    assert_eq!(contract.vote(text("a"), text("o_1_3"), 0), Err(VoteError::NotFound));
    assert_eq!(contract.show(text("o_1_3")), Err(VoteError::NotFound));
}

#[test]
fn closed_is_looked_at_before_the_voter_and_the_voter_before_the_option() {
    let (mut contract, x) = ledger_with_topic("o", &["a"], 5);
    assert_eq!(contract.vote(text("v"), x.clone(), 0), Ok(true));
    assert_eq!(contract.vote(text("v"), x.clone(), 9), Err(VoteError::DuplicateVote));
    assert_eq!(contract.over(x.clone()), Ok(true));
    assert_eq!(contract.vote(text("v"), x.clone(), 9), Err(VoteError::AlreadyClosed));
    assert_eq!(contract.vote(text("w"), x, 9), Err(VoteError::AlreadyClosed));
}

#[test]
fn new_topic_is_open_with_an_empty_ballot_for_each_option() {
    let (contract, x) = ledger_with_topic("o", &["pizza", "sushi", "soup"], 4);
    let topic = contract.show(x.clone()).unwrap();
    assert_eq!(topic.id, x);
    assert_eq!(topic.topic_desc, "lunch poll");
    assert_eq!(topic.items, texts(&["pizza", "sushi", "soup"]));
    assert_eq!(topic.item_account_by_index, vec![texts(&[]), texts(&[]), texts(&[])]);
    assert_eq!(topic.total_limit, 4);
    assert!(topic.current.is_empty());
    assert_eq!(topic.over, false);
    assert!(topic.is_valid());
}

#[test]
fn votes_are_kept_in_the_order_in_which_they_came() {
    let (mut contract, x) = ledger_with_topic("o", &["pizza", "sushi"], 10);
    assert_eq!(contract.vote(text("c"), x.clone(), 1), Ok(true));
    assert_eq!(contract.vote(text("a"), x.clone(), 0), Ok(true));
    assert_eq!(contract.vote(text("b"), x.clone(), 1), Ok(true));
    let topic = contract.show(x).unwrap();
    assert_eq!(topic.current, texts(&["c", "a", "b"]));
    assert_eq!(topic.item_account_by_index, vec![texts(&["a"]), texts(&["c", "b"])]);
    assert_eq!(topic.over, false);
}

#[test]
fn ballots_hold_as_many_votes_as_there_are_participants() {
    let (mut contract, x) = ledger_with_topic("o", &["a", "b", "c"], 7);
    let voters = ["p", "q", "r", "s", "t"];
    for (k, voter) in voters.iter().enumerate() {
        assert_eq!(contract.vote(text(voter), x.clone(), k % 3), Ok(true));
        let topic = contract.show(x.clone()).unwrap();
        let total: usize = topic.item_account_by_index.iter().map(|b| b.len()).sum();
        assert_eq!(total, k + 1);
        assert_eq!(topic.current.len(), k + 1);
        assert!(topic.current.len() as u128 <= topic.total_limit);
    }
}

#[test]
fn nobody_is_twice_among_the_participants() {
    let (mut contract, x) = ledger_with_topic("o", &["a", "b"], 4);
    assert_eq!(contract.vote(text("p"), x.clone(), 0), Ok(true));
    assert_eq!(contract.vote(text("p"), x.clone(), 1), Err(VoteError::DuplicateVote));
    assert_eq!(contract.vote(text("q"), x.clone(), 0), Ok(true));
    assert_eq!(contract.vote(text("p"), x.clone(), 0), Err(VoteError::DuplicateVote));
    let topic = contract.show(x).unwrap();
    assert_eq!(topic.current, texts(&["p", "q"]));
    assert_eq!(topic.item_account_by_index, vec![texts(&["p", "q"]), texts(&[])]);
}

#[test]
fn topic_with_quota_one_closes_at_the_first_vote() {
    let (mut contract, x) = ledger_with_topic("o", &["a"], 1);
    assert_eq!(contract.vote(text("p"), x.clone(), 0), Ok(true));
    assert_eq!(contract.show(x.clone()).unwrap().over, true);
    assert_eq!(contract.vote(text("q"), x.clone(), 0), Err(VoteError::AlreadyClosed));
    assert_eq!(contract.over(x), Err(VoteError::AlreadyClosed));
}

#[test]
fn topic_stays_open_below_its_quota() {
    let (mut contract, x) = ledger_with_topic("o", &["a"], u128::MAX);
    for voter in ["p", "q", "r"] {
        assert_eq!(contract.vote(text(voter), x.clone(), 0), Ok(true));
        assert_eq!(contract.show(x.clone()).unwrap().over, false);
    }
}

#[test]
fn closing_by_hand_changes_nothing_but_the_flag() {
    let (mut contract, x) = ledger_with_topic("o", &["a", "b"], 5);
    assert_eq!(contract.vote(text("p"), x.clone(), 1), Ok(true));
    let before = contract.show(x.clone()).unwrap();
    assert_eq!(contract.over(x.clone()), Ok(true));
    let after = contract.show(x).unwrap();
    assert_eq!(after.over, true);
    assert_eq!(after.id, before.id);
    assert_eq!(after.topic_desc, before.topic_desc);
    assert_eq!(after.items, before.items);
    assert_eq!(after.item_account_by_index, before.item_account_by_index);
    assert_eq!(after.total_limit, before.total_limit);
    assert_eq!(after.current, before.current);
}

#[test]
fn refused_calls_change_nothing() {
    let (mut contract, x) = ledger_with_topic("o", &["a", "b"], 2);
    assert_eq!(contract.vote(text("p"), x.clone(), 0), Ok(true));
    let before = contract.show(x.clone()).unwrap();
    assert_eq!(contract.vote(text("p"), x.clone(), 1), Err(VoteError::DuplicateVote));
    assert_eq!(contract.vote(text("q"), x.clone(), 2), Err(VoteError::InvalidOption));
    assert_eq!(contract.vote(text("q"), text("nothing"), 0), Err(VoteError::NotFound));
    assert_eq!(contract.over(text("nothing")), Err(VoteError::NotFound));
    assert_eq!(
        contract.create_topic(text("o"), 1, 2, text(""), texts(&["z"]), 9),
        Err(VoteError::InvalidInput(InputFault::EmptyDescription))
    );
    assert_eq!(contract.show(x.clone()).unwrap(), before);
    assert_eq!(contract.list_topic(text("o")).unwrap(), vec![before]);
}

#[test]
fn shown_topic_is_a_copy() {
    let (mut contract, x) = ledger_with_topic("o", &["a"], 3);
    let mut copy = contract.show(x.clone()).unwrap();
    copy.over = true;
    copy.current.push(text("intruder"));
    assert_eq!(contract.show(x.clone()).unwrap().over, false);
    assert!(contract.show(x.clone()).unwrap().current.is_empty());
    assert_eq!(contract.vote(text("p"), x, 0), Ok(true));
}

#[test]
fn votes_on_one_topic_leave_the_others_alone() {
    let mut contract = Contract::new();
    assert_eq!(
        contract.create_topic(text("o"), 1, 1, text("one"), texts(&["a"]), 1),
        Ok(true)
    );
    assert_eq!(
        contract.create_topic(text("o"), 2, 1, text("two"), texts(&["a"]), 1),
        Ok(true)
    );
    let two = contract.show(text("o_2_1")).unwrap();
    assert_eq!(contract.vote(text("p"), text("o_1_1"), 0), Ok(true));
    assert_eq!(contract.show(text("o_1_1")).unwrap().over, true);
    assert_eq!(contract.show(text("o_2_1")).unwrap(), two);
    assert_eq!(contract.vote(text("p"), text("o_2_1"), 0), Ok(true));
}

#[test]
fn topic_made_again_at_the_same_place_replaces_the_first() {
    let (mut contract, x) = ledger_with_topic("o", &["a"], 1);
    assert_eq!(contract.vote(text("p"), x.clone(), 0), Ok(true));
    assert_eq!(contract.show(x.clone()).unwrap().over, true);
    assert_eq!(
        contract.create_topic(text("o"), 1, 2, text("again"), texts(&["b", "c"]), 4),
        Ok(true)
    );
    let topic = contract.show(x.clone()).unwrap();
    assert_eq!(topic.topic_desc, "again");
    assert_eq!(topic.over, false);
    assert!(topic.current.is_empty());
    assert_eq!(contract.list_topic(text("o")).unwrap().len(), 1);
    assert_eq!(contract.topic_ids(text("o")), Some(vec![x]));
}

#[test]
fn closed_topic_refuses_every_later_vote_and_closing() {
    let (mut contract, x) = ledger_with_topic("o", &["a", "b"], 2);
    assert_eq!(contract.vote(text("p"), x.clone(), 0), Ok(true));
    assert_eq!(contract.vote(text("q"), x.clone(), 1), Ok(true));
    let closed = contract.show(x.clone()).unwrap();
    assert_eq!(closed.over, true);
    assert_eq!(
        contract.create_topic(text("o"), 1, 3, text("other"), texts(&["z"]), 1),
        Ok(true)
    );
    for round in 0..4 {
        for voter in ["p", "q", "r", ""] {
            for item in [0, 1, 2, usize::MAX] {
                assert_eq!(
                    contract.vote(text(voter), x.clone(), item),
                    Err(VoteError::AlreadyClosed)
                );
            }
        }
        assert_eq!(contract.over(x.clone()), Err(VoteError::AlreadyClosed));
        assert_eq!(contract.show(x.clone()).unwrap(), closed);
        let other = contract.vote(text("p"), text("o_1_3"), 0);
        if round == 0 {
            assert_eq!(other, Ok(true));
        } else {
            assert_eq!(other, Err(VoteError::AlreadyClosed));
        }
    }
}
