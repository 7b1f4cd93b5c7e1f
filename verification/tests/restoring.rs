use voting::contract::Contract;
use voting::topic::Topic;
use voting::VoteError;

fn text(s: &str) -> String {
    s.to_string()
}

fn texts(list: &[&str]) -> Vec<String> {
    list.iter().map(|s| s.to_string()).collect()
}

fn topic(id: &str, voters: &[&str], over: bool) -> Topic {
    Topic {
        id: text(id),
        topic_desc: text("lunch"),
        items: texts(&["pizza", "sushi"]),
        item_account_by_index: vec![texts(voters), vec![]],
        total_limit: 3,
        current: texts(voters),
        over,
    }
}

fn entry(owner: &str, ids: &[&str]) -> (String, Vec<String>) {
    (text(owner), texts(ids))
}

#[test]
fn ledger_is_made_of_its_parts() {
    let topics = vec![topic("bob_1_0", &["a"], false), topic("bob_2_0", &[], true)];
    let search = vec![entry("bob", &["bob_2_0", "bob_1_0"])];
    let mut contract = Contract::restore(topics, search).unwrap();
    assert_eq!(contract.show(text("bob_1_0")), Ok(topic("bob_1_0", &["a"], false)));
    assert_eq!(contract.show(text("bob_2_0")), Ok(topic("bob_2_0", &[], true)));
    assert_eq!(contract.show(text("bob_3_0")), Err(VoteError::NotFound));
    assert_eq!(contract.topic_ids(text("bob")), Some(texts(&["bob_2_0", "bob_1_0"])));
    assert!(contract.topic_ids(text("alice")).is_none());
    let listed: Vec<String> =
        contract.list_topic(text("bob")).unwrap().into_iter().map(|t| t.id).collect();
    assert_eq!(listed, texts(&["bob_2_0", "bob_1_0"]));
    assert_eq!(contract.vote(text("a"), text("bob_1_0"), 1), Err(VoteError::DuplicateVote));
    assert_eq!(contract.vote(text("b"), text("bob_1_0"), 1), Ok(true));
    assert_eq!(contract.vote(text("b"), text("bob_2_0"), 1), Err(VoteError::AlreadyClosed));
}

#[test]
fn ledger_may_hold_topics_without_their_owner() {
    let contract = Contract::restore(vec![topic("bob_1_0", &[], false)], vec![]).unwrap();
    assert!(contract.show(text("bob_1_0")).is_ok());
    assert!(contract.list_topic(text("bob")).is_none());
    let empty = Contract::restore(vec![], vec![]).unwrap();
    assert_eq!(empty.show(text("bob_1_0")), Err(VoteError::NotFound));
}

#[test]
fn what_a_ledger_hands_out_makes_the_same_ledger() {
    let mut contract = Contract::new();
    for (owner, sequence) in [("bob", 1), ("alice", 2), ("bob", 3)] {
        assert_eq!(
            contract.create_topic(text(owner), sequence, 9, text("d"), texts(&["x", "y"]), 2),
            Ok(true)
        );
    }
    assert_eq!(contract.vote(text("v"), text("bob_1_9"), 0), Ok(true));
    assert_eq!(contract.vote(text("w"), text("bob_1_9"), 1), Ok(true));
    assert_eq!(contract.over(text("alice_2_9")), Ok(true));
    let ids = ["bob_1_9", "alice_2_9", "bob_3_9"];
    let topics: Vec<Topic> = ids.iter().map(|id| contract.show(text(id)).unwrap()).collect();
    let search: Vec<(String, Vec<String>)> = ["bob", "alice"]
        .iter()
        .map(|owner| (text(owner), contract.topic_ids(text(owner)).unwrap()))
        .collect();
    let restored = Contract::restore(topics, search).unwrap();
    for id in ids {
        assert_eq!(restored.show(text(id)), contract.show(text(id)));
    }
    for owner in ["bob", "alice", "carol"] {
        assert_eq!(restored.list_topic(text(owner)), contract.list_topic(text(owner)));
    }
}

#[test]
fn parts_that_do_not_fit_make_no_ledger() {
    let good = || vec![topic("bob_1_0", &["a"], false), topic("bob_2_0", &[], true)];
    assert!(Contract::restore(good(), vec![entry("bob", &["bob_1_0"])]).is_some());

    let twice = vec![topic("bob_1_0", &[], false), topic("bob_1_0", &["a"], false)];
    assert!(Contract::restore(twice, vec![]).is_none());

    let mut broken = good();
    broken[1].current.push(text("ghost"));
    assert!(Contract::restore(broken, vec![]).is_none());

    assert!(Contract::restore(good(), vec![entry("bob", &["bob_3_0"])]).is_none());
    assert!(Contract::restore(good(), vec![entry("bob", &[])]).is_none());
    assert!(Contract::restore(good(), vec![entry("bob", &["bob_1_0", "bob_1_0"])]).is_none());
    assert!(Contract::restore(
        good(),
        vec![entry("bob", &["bob_1_0"]), entry("bob", &["bob_2_0"])]
    )
    .is_none());
    assert!(Contract::restore(
        good(),
        vec![entry("bob", &["bob_1_0"]), entry("alice", &["bob_2_0"])]
    )
    .is_some());
}
