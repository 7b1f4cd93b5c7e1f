use voting::topic::Topic;
use voting::VoteError;

fn text(s: &str) -> String {
    s.to_string()
}

fn texts(list: &[&str]) -> Vec<String> {
    list.iter().map(|s| s.to_string()).collect()
}

fn poll(quota: u128) -> Topic {
    Topic::fresh(text("o_1_2"), text("lunch"), texts(&["pizza", "sushi"]), quota)
}

#[test]
fn fresh_topic_is_open_and_without_votes() {
    let topic = poll(3);
    assert_eq!(
        topic,
        Topic {
            id: text("o_1_2"),
            topic_desc: text("lunch"),
            items: texts(&["pizza", "sushi"]),
            item_account_by_index: vec![vec![], vec![]],
            total_limit: 3,
            current: vec![],
            over: false,
        }
    );
    assert!(topic.is_valid());
}

#[test]
fn cast_puts_the_voter_into_the_ballot_and_among_the_participants() {
    let mut topic = poll(3);
    assert_eq!(topic.cast(text("a"), 1), Ok(true));
    assert_eq!(topic.cast(text("b"), 1), Ok(true));
    assert_eq!(topic.current, texts(&["a", "b"]));
    assert_eq!(topic.item_account_by_index, vec![texts(&[]), texts(&["a", "b"])]);
    assert_eq!(topic.over, false);
    assert!(topic.is_valid());
    assert_eq!(topic.cast(text("c"), 0), Ok(true));
    assert_eq!(topic.over, true);
    assert!(topic.is_valid());
}

#[test]
fn cast_that_is_refused_changes_nothing() {
    let mut topic = poll(2);
    assert_eq!(topic.cast(text("a"), 0), Ok(true));
    let before = topic.clone();
    assert_eq!(topic.cast(text("a"), 1), Err(VoteError::DuplicateVote));
    assert_eq!(topic.cast(text("b"), 2), Err(VoteError::InvalidOption));
    assert_eq!(topic, before);
    assert_eq!(topic.close(), Ok(true));
    assert_eq!(topic.cast(text("b"), 1), Err(VoteError::AlreadyClosed));
    assert_eq!(topic.close(), Err(VoteError::AlreadyClosed));
    assert_eq!(topic.current, before.current);
}

#[test]
fn clone_holds_what_the_topic_holds() {
    let mut topic = poll(5);
    assert_eq!(topic.cast(text("a"), 0), Ok(true));
    assert_eq!(topic.cast(text("b"), 1), Ok(true));
    let copy = topic.clone();
    assert_eq!(copy, topic);
    assert_eq!(topic.cast(text("c"), 1), Ok(true));
    assert_eq!(copy.current, texts(&["a", "b"]));
    assert_eq!(copy.item_account_by_index, vec![texts(&["a"]), texts(&["b"])]);
}

fn voted() -> Topic {
    Topic {
        id: text("o_1_2"),
        topic_desc: text("lunch"),
        items: texts(&["pizza", "sushi"]),
        item_account_by_index: vec![texts(&["a"]), texts(&["b", "c"])],
        total_limit: 4,
        current: texts(&["b", "a", "c"]),
        over: false,
    }
}

#[test]
fn topic_that_keeps_the_rules_is_valid() {
    assert!(voted().is_valid());
    let mut closed = voted();
    closed.over = true;
    assert!(closed.is_valid());
    let mut full = voted();
    full.total_limit = 3;
    full.over = true;
    assert!(full.is_valid());
    let mut again = voted();
    again.item_account_by_index[1].push(text("b"));
    assert!(again.is_valid());
}

#[test]
fn topic_that_breaks_a_rule_is_not_valid() {
    let mut t = voted();
    t.topic_desc = text("");
    assert!(!t.is_valid());

    let mut t = voted();
    t.items = vec![];
    t.item_account_by_index = vec![];
    t.current = vec![];
    assert!(!t.is_valid());

    let mut t = voted();
    t.items.push(text("soup"));
    assert!(!t.is_valid());

    let mut t = voted();
    t.item_account_by_index.push(vec![]);
    assert!(!t.is_valid());

    let mut t = voted();
    t.total_limit = 0;
    assert!(!t.is_valid());

    let mut t = voted();
    t.total_limit = 2;
    t.over = true;
    assert!(!t.is_valid());

    let mut t = voted();
    t.total_limit = 3;
    assert!(!t.is_valid());

    let mut t = voted();
    t.current.push(text("a"));
    assert!(!t.is_valid());

    let mut t = voted();
    t.current.push(text("d"));
    assert!(!t.is_valid());

    let mut t = voted();
    t.item_account_by_index[0].push(text("d"));
    assert!(!t.is_valid());

    let mut t = voted();
    t.item_account_by_index[0].push(text("b"));
    assert!(!t.is_valid());
}
