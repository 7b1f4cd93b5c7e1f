use near_sdk::json_types::ValidAccountId;
use near_sdk::test_utils::{accounts, VMContextBuilder};
use near_sdk::{MockedBlockchain, VMContext};
use voting::contract::Contract;

fn get_context(predecessor_account_id: ValidAccountId) -> VMContextBuilder {
    let mut builder = VMContextBuilder::new();
    builder
        .current_account_id(accounts(0))
        .signer_account_id(predecessor_account_id.clone())
        .predecessor_account_id(predecessor_account_id);
    builder
}

fn testing_env(context: VMContext) {
    let storage = match near_sdk::env::take_blockchain_interface() {
        Some(mut bi) => bi.as_mut_mocked_blockchain().unwrap().take_storage(),
        None => Default::default(),
    };
    near_sdk::env::set_blockchain_interface(Box::new(MockedBlockchain::new(
        context,
        Default::default(),
        Default::default(),
        Default::default(),
        storage,
        Default::default(),
        None,
    )));
}

fn create_topic(
    contract: &mut Contract,
    topic_desc: String,
    items: Vec<String>,
    total_limit: u128,
) -> Result<bool, String> {
    contract
        .create_topic(
            near_sdk::env::signer_account_id(),
            near_sdk::env::block_index(),
            near_sdk::env::block_timestamp(),
            topic_desc,
            items,
            total_limit,
        )
        .map_err(|e| e.notice())
}

fn vote(contract: &mut Contract, topic_id: String, item: usize) -> Result<bool, String> {
    contract.vote(near_sdk::env::signer_account_id(), topic_id, item).map_err(|e| e.notice())
}

fn over(contract: &mut Contract, topic_id: String) -> Result<bool, String> {
    contract.over(topic_id).map_err(|e| e.notice())
}

#[test]
fn test_create_topic() {
    let context = get_context(accounts(1));
    testing_env(context.build());
    let mut contract = Contract::new();
    assert_eq!(
        create_topic(&mut contract, "topic1".to_string(), vec!(), 2),
        Err("必须有议题投票选项".to_string())
    );
    assert_eq!(
        create_topic(&mut contract, "".to_string(), vec!(), 2),
        Err("议题描述不能为空".to_string())
    );
    assert_eq!(
        create_topic(&mut contract, "x".to_string(), vec!("1".to_string(), "2".to_string()), 0),
        Err("参与人数需要大于0".to_string())
    );
}

#[test]
fn test_vote() {
    let context = get_context(accounts(1));
    testing_env(context.build());
    let mut contract = Contract::new();
    assert_eq!(
        create_topic(&mut contract, "x".to_string(), vec!["1".to_string(), "2".to_string()], 5),
        Ok(true)
    );
    let topic_id = format!(
        "{}_{}_{}",
        near_sdk::env::signer_account_id(),
        near_sdk::env::block_index(),
        near_sdk::env::block_timestamp()
    );
    assert_eq!(
        vote(&mut contract, topic_id.clone(), 4),
        Err("该议题没有这个选项".to_string())
    );
    assert_eq!(
        vote(&mut contract, "x".to_string(), 4),
        Err("这个议题不存在".to_string())
    );
    assert_eq!(vote(&mut contract, topic_id.clone(), 1), Ok(true));
    assert_eq!(
        vote(&mut contract, topic_id.clone(), 1),
        Err("您已经投过票了".to_string())
    );
}

#[test]
fn test_over() {
    let context = get_context(accounts(1));
    testing_env(context.build());
    let mut contract = Contract::new();
    assert_eq!(
        create_topic(&mut contract, "x".to_string(), vec!["1".to_string(), "2".to_string()], 5),
        Ok(true)
    );
    assert_eq!(
        over(&mut contract, "x".to_string()),
        Err("这个议题不存在".to_string())
    );
    let topic_id = format!(
        "{}_{}_{}",
        near_sdk::env::signer_account_id(),
        near_sdk::env::block_index(),
        near_sdk::env::block_timestamp()
    );
    assert_eq!(over(&mut contract, topic_id.to_string()), Ok(true));
    assert_eq!(
        over(&mut contract, topic_id.to_string()),
        Err("该议题已经结束".to_string())
    );
}

#[test]
fn calls_in_a_later_block_make_another_topic() {
    let mut context = get_context(accounts(2));
    testing_env(context.build());
    let mut contract = Contract::new();
    assert_eq!(
        create_topic(&mut contract, "first".to_string(), vec!["a".to_string()], 3),
        Ok(true)
    );
    testing_env(context.block_index(7).block_timestamp(1_600_000_000_000_000_000).build());
    assert_eq!(
        create_topic(&mut contract, "second".to_string(), vec!["b".to_string()], 3),
        Ok(true)
    );
    let listed = contract.list_topic(near_sdk::env::signer_account_id()).unwrap();
    let ids: Vec<String> = listed.iter().map(|t| t.id.clone()).collect();
    assert_eq!(
        ids,
        vec!["charlie_7_1600000000000000000".to_string(), "charlie_0_0".to_string()]
    );
    assert_eq!(listed[0].topic_desc, "second");
    assert_eq!(listed[1].topic_desc, "first");
}
