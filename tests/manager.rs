use counter_manager::contract::{
    execute, handle_increment_reply, handle_instantiate_reply, handle_reset_reply, instantiate, query, reply, try_increment, try_reset, ContractError, CounterMsg,
    Request, SubRequest, EXECUTE_INCREMENT_REPLY_ID, EXECUTE_RESET_REPLY_ID, INSTANTIATE_REPLY_ID,
};
use counter_manager::msg::{ExecuteMsg, GetContractsResponse, InstantiateMsg, QueryMsg};
use counter_manager::reply::{Attribute, Event, Reply, ReplyError};
use counter_manager::state::Registry;

fn attr(key: &str, value: &str) -> Attribute {
    Attribute { key: key.to_string(), value: value.to_string() }
}

fn event(ty: &str, attributes: Vec<Attribute>) -> Event {
    Event { ty: ty.to_string(), attributes }
}

/// The reply that the environment delivers once it has created a child at `addr`.
fn created_reply(id: u64, addr: &str) -> Reply {
    Reply {
        id,
        events: vec![
            event("instantiate", vec![attr("_contract_address", addr), attr("code_id", "1")]),
            event("wasm", vec![attr("_contract_addr", addr), attr("method", "instantiate"), attr("count", "0")]),
        ],
    }
}

fn incremented_reply(id: u64, addr: &str) -> Reply {
    Reply {
        id,
        events: vec![
            event("execute", vec![attr("_contract_address", addr)]),
            event("wasm", vec![attr("_contract_addr", addr), attr("method", "try_increment")]),
        ],
    }
}

fn reset_reply(id: u64, addr: &str, count: &str) -> Reply {
    Reply {
        id,
        events: vec![
            event("execute", vec![attr("_contract_address", addr)]),
            event("wasm", vec![attr("_contract_addr", addr), attr("method", "reset"), attr("count", count)]),
        ],
    }
}

/// Sends a creation request and delivers its reply, as the environment would,
/// with the address that the environment assigns.
fn create(registry: &mut Registry, addr: &str) {
    let req = execute(registry, ExecuteMsg::InstantiateNewCounter { code_id: 7 }).unwrap();
    match &req.request {
        Request::Instantiate { code_id, count, label } => {
            assert_eq!(*code_id, 7);
            assert_eq!(*count, 0);
            assert_eq!(label, "counter");
        }
        Request::Execute { .. } => panic!("expected a creation request"),
    }
    reply(registry, &created_reply(req.reply_id, addr)).unwrap();
}

fn increment(registry: &mut Registry, addr: &str) {
    let req = execute(registry, ExecuteMsg::Increment { contract: addr.to_string() }).unwrap();
    reply(registry, &incremented_reply(req.reply_id, addr)).unwrap();
}

fn reset(registry: &mut Registry, addr: &str, count: i32) {
    let req = execute(registry, ExecuteMsg::Reset { contract: addr.to_string(), count }).unwrap();
    match &req.request {
        Request::Execute { contract, msg: CounterMsg::Reset { count: c } } => {
            assert_eq!(contract, addr);
            assert_eq!(*c, count);
        }
        _ => panic!("expected a reset request"),
    }
    reply(registry, &reset_reply(req.reply_id, addr, &count.to_string())).unwrap();
}

fn get_contracts(registry: &Registry) -> GetContractsResponse {
    query(registry, QueryMsg::GetContracts {})
}

fn summary(registry: &Registry) -> Vec<(String, String, i32)> {
    get_contracts(registry)
        .contracts
        .into_iter()
        .map(|(k, s)| (k, s.address, s.count))
        .collect()
}

#[test]
fn create_one_counter() {
    let mut registry = instantiate(InstantiateMsg {});
    create(&mut registry, "contract1");
    let res = get_contracts(&registry);
    assert_eq!(res.contracts.len(), 1);
    assert_eq!(res.contracts[0].1.address, "contract1");
}

#[test]
fn create_two_counters() {
    let mut registry = instantiate(InstantiateMsg {});
    create(&mut registry, "contract1");
    create(&mut registry, "contract2");
    let res = get_contracts(&registry);
    assert_eq!(res.contracts.len(), 2);
    assert_eq!(res.contracts[0].1.address, "contract1");
    assert_eq!(res.contracts[1].1.address, "contract2");
}

#[test]
fn create_counter_and_increment() {
    let mut registry = instantiate(InstantiateMsg {});
    create(&mut registry, "contract1");
    increment(&mut registry, "contract1");
    let res = get_contracts(&registry);
    assert_eq!(res.contracts[0].1.count, 1);
}

#[test]
fn create_counter_and_increment_twice() {
    let mut registry = instantiate(InstantiateMsg {});
    create(&mut registry, "contract1");
    increment(&mut registry, "contract1");
    increment(&mut registry, "contract1");
    let res = get_contracts(&registry);
    assert_eq!(res.contracts.len(), 1);
    assert_eq!(res.contracts[0].1.count, 2);
}

#[test]
fn create_counter_and_increment_and_reset() {
    let mut registry = instantiate(InstantiateMsg {});
    create(&mut registry, "contract1");
    increment(&mut registry, "contract1");
    reset(&mut registry, "contract1", 0);
    let res = get_contracts(&registry);
    assert_eq!(res.contracts.len(), 1);
    assert_eq!(res.contracts[0].1.count, 0);
}

#[test]
fn create_two_counters_and_increment_each() {
    let mut registry = instantiate(InstantiateMsg {});
    create(&mut registry, "contract1");
    create(&mut registry, "contract2");
    increment(&mut registry, "contract1");
    increment(&mut registry, "contract2");
    increment(&mut registry, "contract2");
    assert_eq!(
        summary(&registry),
        vec![
            ("contract1".to_string(), "contract1".to_string(), 1),
            ("contract2".to_string(), "contract2".to_string(), 2),
        ]
    );
}

#[test]
fn two_creations_give_two_zero_records() {
    let mut registry = Registry::new();
    create(&mut registry, "A1");
    create(&mut registry, "A2");
    assert_eq!(
        summary(&registry),
        vec![("A1".to_string(), "A1".to_string(), 0), ("A2".to_string(), "A2".to_string(), 0)]
    );
}

#[test]
fn creations_list_in_address_order() {
    let mut registry = Registry::new();
    for a in ["c3", "c1", "c10", "c2"] {
        create(&mut registry, a);
    }
    let keys: Vec<String> = summary(&registry).into_iter().map(|(k, _, _)| k).collect();
    assert_eq!(keys, vec!["c1", "c10", "c2", "c3"]);
}

#[test]
fn creation_order_does_not_change_the_listing() {
    let mut one = Registry::new();
    create(&mut one, "b");
    create(&mut one, "a");
    let mut two = Registry::new();
    create(&mut two, "a");
    create(&mut two, "b");
    assert_eq!(summary(&one), summary(&two));
    assert_eq!(summary(&one)[0].0, "a");
}

#[test]
fn same_reset_twice_equals_once() {
    let mut registry = Registry::new();
    create(&mut registry, "A1");
    increment(&mut registry, "A1");
    let msg = reset_reply(EXECUTE_RESET_REPLY_ID, "A1", "4");
    reply(&mut registry, &msg).unwrap();
    let once = summary(&registry);
    reply(&mut registry, &msg).unwrap();
    assert_eq!(summary(&registry), once);
    assert_eq!(once, vec![("A1".to_string(), "A1".to_string(), 4)]);
}

#[test]
fn handlers_apply_their_kind() {
    let mut registry = Registry::new();
    let w = handle_instantiate_reply(&mut registry, &created_reply(INSTANTIATE_REPLY_ID, "A1")).unwrap();
    assert_eq!((w.address.as_str(), w.count), ("A1", 0));
    let w = handle_increment_reply(&mut registry, &incremented_reply(EXECUTE_INCREMENT_REPLY_ID, "A1")).unwrap();
    assert_eq!(w.count, 1);
    let w = handle_reset_reply(&mut registry, &reset_reply(EXECUTE_RESET_REPLY_ID, "A1", "-9")).unwrap();
    assert_eq!(w.count, -9);
    assert_eq!(summary(&registry), vec![("A1".to_string(), "A1".to_string(), -9)]);
}

#[test]
fn two_increments_give_two() {
    let mut registry = Registry::new();
    create(&mut registry, "A1");
    increment(&mut registry, "A1");
    increment(&mut registry, "A1");
    assert_eq!(summary(&registry), vec![("A1".to_string(), "A1".to_string(), 2)]);
}

#[test]
fn reset_sets_seven() {
    let mut registry = Registry::new();
    create(&mut registry, "A1");
    reset(&mut registry, "A1", 7);
    assert_eq!(summary(&registry), vec![("A1".to_string(), "A1".to_string(), 7)]);
}

#[test]
fn reset_overwrites_any_prior_value() {
    let mut registry = Registry::new();
    create(&mut registry, "A1");
    create(&mut registry, "A2");
    for _ in 0..5 {
        increment(&mut registry, "A1");
    }
    increment(&mut registry, "A2");
    reset(&mut registry, "A1", -42);
    assert_eq!(
        summary(&registry),
        vec![("A1".to_string(), "A1".to_string(), -42), ("A2".to_string(), "A2".to_string(), 1)]
    );
}

#[test]
fn reset_of_unknown_is_not_found() {
    let registry = Registry::new();
    let r = try_reset(&registry, "unknown".to_string(), 3);
    assert!(matches!(r, Err(ContractError::NotFound)));
    assert!(get_contracts(&registry).contracts.is_empty());
    let r = execute(&registry, ExecuteMsg::Reset { contract: "unknown".to_string(), count: 3 });
    assert!(matches!(r, Err(ContractError::NotFound)));
}

#[test]
fn increment_of_unknown_is_not_found() {
    let mut registry = Registry::new();
    create(&mut registry, "A1");
    let r = try_increment(&registry, "A2".to_string());
    assert!(matches!(r, Err(ContractError::NotFound)));
}

#[test]
fn requests_carry_their_tags() {
    let mut registry = Registry::new();
    create(&mut registry, "A1");
    let inc: SubRequest = try_increment(&registry, "A1".to_string()).unwrap();
    assert_eq!(inc.reply_id, EXECUTE_INCREMENT_REPLY_ID);
    assert!(matches!(&inc.request, Request::Execute { contract, msg: CounterMsg::Increment } if contract == "A1"));
    let rst = try_reset(&registry, "A1".to_string(), 9).unwrap();
    assert_eq!(rst.reply_id, EXECUTE_RESET_REPLY_ID);
    let new = execute(&registry, ExecuteMsg::InstantiateNewCounter { code_id: 3 }).unwrap();
    assert_eq!(new.reply_id, INSTANTIATE_REPLY_ID);
    assert_eq!((INSTANTIATE_REPLY_ID, EXECUTE_INCREMENT_REPLY_ID, EXECUTE_RESET_REPLY_ID), (1, 2, 3));
}

#[test]
fn unknown_tag_is_refused_and_changes_nothing() {
    let mut registry = Registry::new();
    create(&mut registry, "A1");
    let before = summary(&registry);
    let r = reply(&mut registry, &created_reply(9, "A2"));
    assert_eq!(r.err(), Some(ReplyError::UnknownReplyId { id: 9 }));
    assert_eq!(summary(&registry), before);
}

#[test]
fn reply_without_address_event_fails() {
    let mut registry = Registry::new();
    let msg = Reply { id: INSTANTIATE_REPLY_ID, events: vec![event("wasm", vec![attr("method", "x")])] };
    assert_eq!(reply(&mut registry, &msg).err(), Some(ReplyError::NoMatchingEvent));
    let msg = Reply { id: INSTANTIATE_REPLY_ID, events: vec![event("wasm", vec![])] };
    assert_eq!(reply(&mut registry, &msg).err(), Some(ReplyError::NoMatchingEvent));
    assert!(summary(&registry).is_empty());
}

#[test]
fn reset_reply_with_bad_number_changes_nothing() {
    let mut registry = Registry::new();
    create(&mut registry, "A1");
    increment(&mut registry, "A1");
    let r = reply(&mut registry, &reset_reply(EXECUTE_RESET_REPLY_ID, "A1", "seven"));
    assert_eq!(r.err(), Some(ReplyError::InvalidNumber));
    let no_reset = Reply {
        id: EXECUTE_RESET_REPLY_ID,
        events: vec![event("wasm", vec![attr("_contract_addr", "A1"), attr("method", "noop"), attr("count", "3")])],
    };
    assert_eq!(reply(&mut registry, &no_reset).err(), Some(ReplyError::NoMatchingEvent));
    assert_eq!(summary(&registry), vec![("A1".to_string(), "A1".to_string(), 1)]);
}

#[test]
fn reply_for_unknown_child_is_not_found() {
    let mut registry = Registry::new();
    create(&mut registry, "A1");
    let r = reply(&mut registry, &incremented_reply(EXECUTE_INCREMENT_REPLY_ID, "B"));
    assert_eq!(r.err(), Some(ReplyError::NotFound));
    let r = reply(&mut registry, &reset_reply(EXECUTE_RESET_REPLY_ID, "B", "4"));
    assert_eq!(r.err(), Some(ReplyError::NotFound));
    assert_eq!(summary(&registry), vec![("A1".to_string(), "A1".to_string(), 0)]);
}

#[test]
fn increment_at_the_top_overflows() {
    let mut registry = Registry::new();
    create(&mut registry, "A1");
    reset(&mut registry, "A1", i32::MAX);
    let r = reply(&mut registry, &incremented_reply(EXECUTE_INCREMENT_REPLY_ID, "A1"));
    assert_eq!(r.err(), Some(ReplyError::Overflow));
    assert_eq!(summary(&registry), vec![("A1".to_string(), "A1".to_string(), i32::MAX)]);
}

#[test]
fn reply_returns_the_written_record() {
    let mut registry = Registry::new();
    let w = reply(&mut registry, &created_reply(INSTANTIATE_REPLY_ID, "A1")).unwrap();
    assert_eq!((w.address.as_str(), w.count), ("A1", 0));
    let w = reply(&mut registry, &reset_reply(EXECUTE_RESET_REPLY_ID, "A1", "-3")).unwrap();
    assert_eq!((w.address.as_str(), w.count), ("A1", -3));
}

#[test]
fn create_of_known_address_starts_it_over() {
    let mut registry = Registry::new();
    create(&mut registry, "A1");
    create(&mut registry, "A2");
    increment(&mut registry, "A1");
    create(&mut registry, "A1");
    assert_eq!(
        summary(&registry),
        vec![("A1".to_string(), "A1".to_string(), 0), ("A2".to_string(), "A2".to_string(), 0)]
    );
}
