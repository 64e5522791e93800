//! The coordinator: turns requests into tagged outgoing messages, and
//! applies each reply to the registry.
use vstd::prelude::*;
use crate::msg::{ExecuteMsg, GetContractsResponse, InstantiateMsg, QueryMsg};
use crate::reply::{get_contract_address, get_reset_count, reported_address, reported_count, EventView, Reply, ReplyError};
use crate::order::text_lt;
use crate::state::{has_key, value_of, with_record, with_value, Registry, RecordView, State};

verus! {

/// Tag of the reply to a child creation.
pub const INSTANTIATE_REPLY_ID: u64 = 1;

/// Tag of the reply to an increment.
pub const EXECUTE_INCREMENT_REPLY_ID: u64 = 2;

/// Tag of the reply to a reset.
pub const EXECUTE_RESET_REPLY_ID: u64 = 3;

/// Why a request was refused before anything was sent.
#[derive(Debug, PartialEq, Eq, Structural)]
pub enum ContractError {
    /// The target address is not in the registry.
    NotFound,
}

/// The kinds of operation that a reply can confirm.
#[derive(Clone, Copy, Debug, PartialEq, Eq, Structural)]
pub enum ReplyKind {
    Create,
    Increment,
    Reset,
}

pub open spec fn kind_of(id: u64) -> Option<ReplyKind> {
    if id == INSTANTIATE_REPLY_ID {
        Some(ReplyKind::Create)
    } else if id == EXECUTE_INCREMENT_REPLY_ID {
        Some(ReplyKind::Increment)
    } else if id == EXECUTE_RESET_REPLY_ID {
        Some(ReplyKind::Reset)
    } else {
        None
    }
}

/// The operation kind that the tag `id` stands for.
pub fn reply_kind(id: u64) -> (r: Option<ReplyKind>)
    ensures
        r == kind_of(id),
{
    if id == INSTANTIATE_REPLY_ID {
        Some(ReplyKind::Create)
    } else if id == EXECUTE_INCREMENT_REPLY_ID {
        Some(ReplyKind::Increment)
    } else if id == EXECUTE_RESET_REPLY_ID {
        Some(ReplyKind::Reset)
    } else {
        None
    }
}

/// What a counter child is asked to do.
pub enum CounterMsg {
    Increment,
    Reset { count: i32 },
}

/// A message to the execution environment.
pub enum Request {
    /// Create a child from stored code, with an initial count and a label.
    Instantiate { code_id: u64, count: i32, label: String },
    /// Run `msg` on the child at `contract`.
    Execute { contract: String, msg: CounterMsg },
}

/// A request together with the tag that its reply will carry.
pub struct SubRequest {
    pub request: Request,
    pub reply_id: u64,
}

/// `r` asks for a new child of code `code_id` starting at 0, tagged as a
/// creation.
pub open spec fn is_create_request(r: SubRequest, code_id: u64) -> bool {
    &&& r.reply_id == INSTANTIATE_REPLY_ID
    &&& r.request matches Request::Instantiate { code_id: c, count, label }
    &&& c == code_id
    &&& count == 0
    &&& label@ == "counter"@
}

/// `r` asks the child at `contract` to increment, tagged as an increment.
pub open spec fn is_increment_request(r: SubRequest, contract: String) -> bool {
    &&& r.reply_id == EXECUTE_INCREMENT_REPLY_ID
    &&& r.request == (Request::Execute { contract, msg: CounterMsg::Increment })
}

/// `r` asks the child at `contract` to take the value `count`, tagged as a
/// reset.
pub open spec fn is_reset_request(r: SubRequest, contract: String, count: i32) -> bool {
    &&& r.reply_id == EXECUTE_RESET_REPLY_ID
    &&& r.request == (Request::Execute { contract, msg: CounterMsg::Reset { count } })
}

/// What the request `msg` yields against the registry `s`.
pub open spec fn execute_result(
    s: Seq<RecordView>,
    msg: ExecuteMsg,
    r: Result<SubRequest, ContractError>,
) -> bool {
    match msg {
        ExecuteMsg::InstantiateNewCounter { code_id } => r matches Ok(q) && is_create_request(q, code_id),
        ExecuteMsg::Increment { contract } => if has_key(s, contract@) {
            r matches Ok(q) && is_increment_request(q, contract)
        } else {
            r == Err::<SubRequest, ContractError>(ContractError::NotFound)
        },
        ExecuteMsg::Reset { contract, count } => if has_key(s, contract@) {
            r matches Ok(q) && is_reset_request(q, contract, count)
        } else {
            r == Err::<SubRequest, ContractError>(ContractError::NotFound)
        },
    }
}

/// What applying the reply `(id, events)` to the registry `s` gives: the
/// new registry and the record written, or the error that leaves `s` as it
/// was.
pub open spec fn reply_effect(s: Seq<RecordView>, id: u64, events: Seq<EventView>) -> Result<
    (Seq<RecordView>, RecordView),
    ReplyError,
> {
    match kind_of(id) {
        None => Err(ReplyError::UnknownReplyId { id }),
        Some(ReplyKind::Create) => match reported_address(events) {
            Ok(a) => Ok((with_record(s, a, 0), (a, 0i32))),
            Err(e) => Err(e),
        },
        Some(ReplyKind::Increment) => match reported_address(events) {
            Ok(a) => if !has_key(s, a) {
                Err(ReplyError::NotFound)
            } else if value_of(s, a) == i32::MAX {
                Err(ReplyError::Overflow)
            } else {
                let v = (value_of(s, a) + 1) as i32;
                Ok((with_value(s, a, v), (a, v)))
            },
            Err(e) => Err(e),
        },
        Some(ReplyKind::Reset) => match reported_address(events) {
            Ok(a) => match reported_count(events) {
                Ok(v) => if !has_key(s, a) {
                    Err(ReplyError::NotFound)
                } else {
                    Ok((with_value(s, a, v), (a, v)))
                },
                Err(e) => Err(e),
            },
            Err(e) => Err(e),
        },
    }
}

/// `r` and the registry after the call agree with `reply_effect`.
pub open spec fn reply_applied(
    before: Seq<RecordView>,
    after: Seq<RecordView>,
    id: u64,
    events: Seq<EventView>,
    r: Result<State, ReplyError>,
) -> bool {
    match reply_effect(before, id, events) {
        Ok((s, rec)) => r matches Ok(w) && w@ == rec && after == s,
        Err(e) => r == Err::<State, ReplyError>(e) && after == before,
    }
}

/// `r` lists the records of `s` in order, each beside its address, with
/// addresses strictly ascending.
pub open spec fn lists(r: GetContractsResponse, s: Seq<RecordView>) -> bool {
    &&& r.contracts@.len() == s.len()
    &&& forall|i: int| 0 <= i < s.len() ==> (#[trigger] r.contracts@[i]).0@ == s[i].0 && r.contracts@[i].1@ == s[i]
    &&& forall|i: int, j: int|
        0 <= i < j < s.len() ==> text_lt(#[trigger] r.contracts@[i].0@, #[trigger] r.contracts@[j].0@)
}

/// A coordinator with an empty registry.
pub fn instantiate(_msg: InstantiateMsg) -> (r: Registry)
    ensures
        r.wf(),
        r@ == Seq::<RecordView>::empty(),
{
    Registry::new()
}

/// Dispatches a request to the function for its kind.
pub fn execute(registry: &Registry, msg: ExecuteMsg) -> (r: Result<SubRequest, ContractError>)
    requires
        registry.wf(),
    ensures
        execute_result(registry@, msg, r),
{
    match msg {
        ExecuteMsg::InstantiateNewCounter { code_id } => Ok(instantiate_new_counter(code_id)),
        ExecuteMsg::Increment { contract } => try_increment(registry, contract),
        ExecuteMsg::Reset { contract, count } => try_reset(registry, contract, count),
    }
}

/// The request that spawns a child starting at 0. The registry learns of
/// the child only from the reply.
pub fn instantiate_new_counter(code_id: u64) -> (r: SubRequest)
    ensures
        is_create_request(r, code_id),
{
    let label = "counter".to_owned();
    SubRequest {
        request: Request::Instantiate { code_id, count: 0, label },
        reply_id: INSTANTIATE_REPLY_ID,
    }
}

/// The request that increments the child at `contract`; `NotFound` where
/// the registry holds no such child.
pub fn try_increment(registry: &Registry, contract: String) -> (r: Result<SubRequest, ContractError>)
    requires
        registry.wf(),
    ensures
        has_key(registry@, contract@) ==> (r matches Ok(q) && is_increment_request(q, contract)),
        !has_key(registry@, contract@) ==> r == Err::<SubRequest, ContractError>(ContractError::NotFound),
{
    if !registry.has(&contract) {
        return Err(ContractError::NotFound);
    }
    Ok(
        SubRequest {
            request: Request::Execute { contract, msg: CounterMsg::Increment },
            reply_id: EXECUTE_INCREMENT_REPLY_ID,
        },
    )
}

/// The request that sets the child at `contract` to `count`; `NotFound`
/// where the registry holds no such child.
pub fn try_reset(registry: &Registry, contract: String, count: i32) -> (r: Result<SubRequest, ContractError>)
    requires
        registry.wf(),
    ensures
        has_key(registry@, contract@) ==> (r matches Ok(q) && is_reset_request(q, contract, count)),
        !has_key(registry@, contract@) ==> r == Err::<SubRequest, ContractError>(ContractError::NotFound),
{
    if !registry.has(&contract) {
        return Err(ContractError::NotFound);
    }
    Ok(
        SubRequest {
            request: Request::Execute { contract, msg: CounterMsg::Reset { count } },
            reply_id: EXECUTE_RESET_REPLY_ID,
        },
    )
}

/// Applies a reply to the registry, by its tag. On success returns the
/// record written; on any error the registry is left as it was.
pub fn reply(registry: &mut Registry, msg: &Reply) -> (r: Result<State, ReplyError>)
    requires
        old(registry).wf(),
    ensures
        final(registry).wf(),
        reply_applied(old(registry)@, final(registry)@, msg@.0, msg@.1, r),
{
    match reply_kind(msg.id) {
        Some(ReplyKind::Create) => handle_instantiate_reply(registry, msg),
        Some(ReplyKind::Increment) => handle_increment_reply(registry, msg),
        Some(ReplyKind::Reset) => handle_reset_reply(registry, msg),
        None => Err(ReplyError::UnknownReplyId { id: msg.id }),
    }
}

/// Applies a creation reply: saves the reported address with value 0.
pub fn handle_instantiate_reply(registry: &mut Registry, msg: &Reply) -> (r: Result<State, ReplyError>)
    requires
        old(registry).wf(),
        msg.id == INSTANTIATE_REPLY_ID,
    ensures
        final(registry).wf(),
        reply_applied(old(registry)@, final(registry)@, msg@.0, msg@.1, r),
{
    let address = match get_contract_address(msg) {
        Ok(a) => a,
        Err(e) => return Err(e),
    };
    let written = State { count: 0, address: address.clone() };
    registry.put(address, 0);
    Ok(written)
}

/// Applies an increment reply: adds one to the value under the reported
/// address.
pub fn handle_increment_reply(registry: &mut Registry, msg: &Reply) -> (r: Result<State, ReplyError>)
    requires
        old(registry).wf(),
        msg.id == EXECUTE_INCREMENT_REPLY_ID,
    ensures
        final(registry).wf(),
        reply_applied(old(registry)@, final(registry)@, msg@.0, msg@.1, r),
{
    let address = match get_contract_address(msg) {
        Ok(a) => a,
        Err(e) => return Err(e),
    };
    let current = match registry.get(&address) {
        Some(s) => s,
        None => return Err(ReplyError::NotFound),
    };
    if current.count == i32::MAX {
        return Err(ReplyError::Overflow);
    }
    let count = current.count + 1;
    registry.set_value(&address, count);
    Ok(State { count, address })
}

/// Applies a reset reply: sets the value under the reported address to the
/// reported value.
pub fn handle_reset_reply(registry: &mut Registry, msg: &Reply) -> (r: Result<State, ReplyError>)
    requires
        old(registry).wf(),
        msg.id == EXECUTE_RESET_REPLY_ID,
    ensures
        final(registry).wf(),
        reply_applied(old(registry)@, final(registry)@, msg@.0, msg@.1, r),
{
    let address = match get_contract_address(msg) {
        Ok(a) => a,
        Err(e) => return Err(e),
    };
    let count = match get_reset_count(msg) {
        Ok(v) => v,
        Err(e) => return Err(e),
    };
    if !registry.set_value(&address, count) {
        return Err(ReplyError::NotFound);
    }
    Ok(State { count, address })
}

/// Answers a query.
pub fn query(registry: &Registry, msg: QueryMsg) -> (r: GetContractsResponse)
    requires
        registry.wf(),
    ensures
        lists(r, registry@),
{
    match msg {
        QueryMsg::GetContracts {} => query_get_contracts(registry),
    }
}

/// Every record of the registry, in order.
pub fn query_get_contracts(registry: &Registry) -> (r: GetContractsResponse)
    requires
        registry.wf(),
    ensures
        lists(r, registry@),
{
    GetContractsResponse { contracts: registry.list_all() }
}

} // verus!
