//! The outbound messages a store emits when the group around it churns.

use vstd::prelude::*;

use crate::name::Name;

verus! {

/// Tag that routes a refresh payload to the holder-tracking merge logic.
pub const DATA_MANAGER_ACCOUNT_TAG: u64 = 2;

/// Tag that routes a refresh payload to the usage-accounting merge logic.
pub const PMID_MANAGER_ACCOUNT_TAG: u64 = 3;

/// The logical addressee of an outbound message: a group responsible for a
/// piece of content, the group managing a node, or one node itself.
#[derive(Clone, Copy, PartialEq, Eq, Structural, Debug)]
pub enum Authority {
    NaeManager(Name),
    NodeManager(Name),
    ManagedNode(Name),
}

/// The kind of immutable content a repair fetch asks for.
#[derive(Clone, Copy, PartialEq, Eq, Structural, Debug)]
pub enum ImmutableDataType {
    Normal,
    Backup,
    Sacrificial,
}

/// What a repair fetch requests: one immutable item under one key.
#[derive(Clone, Copy, PartialEq, Eq, Structural, Debug)]
pub enum DataRequest {
    ImmutableData(Name, ImmutableDataType),
}

/// An outbound action produced by a churn drain: either a repair fetch for
/// an under-replicated item, or a refresh carrying one encoded account.
#[derive(PartialEq, Eq, Debug)]
pub enum MethodCall {
    Get { location: Authority, data_request: DataRequest },
    Refresh { type_tag: u64, our_authority: Authority, payload: Vec<u8> },
}

/// The mathematical shape of a `MethodCall`: the payload as a byte sequence.
pub enum MethodCallView {
    Get { location: Authority, data_request: DataRequest },
    Refresh { type_tag: u64, our_authority: Authority, payload: Seq<u8> },
}

impl View for MethodCall {
    type V = MethodCallView;

    open spec fn view(&self) -> MethodCallView {
        match self {
            MethodCall::Get { location, data_request } => MethodCallView::Get {
                location: *location,
                data_request: *data_request,
            },
            MethodCall::Refresh { type_tag, our_authority, payload } => MethodCallView::Refresh {
                type_tag: *type_tag,
                our_authority: *our_authority,
                payload: payload@,
            },
        }
    }
}

/// The views of a list of outbound actions.
pub open spec fn calls_view(s: Seq<MethodCall>) -> Seq<MethodCallView> {
    s.map(|i: int, m: MethodCall| m@)
}

pub proof fn lemma_calls_view_push(s: Seq<MethodCall>, m: MethodCall)
    ensures
        calls_view(s.push(m)) == calls_view(s).push(m@),
{
    assert(calls_view(s.push(m)) =~= calls_view(s).push(m@));
}

} // verus!
