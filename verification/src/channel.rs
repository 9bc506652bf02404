use vstd::prelude::*;
use tokio::sync::mpsc::{Receiver, Sender};
use crate::service::ServiceSignal;

verus! {

/// The sending half of a tokio bounded channel; opaque here.
#[verifier::external_type_specification]
#[verifier::external_body]
#[verifier::reject_recursive_types(T)]
pub struct ExSender<T>(Sender<T>);

/// The receiving half of a tokio bounded channel; opaque here.
#[verifier::external_type_specification]
#[verifier::external_body]
#[verifier::reject_recursive_types(T)]
pub struct ExReceiver<T>(Receiver<T>);

/// `tx` and `rx` are the two halves of one channel: what is sent on `tx` arrives on `rx`.
pub uninterp spec fn stop_pair(tx: Sender<ServiceSignal>, rx: Receiver<ServiceSignal>) -> bool;

/// A new stop channel with room for one signal, made by `tokio::sync::mpsc::channel`
/// (which panics only for a buffer of 0 or above its permit limit, neither of which is
/// asked for here). Claimed: the sender and receiver it returns are the two halves of
/// that one channel.
#[verifier::external_body]
pub(crate) fn stop_channel() -> (res: (Sender<ServiceSignal>, Receiver<ServiceSignal>))
    ensures
        stop_pair(res.0, res.1),
{
    tokio::sync::mpsc::channel(1)
}

} // verus!
