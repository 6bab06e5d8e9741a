use vstd::prelude::*;
use crate::clause::TwoPointerClause;

verus! {

/// The sending half of a `std::sync::mpsc` channel.
#[verifier::external_type_specification]
#[verifier::external_body]
#[verifier::reject_recursive_types(T)]
pub struct ExSender<T>(std::sync::mpsc::Sender<T>);

/// The receiving half of a `std::sync::mpsc` channel.
#[verifier::external_type_specification]
#[verifier::external_body]
#[verifier::reject_recursive_types(T)]
pub struct ExReceiver<T>(std::sync::mpsc::Receiver<T>);

/// Calls `Sender::send`, which fails exactly when the receiving half is gone; whether
/// it is rests on another thread, so nothing is claimed of the result.
#[verifier::external_body]
pub(crate) fn send_clause(sender: &std::sync::mpsc::Sender<TwoPointerClause>, clause: TwoPointerClause) -> (delivered: bool) {
    sender.send(clause).is_ok()
}

/// Calls `Receiver::try_iter`, which hands out the clauses that are waiting in the
/// channel without blocking; which ones are waiting rests on other threads, so
/// nothing is claimed of the result.
#[verifier::external_body]
pub(crate) fn receive_pending(receiver: &std::sync::mpsc::Receiver<TwoPointerClause>) -> Vec<TwoPointerClause> {
    receiver.try_iter().collect()
}

} // verus!
