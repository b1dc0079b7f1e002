//! The interfaces between the threads of the program: handlers of messages, and translations of
//! messages from one part of the program into messages for other parts.
use std::sync::mpsc::Sender;
use vstd::prelude::*;

verus! {

/// `std::sync::mpsc::Sender`, the sending half of a channel between threads.
#[verifier::external_type_specification]
#[verifier::external_body]
#[verifier::reject_recursive_types(T)]
pub struct ExSender<T>(Sender<T>);

/// Handles a message, possibly forwarding messages to the next part of the program.
pub trait HandleMsg<I, O> {
    fn handle_msg(&mut self, msg: I, forward: &Sender<O>);
}

/// Like [HandleMsg], for messages that are only read.
pub trait HandleMsgRef<I, O> {
    fn handle_msg_ref(&mut self, msg: &I, forward: &Sender<O>);
}

/// Messages that can start a handler.
pub trait HasStart: Sized {
    fn is_start(&self) -> bool;

    fn mk_start() -> Self;
}

/// Messages that can stop a handler. Convention: the handler will handle a 'stop' message, and
/// immediately after that the thread will exit.
pub trait HasStop: Sized {
    fn is_stop(&self) -> bool;

    fn mk_stop() -> Self;
}

/// A message that may be meant for one other part of the program.
pub trait MessageTranslate<B> {
    fn translate(self) -> Option<B>;
}

/// A message that may be meant for some of two other parts of the program.
pub trait MessageTranslate2<B, C> {
    fn translate2(self) -> (Option<B>, Option<C>);
}

/// A message that may be meant for some of three other parts of the program.
pub trait MessageTranslate3<B, C, D> {
    fn translate3(self) -> (Option<B>, Option<C>, Option<D>);
}

/// A message that may be meant for some of four other parts of the program.
pub trait MessageTranslate4<B, C, D, E> {
    fn translate4(self) -> (Option<B>, Option<C>, Option<D>, Option<E>);
}

} // verus!
