//! The runtime of a two-party interactive protocol: the role that a
//! party implements, the channel between the two parties and the log in
//! which they narrate a run.
//!
//! Channels and logs are shared between the two parties of a run, which
//! may work at the same time. What they hold at a given moment is
//! therefore not a function of the handle, and no contract here speaks
//! of it.

pub mod channel;

use std::sync::mpsc::{Receiver, Sender};
use std::sync::{Arc, Mutex};
use vstd::prelude::*;

verus! {

/// The sending end of a channel of the standard library. Nothing is
/// known of what it holds.
#[verifier::external_type_specification]
#[verifier::external_body]
#[verifier::reject_recursive_types(T)]
pub struct ExSender<T>(Sender<T>);

/// The receiving end of a channel of the standard library. Nothing is
/// known of what it holds.
#[verifier::external_type_specification]
#[verifier::external_body]
#[verifier::reject_recursive_types(T)]
pub struct ExReceiver<T>(Receiver<T>);

/// A lock of the standard library. Nothing is known of what it holds.
#[verifier::external_type_specification]
#[verifier::external_body]
#[verifier::reject_recursive_types(T)]
pub struct ExMutex<T: ?Sized>(Mutex<T>);

/// A new lock around `items`, made by `Mutex::new`.
#[verifier::external_body]
pub(crate) fn new_lock<T>(items: Vec<T>) -> Mutex<Vec<T>> {
    Mutex::new(items)
}

/// Another handle to the same lock, made by `Arc::clone`.
#[verifier::external_body]
pub(crate) fn share<T>(handle: &Arc<Mutex<Vec<T>>>) -> (r: Arc<Mutex<Vec<T>>>)
    ensures
        r == *handle,
{
    Arc::clone(handle)
}

/// Appends `item` to the list behind the lock, which it takes with
/// `Mutex::lock`. A lock that a panicking thread left poisoned is taken
/// all the same.
#[verifier::external_body]
pub(crate) fn append_shared<T>(handle: &Arc<Mutex<Vec<T>>>, item: T) {
    match handle.lock() {
        Ok(mut items) => items.push(item),
        Err(poisoned) => poisoned.into_inner().push(item),
    }
}

/// The two ends of a new channel, made by `mpsc::channel`.
#[verifier::external_body]
pub(crate) fn new_queue<T>() -> (Sender<T>, Receiver<T>) {
    std::sync::mpsc::channel()
}

/// Hands `data` to `Sender::send`, which never blocks. Returns whether
/// the receiving end still existed to take it.
#[verifier::external_body]
pub(crate) fn enqueue<T>(tx: &Sender<T>, data: T) -> bool {
    match tx.send(data) {
        Ok(()) => true,
        Err(_) => false,
    }
}

/// Waits with `Receiver::recv` for the next message. Returns nothing
/// when the sending end is gone and no message is left.
#[verifier::external_body]
pub(crate) fn dequeue<T>(rx: &Receiver<T>) -> Option<T> {
    match rx.recv() {
        Ok(data) => Some(data),
        Err(_) => None,
    }
}

/// A party of a two-party interactive protocol. `execute` runs the
/// party's side of the protocol over its end of the channel: a sequence
/// of sends and receives that matches, message for message, that of the
/// other party.
pub trait IP<T: Clone> {
    /// Runs the party's side of the protocol over its end `ch` of the
    /// channel and writes its narration to `log`.
    fn execute(&self, ch: Channel<T>, log: Log);
}

/// The narration of a run: lines of text in the order in which the
/// parties wrote them.
#[derive(Clone)]
pub struct Log {
    log: Arc<Mutex<Vec<String>>>,
}

impl Log {
    /// A log without lines.
    pub fn new() -> Log {
        let lines: Vec<String> = Vec::new();
        Log { log: Arc::new(new_lock(lines)) }
    }

    /// Writes `message` as the last line.
    pub fn write(&self, message: String) {
        append_shared(&self.log, message);
    }

    /// The shared list of lines.
    pub closed spec fn lines(&self) -> Arc<Mutex<Vec<String>>> {
        self.log
    }

    /// The shared list of lines.
    pub fn get_log(&self) -> (r: &Arc<Mutex<Vec<String>>>)
        ensures
            *r == self.lines(),
    {
        &self.log
    }
}

/// One end of a channel that carries messages in both directions.
#[verifier::reject_recursive_types(T)]
pub struct Channel<T: Clone> {
    tx: Sender<T>,
    rx: Receiver<T>,
}

impl<T: Clone> Channel<T> {
    /// The two ends of a new channel: what one end sends the other
    /// receives, in the order in which it was sent.
    pub fn gen() -> (Channel<T>, Channel<T>) {
        let first = new_queue();
        let second = new_queue();
        Self::join(first, second)
    }

    /// Sends `data` to the other end without waiting. Where the other
    /// end is gone the message is dropped.
    pub fn send(&self, data: T) {
        enqueue(&self.tx, data);
    }

    /// Waits for the next message from the other end. Returns nothing
    /// when the other end is gone and has left no message.
    pub fn receive(&self) -> Option<T> {
        dequeue(&self.rx)
    }

    /// The half into which this end sends.
    pub closed spec fn sender(&self) -> Sender<T> {
        self.tx
    }

    /// The half from which this end receives.
    pub closed spec fn receiver(&self) -> Receiver<T> {
        self.rx
    }

    /// The two ends of the channel over two queues, each queue given by
    /// its sending and its receiving half: the first end sends into the
    /// first queue and receives from the second, the second end sends
    /// into the second queue and receives from the first.
    pub fn join(first: (Sender<T>, Receiver<T>), second: (Sender<T>, Receiver<T>)) -> (ends: (
        Channel<T>,
        Channel<T>,
    ))
        ensures
            ends.0.sender() == first.0,
            ends.0.receiver() == second.1,
            ends.1.sender() == second.0,
            ends.1.receiver() == first.1,
    {
        let (tx1, rx1) = first;
        let (tx2, rx2) = second;
        (Channel { tx: tx1, rx: rx2 }, Channel { tx: tx2, rx: rx1 })
    }
}

} // verus!
