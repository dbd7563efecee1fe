//! Channels that record every message in a transcript.

use crate::ip::{append_shared, dequeue, enqueue, new_lock, new_queue, share};
use std::sync::mpsc::{Receiver, Sender};
use std::sync::{Arc, Mutex};
use vstd::prelude::*;

verus! {

/// An entry of a transcript: a message with the role that sent it and
/// the role it was sent to.
#[derive(Clone, Debug, PartialEq, Eq)]
pub struct Message<T, R> {
    pub data: T,
    pub producer: R,
    pub consumer: R,
}

/// The messages that a transcript records for `role` as the producer, in
/// the order of the transcript.
pub open spec fn sent_by<T, R>(log: Seq<Message<T, R>>, role: R) -> Seq<T>
    decreases log.len(),
{
    if log.len() == 0 {
        Seq::empty()
    } else if log.last().producer == role {
        sent_by(log.drop_last(), role).push(log.last().data)
    } else {
        sent_by(log.drop_last(), role)
    }
}

/// Recording an entry adds its message at the end of the messages of its
/// producer and leaves the messages of every other role as they were.
pub proof fn lemma_record<T, R>(log: Seq<Message<T, R>>, entry: Message<T, R>, role: R)
    ensures
        sent_by(log.push(entry), role) == if entry.producer == role {
            sent_by(log, role).push(entry.data)
        } else {
            sent_by(log, role)
        },
{
    assert(log.push(entry).drop_last() =~= log);
}

/// The messages of a role in a transcript that goes on with `later` are
/// its messages in the transcript and then its messages in `later`.
pub proof fn lemma_sent_by_after<T, R>(log: Seq<Message<T, R>>, later: Seq<Message<T, R>>, role: R)
    ensures
        sent_by(log + later, role) == sent_by(log, role) + sent_by(later, role),
    decreases later.len(),
{
    if later.len() == 0 {
        assert(log + later =~= log);
        assert(sent_by(log, role) + sent_by(later, role) =~= sent_by(log, role));
    } else {
        let all = log + later;
        assert(all.drop_last() =~= log + later.drop_last());
        assert(all.last() == later.last());
        lemma_sent_by_after(log, later.drop_last(), role);
        if later.last().producer == role {
            assert((sent_by(log, role) + sent_by(later.drop_last(), role)).push(later.last().data)
                =~= sent_by(log, role) + sent_by(later, role));
        }
    }
}

/// The owner of a transcript. The channels that it creates record in the
/// transcript every message that is sent over them, in the order of
/// sending.
#[verifier::reject_recursive_types(T)]
#[verifier::reject_recursive_types(R)]
pub struct Coordinator<T: Clone, R: Copy> {
    log: Arc<Mutex<Vec<Message<T, R>>>>,
}

impl<T: Clone, R: Copy> Coordinator<T, R> {
    /// A coordinator with an empty transcript.
    pub fn new() -> Coordinator<T, R> {
        let entries: Vec<Message<T, R>> = Vec::new();
        Coordinator { log: Arc::new(new_lock(entries)) }
    }

    /// The two ends of a new channel between the roles `part1` and
    /// `part2`. Both ends record in this coordinator's transcript.
    pub fn create_channel(&self, part1: R, part2: R) -> (ends: (Channel<T, R>, Channel<T, R>))
        ensures
            ends.0.me() == part1,
            ends.0.you() == part2,
            ends.1.me() == part2,
            ends.1.you() == part1,
            ends.0.transcript() == self.transcript(),
            ends.1.transcript() == self.transcript(),
    {
        let first = new_queue();
        let second = new_queue();
        Channel::join(first, second, part1, part2, &self.log)
    }

    /// The shared transcript.
    pub closed spec fn transcript(&self) -> Arc<Mutex<Vec<Message<T, R>>>> {
        self.log
    }

    /// The shared transcript.
    pub fn get_log(&self) -> (r: &Arc<Mutex<Vec<Message<T, R>>>>)
        ensures
            *r == self.transcript(),
    {
        &self.log
    }
}

/// One end of a channel that carries messages in both directions and
/// records what it sends.
#[verifier::reject_recursive_types(T)]
#[verifier::reject_recursive_types(R)]
pub struct Channel<T: Clone, R: Copy> {
    tx: Sender<T>,
    rx: Receiver<T>,
    me: R,
    you: R,
    log: Arc<Mutex<Vec<Message<T, R>>>>,
}

impl<T: Clone, R: Copy> Channel<T, R> {
    /// The role at this end.
    pub closed spec fn me(&self) -> R {
        self.me
    }

    /// The role at the other end.
    pub closed spec fn you(&self) -> R {
        self.you
    }

    /// The transcript in which this end records.
    pub closed spec fn transcript(&self) -> Arc<Mutex<Vec<Message<T, R>>>> {
        self.log
    }

    /// The half into which this end sends.
    pub closed spec fn sender(&self) -> Sender<T> {
        self.tx
    }

    /// The half from which this end receives.
    pub closed spec fn receiver(&self) -> Receiver<T> {
        self.rx
    }

    /// The two ends of the channel between the roles `part1` and `part2`
    /// over two queues, each queue given by its sending and its
    /// receiving half: the end of `part1` sends into the first queue and
    /// receives from the second, the end of `part2` sends into the
    /// second queue and receives from the first. Both ends record in the
    /// transcript `log`.
    pub fn join(
        first: (Sender<T>, Receiver<T>),
        second: (Sender<T>, Receiver<T>),
        part1: R,
        part2: R,
        log: &Arc<Mutex<Vec<Message<T, R>>>>,
    ) -> (ends: (Channel<T, R>, Channel<T, R>))
        ensures
            ends.0.sender() == first.0,
            ends.0.receiver() == second.1,
            ends.1.sender() == second.0,
            ends.1.receiver() == first.1,
            ends.0.me() == part1,
            ends.0.you() == part2,
            ends.1.me() == part2,
            ends.1.you() == part1,
            ends.0.transcript() == *log,
            ends.1.transcript() == *log,
    {
        let (tx1, rx1) = first;
        let (tx2, rx2) = second;
        let lbc1 = Channel { tx: tx1, rx: rx2, me: part1, you: part2, log: share(log) };
        let lbc2 = Channel { tx: tx2, rx: rx1, me: part2, you: part1, log: share(log) };
        (lbc1, lbc2)
    }

    /// The entry that this end records when it sends `data`: the role at
    /// this end is the producer, the role at the other end the consumer.
    pub fn entry(&self, data: T) -> (msg: Message<T, R>)
        ensures
            msg.data == data,
            msg.producer == self.me(),
            msg.consumer == self.you(),
    {
        Message { data, producer: self.me, consumer: self.you }
    }

    /// Records `data` in the transcript and then sends it to the other
    /// end, without waiting. Where the other end is gone the message is
    /// recorded and dropped.
    pub fn send(&self, data: T) {
        let copy = data.clone();
        append_shared(&self.log, self.entry(copy));
        enqueue(&self.tx, data);
    }

    /// Waits for the next message from the other end. Returns nothing
    /// when the other end is gone and has left no message.
    pub fn receive(&self) -> Option<T> {
        dequeue(&self.rx)
    }
}

} // verus!
