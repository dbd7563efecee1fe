//! A protocol in two messages: the verifier sends a number, the prover
//! answers with a number, and the verifier accepts where the answer is
//! the number plus one, counted modulo 256.

use crate::ip::{Channel, Log, IP};
use crate::text::{decimal, decimal_text, join3};
use vstd::prelude::*;
use vstd::string::*;

verus! {

/// What the parties send each other.
#[derive(Clone, Debug, PartialEq, Eq)]
pub enum Data {
    Number(u8),
    Decision(bool),
}

impl Data {
    /// The number, where the message is one.
    pub fn to_number(self) -> (r: Option<u8>)
        ensures
            r == match self {
                Data::Number(n) => Some(n),
                _ => None,
            },
    {
        match self {
            Data::Number(n) => Some(n),
            _ => None,
        }
    }

    /// The decision, where the message is one.
    pub fn to_decision(self) -> (r: Option<bool>)
        ensures
            r == match self {
                Data::Decision(d) => Some(d),
                _ => None,
            },
    {
        match self {
            Data::Decision(d) => Some(d),
            _ => None,
        }
    }

    /// The text of the message.
    pub open spec fn text(self) -> Seq<char> {
        match self {
            Data::Number(n) => decimal(n as nat),
            Data::Decision(d) => if d {
                "Accept"@
            } else {
                "Reject"@
            },
        }
    }

    /// The message as text: a number in decimal digits, a decision as
    /// `Accept` or `Reject`.
    pub fn to_text(&self) -> (s: String)
        ensures
            s@ == self.text(),
    {
        match self {
            Data::Number(n) => decimal_text(*n as u64),
            Data::Decision(d) => if *d {
                String::from_str("Accept")
            } else {
                String::from_str("Reject")
            },
        }
    }
}

/// The number after `n`, counted modulo 256.
pub fn successor(n: u8) -> (m: u8)
    ensures
        m == (n + 1) % 256,
{
    if n == 255 {
        0
    } else {
        n + 1
    }
}

/// Whether the verifier that sent `n` accepts the answer `m`.
pub fn accepts(n: u8, m: u8) -> (ok: bool)
    ensures
        ok == (m == (n + 1) % 256),
{
    m == successor(n)
}

/// A number drawn uniformly at random, by `random` of the rand crate.
#[verifier::external_body]
fn random_number() -> u8 {
    rand::random::<u8>()
}

/// The prover that answers as the protocol prescribes.
pub struct Add1Prover {}

impl Add1Prover {
    /// What the prover sends on what it has received: on a number its
    /// successor; on anything else, and on nothing, nothing.
    pub fn answer(received: &Option<Data>) -> (sent: Option<Data>)
        ensures
            sent == match *received {
                Some(Data::Number(n)) => Some(Data::Number(((n + 1) % 256) as u8)),
                _ => None,
            },
    {
        match received {
            Some(Data::Number(n)) => Some(Data::Number(successor(*n))),
            _ => None,
        }
    }
}

impl IP<Data> for Add1Prover {
    /// Waits for the verifier's number and sends what `answer` says of
    /// it: nothing where the verifier sent anything but a number.
    fn execute(&self, ch: Channel<Data>, log: Log) {
        match Self::answer(&ch.receive()) {
            Some(answer) => {
                log.write(String::from_str("P computes m = n+1"));
                log.write(join3("P --> (m=", answer.to_text().as_str(), ")"));
                ch.send(answer);
            },
            None => {},
        }
    }
}

/// The verifier for the number `n`.
pub struct Add1Verifier {
    pub n: u8,
}

impl Add1Verifier {
    /// What the verifier sends on the prover's answer: on a number its
    /// decision, acceptance where the number is the successor of its
    /// own; on anything else, and on no answer, nothing, for the run
    /// ends as a defect.
    pub fn decision(&self, answer: &Option<Data>) -> (sent: Option<Data>)
        ensures
            sent == match *answer {
                Some(Data::Number(m)) => Some(Data::Decision(m == (self.n + 1) % 256)),
                _ => None,
            },
    {
        match answer {
            Some(Data::Number(m)) => Some(Data::Decision(accepts(self.n, *m))),
            _ => None,
        }
    }
}

impl IP<Data> for Add1Verifier {
    /// Sends the number, waits for the prover's answer and sends what
    /// `decision` says of it: nothing where the answer is no number.
    fn execute(&self, ch: Channel<Data>, log: Log) {
        let shown = decimal_text(self.n as u64);
        log.write(join3("V starts with value n=", shown.as_str(), ""));
        log.write(join3("V --> (n=", shown.as_str(), ")"));
        ch.send(Data::Number(self.n));
        match self.decision(&ch.receive()) {
            Some(decision) => {
                log.write(String::from_str("V checks m == n+1"));
                log.write(join3("V --> (", decision.to_text().as_str(), ")"));
                ch.send(decision);
            },
            None => {},
        }
    }
}

/// A prover that answers with a number drawn at random.
pub struct RandomProver {}

impl IP<Data> for RandomProver {
    /// Waits for the verifier's message and answers with a number drawn
    /// at random, whatever the message was.
    fn execute(&self, ch: Channel<Data>, log: Log) {
        let _ = ch.receive();
        let m = random_number();
        log.write(String::from_str("P picks m uniformly at random"));
        log.write(join3("P --> (m=", decimal_text(m as u64).as_str(), ")"));
        ch.send(Data::Number(m));
    }
}

} // verus!
