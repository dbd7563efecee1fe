use pazk::add_one::{accepts, successor, Add1Prover, Add1Verifier, Data, RandomProver};
use pazk::ip::{Channel, Log, IP};

fn lines(log: &Log) -> Vec<String> {
    log.get_log().lock().unwrap().clone()
}

#[test]
fn successor_wraps_around() {
    assert_eq!(successor(0), 1);
    assert_eq!(successor(41), 42);
    assert_eq!(successor(255), 0);
}

#[test]
fn verifier_accepts_the_successor_only() {
    for n in 0..=255u8 {
        for m in 0..=255u8 {
            assert_eq!(accepts(n, m), m == n.wrapping_add(1));
        }
    }
}

#[test]
fn add_one_messages_as_text() {
    assert_eq!(Data::Number(200).to_text(), "200");
    assert_eq!(Data::Decision(true).to_text(), "Accept");
    assert_eq!(Data::Decision(false).to_text(), "Reject");
    assert_eq!(Data::Number(3).to_number(), Some(3));
    assert_eq!(Data::Number(3).to_decision(), None);
    assert_eq!(Data::Decision(false).to_decision(), Some(false));
    assert_eq!(Data::Decision(false).to_number(), None);
}

#[test]
fn prescribed_prover_answers_with_the_successor() {
    let (p_end, v_end) = Channel::<Data>::gen();
    let log = Log::new();
    v_end.send(Data::Number(255));
    Add1Prover {}.execute(p_end, log.clone());
    assert_eq!(v_end.receive(), Some(Data::Number(0)));
    assert_eq!(lines(&log), vec!["P computes m = n+1", "P --> (m=0)"]);
}

#[test]
fn prescribed_prover_stops_on_anything_but_a_number() {
    let (p_end, v_end) = Channel::<Data>::gen();
    v_end.send(Data::Decision(true));
    Add1Prover {}.execute(p_end, Log::new());
    assert_eq!(v_end.receive(), None);
}

#[test]
fn add_one_verifier_decides() {
    for (m, decision, line) in [(8u8, true, "V --> (Accept)"), (9u8, false, "V --> (Reject)")] {
        let (p_end, v_end) = Channel::<Data>::gen();
        let log = Log::new();
        p_end.send(Data::Number(m));
        Add1Verifier { n: 7 }.execute(v_end, log.clone());
        assert_eq!(p_end.receive(), Some(Data::Number(7)));
        assert_eq!(p_end.receive(), Some(Data::Decision(decision)));
        assert_eq!(
            lines(&log),
            vec!["V starts with value n=7", "V --> (n=7)", "V checks m == n+1", line]
        );
    }
}

#[test]
fn add_one_verifier_sends_no_decision_when_the_prover_is_gone() {
    let (p_end, v_end) = Channel::<Data>::gen();
    let log = Log::new();
    drop(p_end);
    Add1Verifier { n: 7 }.execute(v_end, log.clone());
    assert_eq!(lines(&log), vec!["V starts with value n=7", "V --> (n=7)"]);
}

#[test]
fn add_one_verifier_sends_no_decision_on_anything_but_a_number() {
    let (p_end, v_end) = Channel::<Data>::gen();
    p_end.send(Data::Decision(true));
    Add1Verifier { n: 7 }.execute(v_end, Log::new());
    assert_eq!(p_end.receive(), Some(Data::Number(7)));
    assert_eq!(p_end.receive(), None);
}

#[test]
fn add_one_steps() {
    let verifier = Add1Verifier { n: 255 };
    assert_eq!(verifier.decision(&Some(Data::Number(0))), Some(Data::Decision(true)));
    assert_eq!(verifier.decision(&Some(Data::Number(1))), Some(Data::Decision(false)));
    assert_eq!(verifier.decision(&Some(Data::Decision(true))), None);
    assert_eq!(verifier.decision(&None), None);
    assert_eq!(Add1Prover::answer(&Some(Data::Number(255))), Some(Data::Number(0)));
    assert_eq!(Add1Prover::answer(&Some(Data::Number(41))), Some(Data::Number(42)));
    assert_eq!(Add1Prover::answer(&Some(Data::Decision(false))), None);
    assert_eq!(Add1Prover::answer(&None), None);
}

#[test]
fn random_prover_answers_with_a_number() {
    let (p_end, v_end) = Channel::<Data>::gen();
    let log = Log::new();
    v_end.send(Data::Number(1));
    RandomProver {}.execute(p_end, log.clone());
    let m = v_end.receive().unwrap().to_number().unwrap();
    assert_eq!(
        lines(&log),
        vec![String::from("P picks m uniformly at random"), format!("P --> (m={})", m)]
    );
}
