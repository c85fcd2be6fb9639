use agentik::control::{
    ack, check_ack, import_reply, ok_ack, result_or_error, spawn_outcome, to_ack,
    ControlClientError, SpawnReply,
};

#[test]
fn acks_carry_outcome() {
    let a = to_ack(Ok(()));
    assert!(a.ok);
    assert_eq!(a.error, "");
    let a = to_ack(Err("agent not found".to_string()));
    assert!(!a.ok);
    assert_eq!(a.error, "agent not found");
    let a = ack(false, "x");
    assert!(!a.ok && a.error == "x");
    assert!(ok_ack().ok);
}

#[test]
fn client_reads_acks_back() {
    assert!(check_ack(to_ack(Ok(()))).is_ok());
    match check_ack(to_ack(Err("stopped".to_string()))) {
        Err(ControlClientError::Server(m)) => assert_eq!(m, "stopped"),
        other => panic!("unexpected {:?}", other),
    }
}

#[test]
fn import_replies_round_trip() {
    let r = import_reply(Ok(7));
    assert_eq!((r.count, r.error.as_str()), (7, ""));
    assert_eq!(result_or_error(r.count, r.error).unwrap(), 7);
    let r = import_reply(Err("bad dir".to_string()));
    assert_eq!(r.count, 0);
    match result_or_error(r.count, r.error) {
        Err(ControlClientError::Server(m)) => assert_eq!(m, "bad dir"),
        other => panic!("unexpected {:?}", other),
    }
    // An empty error text reads as success.
    assert_eq!(result_or_error(0, String::new()).unwrap(), 0);
}

#[test]
fn spawn_outcomes() {
    assert_eq!(spawn_outcome(Some(SpawnReply::AgentId("id-1".to_string()))).unwrap(), "id-1");
    match spawn_outcome(Some(SpawnReply::Error("no kind".to_string()))) {
        Err(ControlClientError::Server(m)) => assert_eq!(m, "no kind"),
        other => panic!("unexpected {:?}", other),
    }
    assert!(matches!(spawn_outcome(None), Err(ControlClientError::Empty)));
}

#[test]
fn client_error_messages() {
    assert_eq!(ControlClientError::InvalidAddress("x".to_string()).message(), "invalid address: x");
    assert_eq!(ControlClientError::Connection("refused".to_string()).message(), "gRPC connection error: refused");
    assert_eq!(ControlClientError::Status("denied".to_string()).message(), "gRPC status error: denied");
    assert_eq!(
        ControlClientError::NoDaemon.message(),
        "daemon discovery file not found — is the daemon running?"
    );
    assert_eq!(ControlClientError::Serde("eof".to_string()).message(), "payload (de)serialisation error: eof");
    assert_eq!(ControlClientError::Server("oops".to_string()).message(), "server returned an error: oops");
    assert_eq!(ControlClientError::Empty.message(), "unexpected empty response from server");
}
