use std::borrow::Cow;

use simple_kv::kv_request::{KvCommand, KvRequestError};
use simple_kv::kv_response::KvResponse;
use simple_kv::kv_session::{next_request, step, KvStep};
use simple_kv::kv_store::KvStore;

#[test]
fn next_request_waits_for_the_rest_of_a_request() {
    assert!(next_request(b"Put\r\n3\r\nke", false).is_none());
    assert!(next_request(b"Get\r", false).is_none());
    assert!(next_request(b"", false).is_none());
}

#[test]
fn next_request_takes_exactly_one_request() {
    let bytes = b"Get\r\n3\r\nkey\r\nDel\r\n1\r\nk\r\n";
    let (result, used) = next_request(bytes, false).expect("a request is there");
    assert_eq!(result.expect("it is well formed").command, KvCommand::Get(b"key".to_vec()));
    assert_eq!(used, 13);
    let (result, used) = next_request(&bytes[13..], false).expect("a second request is there");
    assert_eq!(result.expect("it is well formed").command, KvCommand::Del(b"k".to_vec()));
    assert_eq!(used, 11);
}

#[test]
fn next_request_reports_a_bad_operation_without_waiting() {
    let (result, used) = next_request(b"Nop\r\nrest", false).expect("decided already");
    assert!(matches!(result, Err(KvRequestError::BadOperation(op)) if op == "Nop"));
    assert_eq!(used, 5);
}

#[test]
fn next_request_at_end_of_input_reports_the_cut() {
    let (result, used) = next_request(b"Put\r\n3\r\nke", true).expect("input is over");
    assert!(matches!(result, Err(KvRequestError::IoError(_))));
    assert_eq!(used, 10);
}

#[test]
fn execute_puts_gets_and_deletes() {
    let mut kv: KvStore<Vec<u8>> = KvStore::new();
    assert_eq!(KvCommand::Put(b"k".to_vec(), b"v".to_vec()).execute(&mut kv), KvResponse::Okay);
    assert_eq!(
        KvCommand::Get(b"k".to_vec()).execute(&mut kv),
        KvResponse::Value(Cow::Owned(b"v".to_vec()))
    );
    assert_eq!(KvCommand::Del(b"k".to_vec()).execute(&mut kv), KvResponse::Okay);
    assert_eq!(KvCommand::Get(b"k".to_vec()).execute(&mut kv), KvResponse::NotFound);
    assert_eq!(KvCommand::Del(b"k".to_vec()).execute(&mut kv), KvResponse::Okay);
    assert!(kv.is_empty());
}

#[test]
fn next_request_answer_stays_as_more_bytes_arrive() {
    let (first, first_used) = next_request(b"Get\r\n3\r\nkey\r\n", false).expect("complete");
    let (later, later_used) = next_request(b"Get\r\n3\r\nkey\r\nPut\r\n1\r\n", false).expect("complete");
    assert_eq!(first.expect("well formed").command, later.expect("well formed").command);
    assert_eq!(first_used, later_used);

    let (first, first_used) = next_request(b"Nop\r\nx", false).expect("decided");
    let (later, later_used) = next_request(b"Nop\r\nxyz\r\n", false).expect("decided");
    assert!(matches!(first, Err(KvRequestError::BadOperation(_))));
    assert!(matches!(later, Err(KvRequestError::BadOperation(_))));
    assert_eq!(first_used, later_used);
}

#[test]
fn next_request_answers_a_fault_that_ends_the_bytes() {
    let (result, used) = next_request(b"Foo\r\n", false).expect("a bad operation is decided");
    assert!(matches!(result, Err(KvRequestError::BadOperation(op)) if op == "Foo"));
    assert_eq!(used, 5);

    let (result, _) = next_request(b"Put\n", false).expect("a line without CR is decided");
    assert!(matches!(result, Err(KvRequestError::MissingCrlf(_))));

    let (result, used) = next_request(b"Get\r\n3\r\nkeyXY", false).expect("a key without CRLF is decided");
    assert!(matches!(result, Err(KvRequestError::MissingCrlf(_))));
    assert_eq!(used, 13);
}

#[test]
fn next_request_waits_while_a_line_or_field_is_cut_short() {
    assert!(next_request(b"Put\r\n", false).is_none());
    assert!(next_request(b"Put\r\n3", false).is_none());
    assert!(next_request(b"Put\r\n3\r\nkey\r\n", false).is_none());
    assert!(next_request(b"Put\r\n3\r\nkey\r\n2\r\nv", false).is_none());
    assert!(next_request(b"Put\r\n3\r\nkey\r\n2\r\nv", true).is_some());
}

#[test]
fn step_answers_requests_rejects_faults_and_closes_on_a_cut() {
    let mut kv: KvStore<Vec<u8>> = KvStore::new();
    let (read, _) = next_request(b"Put\r\n1\r\nk\r\n1\r\nv\r\n", false).expect("complete");
    assert!(matches!(step(read, &mut kv), KvStep::Reply(KvResponse::Okay)));
    let (read, _) = next_request(b"Get\r\n1\r\nk\r\n", false).expect("complete");
    assert!(matches!(step(read, &mut kv), KvStep::Reply(KvResponse::Value(v)) if v.as_ref() == b"v"));
    let (read, _) = next_request(b"Foo\r\n", false).expect("decided");
    assert!(matches!(step(read, &mut kv), KvStep::Reject(KvRequestError::BadOperation(op)) if op == "Foo"));
    let (read, _) = next_request(b"Get\r\n5\r\nk", true).expect("input is over");
    assert!(matches!(step(read, &mut kv), KvStep::Close(_)));
    assert_eq!(kv.len(), 1);
}
