use sol_dust_contract::declared_id;
use sol_dust_contract::greeting;
use sol_dust_contract::initialize;
use sol_dust_contract::Context;
use sol_dust_contract::Initialize;
use sol_dust_contract::ProgramId;

#[test]
fn initialize_returns_success() {
    let ctx = Context { program_id: declared_id(), accounts: Initialize {} };
    assert!(initialize(&ctx).is_ok());
}

#[test]
fn initialize_logs_greeting_with_deployed_id() {
    let ctx = Context { program_id: declared_id(), accounts: Initialize {} };
    let log = initialize(&ctx).unwrap();
    assert_eq!(log, "Greetings from: JBTTq6bXjnrbxCpEwsLE9RTL9ASTpiNWavbzwDuMGYXx");
}

#[test]
fn log_line_holds_id_text_and_nothing_else() {
    let id = ProgramId { bytes: vec![7u8; 32] };
    let id_text = id.text();
    let ctx = Context { program_id: id, accounts: Initialize {} };
    let log = initialize(&ctx).unwrap();
    assert!(log.starts_with("Greetings from: "));
    assert_eq!(&log["Greetings from: ".len()..], id_text);
}

#[test]
fn repeated_invocations_emit_the_same_line() {
    let ctx = Context { program_id: declared_id(), accounts: Initialize {} };
    let first = initialize(&ctx).unwrap();
    let second = initialize(&ctx).unwrap();
    assert_eq!(first, second);
}

#[test]
fn declared_id_has_32_bytes() {
    assert_eq!(declared_id().bytes.len(), 32);
}

#[test]
fn greeting_matches_initialize_log() {
    let id = declared_id();
    let line = greeting(&id);
    let ctx = Context { program_id: id, accounts: Initialize {} };
    assert_eq!(initialize(&ctx).unwrap(), line);
}
