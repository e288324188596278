use sshpass::{Phase, ScanAction, Scanner, TerminalSize, WindowSizeSync};

#[test]
fn host_trust_then_password() {
    let mut s = Scanner::new("password:", "secret".to_string());
    assert_eq!(s.next_action(), ScanAction::AwaitOutput);
    s.feed(b"Are you sure you want to continue connecting (yes/no/[fingerprint])? ");
    assert_eq!(s.next_action(), ScanAction::AcknowledgeHostTrust("yes".to_string()));
    assert_eq!(s.next_action(), ScanAction::AwaitOutput);
    s.feed(b"Warning: added.\r\nuser@host's password: ");
    assert_eq!(s.next_action(), ScanAction::SubmitPassword("secret".to_string()));
    assert_eq!(s.phase(), Phase::Authenticated);
    s.feed(b"(yes/no/[fingerprint]) password:");
    assert_eq!(s.next_action(), ScanAction::Done);
    assert_eq!(s.next_action(), ScanAction::Done);
}

#[test]
fn host_trust_outranks_earlier_prompt_in_window() {
    let mut s = Scanner::new("password:", "pw".to_string());
    s.feed(b"password: (yes/no/[fingerprint])");
    assert_eq!(s.next_action(), ScanAction::AcknowledgeHostTrust("yes".to_string()));
    assert_eq!(s.next_action(), ScanAction::AwaitOutput);
}

#[test]
fn output_ends_without_prompt() {
    let mut s = Scanner::new("password:", "secret".to_string());
    s.feed(b"(yes/no/[fingerprint]) connection closed\r\n");
    s.end_of_output();
    assert_eq!(s.next_action(), ScanAction::AcknowledgeHostTrust("yes".to_string()));
    assert_eq!(s.next_action(), ScanAction::PromptNotFound);
    assert_eq!(s.phase(), Phase::AuthFailed);
    assert_eq!(s.next_action(), ScanAction::PromptNotFound);
}

#[test]
fn echo_password_prompt_scenario() {
    let mut s = Scanner::new("password:", "secret".to_string());
    s.feed(b"password:\r\n");
    assert_eq!(s.next_action(), ScanAction::SubmitPassword("secret".to_string()));
}

#[test]
fn prompt_split_across_reads() {
    let mut s = Scanner::new("Passcode:", "1234".to_string());
    s.feed(b"Enter Pass");
    assert_eq!(s.next_action(), ScanAction::AwaitOutput);
    s.feed(b"code: ");
    assert_eq!(s.next_action(), ScanAction::SubmitPassword("1234".to_string()));
}

#[test]
fn each_host_trust_text_is_answered_once() {
    let mut s = Scanner::new("password:", "pw".to_string());
    s.feed(b"(yes/no/[fingerprint])(yes/no/[fingerprint])");
    assert_eq!(s.next_action(), ScanAction::AcknowledgeHostTrust("yes".to_string()));
    assert_eq!(s.next_action(), ScanAction::AcknowledgeHostTrust("yes".to_string()));
    assert_eq!(s.next_action(), ScanAction::AwaitOutput);
}

#[test]
fn default_prompt_not_matched_by_other_text() {
    let mut s = Scanner::new("password:", "pw".to_string());
    s.feed(b"Password for user: passwd:");
    s.end_of_output();
    assert_eq!(s.next_action(), ScanAction::PromptNotFound);
}

#[test]
fn window_size_updates_once_per_change() {
    let a = TerminalSize { rows: 24, cols: 80 };
    let b = TerminalSize { rows: 50, cols: 132 };
    let mut sync = WindowSizeSync::new();
    assert_eq!(sync.tick(a), Some(a));
    assert_eq!(sync.tick(a), None);
    assert_eq!(sync.tick(a), None);
    assert_eq!(sync.tick(b), Some(b));
    assert_eq!(sync.tick(b), None);
    assert_eq!(sync.tick(a), Some(a));
}
