//! Credential entry for interactive terminal programs: option parsing, the
//! prompt scanner that drives authentication, and the window-size tracking
//! of the interactive relay.

pub mod credential;
pub mod option;
pub mod relay;
pub mod scanner;

pub use credential::{first_line, law_first_line_only};
pub use option::{parse_i32, parse_options, AppOption, ParseError, PasswordError, PwType, RunMode, PASSWORD_PROMPT};
pub use scanner::{law_host_trust_then_password, law_no_prompt_no_password, Phase, ScanAction, Scanner, HOST_TRUST_PROMPT, HOST_TRUST_REPLY};
pub use relay::{law_first_tick_pushes, law_one_update_per_change, TerminalSize, WindowSizeSync};
