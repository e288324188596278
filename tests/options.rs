use sshpass::{parse_i32, parse_options, AppOption, ParseError, PasswordError, PwType, RunMode};

fn args(v: &[&str]) -> Vec<String> {
    v.iter().map(|s| s.to_string()).collect()
}

fn parse(v: &[&str]) -> Result<AppOption, ParseError> {
    let a = args(v);
    parse_options(a.len(), &a)
}

/// What the crate's own manifest starts with: the text a file source yields.
const MANIFEST_TEXT: &str = "[package]\nname = \"sshpass\"\nversion = \"0.1.0\"\n";

#[test]
fn test() {
    for (argc, argv, expect) in [
        (
            7,
            vec!["sshpass.exe", "-p", "root", "ssh", "u0_a345@192.168.0.64", "-p", "8022"],
            "root",
        ),
        (
            7,
            vec!["sshpass.exe", "-f", "Cargo.toml", "ssh", "u0_a345@192.168.0.64", "-p", "8022"],
            "[package]",
        ),
    ] {
        let v: Vec<_> = argv.iter().map(|s| s.to_string()).collect();
        let opt = parse_options(argc, &v).unwrap();
        let read = match &opt.pwtype {
            PwType::File(path) if path == "Cargo.toml" => MANIFEST_TEXT.to_string(),
            _ => String::new(),
        };
        let pwd = opt.get_password(&read, true).unwrap();
        assert_eq!(pwd, expect);
    }
}

#[test]
fn command_is_joined_trailing_arguments() {
    let o = parse(&["sshpass", "-p", "root", "ssh", "u@h", "-p", "8022"]).unwrap();
    assert_eq!(o.pwtype, PwType::Pass("root".to_string()));
    assert_eq!(o.cmd, "ssh u@h -p 8022");
    assert_eq!(o.pwprompt, "password:");
    assert_eq!(o.mode, RunMode::Run);
    assert_eq!(o.verbose, 0);
}

#[test]
fn each_single_source() {
    let o = parse(&["sshpass", "-f", "pw.txt", "ls"]).unwrap();
    assert_eq!(o.pwtype, PwType::File("pw.txt".to_string()));
    assert_eq!(o.cmd, "ls");
    let o = parse(&["sshpass", "-d", "3", "ls", "-l"]).unwrap();
    assert_eq!(o.pwtype, PwType::Fd(3));
    assert_eq!(o.cmd, "ls -l");
    let o = parse(&["sshpass", "-e", "ssh", "host"]).unwrap();
    assert_eq!(o.pwtype, PwType::Env);
    assert_eq!(o.cmd, "ssh host");
    let o = parse(&["sshpass", "ssh"]).unwrap();
    assert_eq!(o.pwtype, PwType::Stdin);
    assert_eq!(o.cmd, "ssh");
}

#[test]
fn env_option_takes_the_variable_value() {
    let o = parse(&["sshpass", "-e", "ssh"]).unwrap();
    assert_eq!(o.get_password("from env \n", true).unwrap(), "from env \n");
}

#[test]
fn two_sources_conflict() {
    let cases: Vec<Vec<&str>> = vec![
        vec!["sshpass", "-p", "a", "-f", "b", "ssh"],
        vec!["sshpass", "-f", "b", "-p", "a", "ssh"],
        vec!["sshpass", "-d", "4", "-p", "a", "ssh"],
        vec!["sshpass", "-p", "a", "-d", "4", "ssh"],
        vec!["sshpass", "-e", "-f", "x", "ssh"],
        vec!["sshpass", "-f", "x", "-e", "ssh"],
        vec!["sshpass", "-p", "a", "-d"],
        vec!["sshpass", "-e", "-p", "a", "ssh"],
        vec!["sshpass", "-v", "-e", "-P", "Code:", "-d", "3", "ssh"],
    ];
    for c in cases {
        let r = parse(&c);
        assert!(matches!(r, Err(ParseError::ConflictingArguments)), "{:?}", c);
    }
}

#[test]
fn missing_values_are_invalid() {
    for flag in ["-f", "-d", "-p", "-P"] {
        assert!(matches!(parse(&["sshpass", flag]), Err(ParseError::InvalidArguments)));
    }
}

#[test]
fn non_numeric_descriptor_is_invalid() {
    for v in ["abc", "12a", "", "+", "-", " 1", "2147483648", "1_0"] {
        assert!(matches!(parse(&["sshpass", "-d", v, "ssh"]), Err(ParseError::InvalidArguments)));
    }
}

#[test]
fn unknown_option_is_invalid() {
    assert!(matches!(parse(&["sshpass", "-x", "ssh"]), Err(ParseError::InvalidArguments)));
    assert!(matches!(parse(&["sshpass", "-", "ssh"]), Err(ParseError::InvalidArguments)));
    assert!(matches!(parse(&["sshpass", "--pass", "ssh"]), Err(ParseError::InvalidArguments)));
}

#[test]
fn prompt_and_verbosity() {
    let o = parse(&["sshpass", "-v", "-P", "Passcode:", "-v", "-p", "x", "ssh", "h"]).unwrap();
    assert_eq!(o.pwprompt, "Passcode:");
    assert_eq!(o.verbose, 2);
    assert_eq!(o.cmd, "ssh h");
}

#[test]
fn help_and_version() {
    let o = parse(&["sshpass", "-p", "x", "-h", "ssh"]).unwrap();
    assert_eq!(o.mode, RunMode::ShowHelp);
    assert_eq!(o.cmd, "");
    let o = parse(&["sshpass", "-V", "ssh"]).unwrap();
    assert_eq!(o.mode, RunMode::ShowVersion);
    assert_eq!(o.cmd, "");
}

#[test]
fn options_stop_at_argc() {
    let a = args(&["sshpass", "-p", "x", "-f", "y"]);
    let o = parse_options(3, &a).unwrap();
    assert_eq!(o.pwtype, PwType::Pass("x".to_string()));
    assert_eq!(o.cmd, "-f y");
    let o = parse(&["sshpass"]).unwrap();
    assert_eq!(o.cmd, "");
}

#[test]
fn descriptor_numbers() {
    assert_eq!(parse_i32("0"), Some(0));
    assert_eq!(parse_i32("+7"), Some(7));
    assert_eq!(parse_i32("-5"), Some(-5));
    assert_eq!(parse_i32("2147483647"), Some(2147483647));
    assert_eq!(parse_i32("-2147483648"), Some(-2147483648));
    assert_eq!(parse_i32("007"), Some(7));
    assert_eq!(parse_i32("2147483648"), None);
    assert_eq!(parse_i32("-2147483649"), None);
    assert_eq!(parse_i32("99999999999999999999"), None);
    assert_eq!(parse_i32("+-1"), None);
    assert_eq!(parse_i32(""), None);
}

#[test]
fn password_from_each_source() {
    let mk = |t: PwType| AppOption {
        pwtype: t,
        pwprompt: "password:".to_string(),
        verbose: 0,
        cmd: "ssh".to_string(),
        mode: RunMode::Run,
    };
    let read = "secret \t\nsecond line\n";
    assert_eq!(mk(PwType::File("f".to_string())).get_password(read, true).unwrap(), "secret \t");
    assert_eq!(mk(PwType::Fd(3)).get_password(read, true).unwrap(), "secret \t");
    assert!(matches!(mk(PwType::Fd(3)).get_password(read, false), Err(PasswordError::NotSupportFd)));
    assert_eq!(mk(PwType::Stdin).get_password("typed\n", true).unwrap(), "typed");
    assert_eq!(mk(PwType::Pass("lit".to_string())).get_password(read, false).unwrap(), "lit");
    assert_eq!(mk(PwType::Env).get_password("env pw", false).unwrap(), "env pw");
}
