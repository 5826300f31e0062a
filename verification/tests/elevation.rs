use disk_cleaner::elevation::{
    adopted_code, child_command_line, is_elevated, keeps_waiting, privilege_granted,
    push_argument, quote, require_administrator, unconnected, writable_prefix, Phase, PipeAnswer,
    PipeState, PipeStep, RelaySpec, StreamWriter, Token, BROKEN_PIPE, HANDLE_EOF, HIGH_INTEGRITY,
    IO_INCOMPLETE, IO_PENDING, NOT_ALL_ASSIGNED, OPERATION_ABORTED, PIPE_CONNECTED,
};

fn wide(s: &str) -> Vec<u16> {
    s.encode_utf16().collect()
}

/// Takes a command line apart as the C runtime of Windows does.
fn parse(line: &[u16]) -> Vec<String> {
    let (quote, slash, blank, tab) = ('"' as u16, '\\' as u16, ' ' as u16, '\t' as u16);
    let mut parsed = Vec::new();
    let mut at = 0;
    while at < line.len() {
        while at < line.len() && (line[at] == blank || line[at] == tab) {
            at += 1;
        }
        if at == line.len() {
            break;
        }
        let mut word = Vec::new();
        let mut quoted = false;
        while at < line.len() && (quoted || (line[at] != blank && line[at] != tab)) {
            let mut slashes = 0;
            while at < line.len() && line[at] == slash {
                slashes += 1;
                at += 1;
            }
            if at < line.len() && line[at] == quote {
                word.extend(std::iter::repeat(slash).take(slashes / 2));
                if slashes % 2 == 1 {
                    word.push(quote);
                } else {
                    quoted = !quoted;
                }
                at += 1;
            } else {
                word.extend(std::iter::repeat(slash).take(slashes));
                if slashes == 0 {
                    word.push(line[at]);
                    at += 1;
                }
            }
        }
        parsed.push(String::from_utf16_lossy(&word));
    }
    parsed
}

#[test]
fn arguments_survive_the_child_command_line() {
    let arguments = [
        "--plan",
        r"C:\work\clean targets.json",
        "--save",
        r".disk-cleaner\a b\中文 Δ.dcscan",
        "scan",
        r"\\?\D:\a'b\c d\",
        r"trailing\\",
        r#"quote"inside"#,
        "tab\tseparated",
        "",
        "--reason",
        "C:\\with\\backslashes\\",
    ];
    let mut line = wide(r"C:\tools\disk-cleaner.exe");
    for argument in arguments {
        push_argument(&mut line, &wide(argument));
    }
    let parsed = parse(&line);
    assert_eq!(parsed[0], r"C:\tools\disk-cleaner.exe");
    assert_eq!(parsed[1..], arguments);
}

#[test]
fn only_a_truncated_utf8_tail_is_held_back() {
    assert_eq!(writable_prefix(b"abcdef"), 6);
    assert_eq!(writable_prefix(b"abc"), 3);
    assert_eq!(writable_prefix("中文".as_bytes()), 6);
    assert_eq!(writable_prefix(&"中".as_bytes()[..2]), 0);
    assert_eq!(writable_prefix(b"abc\xe4\xb8"), 3);
    assert_eq!(writable_prefix(b"abc\xff\xfe"), 5);
}

#[test]
fn a_character_may_be_cut_anywhere() {
    assert_eq!(writable_prefix(b"a\xc3"), 1);
    assert_eq!(writable_prefix(b"a\xf0"), 1);
    assert_eq!(writable_prefix(b"a\xf0\x9f\x98"), 1);
    assert_eq!(writable_prefix("a\u{1f600}".as_bytes()), 5);
    assert_eq!(writable_prefix(b"a\xed\xa0"), 3);
    assert_eq!(writable_prefix(b"\xe4\xb8a"), 3);
    assert_eq!(writable_prefix(b""), 0);
}

#[test]
fn quoting_doubles_backslashes_only_before_quotes() {
    let text = |s: &str| String::from_utf16_lossy(&quote(&wide(s)));
    assert_eq!(text("plain"), "plain");
    assert_eq!(text(r"a\b"), r"a\b");
    assert_eq!(text(r"a b\"), r#""a b\\""#);
    assert_eq!(text(r#"a\"b"#), r#""a\\\"b""#);
    assert_eq!(text(""), r#""""#);
}

#[test]
fn the_child_gets_every_flag() {
    let relay = RelaySpec {
        stdout: wide(r"\\.\pipe\out"),
        stderr: wide(r"\\.\pipe\err"),
        cwd: wide(r"C:\my work"),
        parent: 42,
        fallback: wide(r"C:\temp\x"),
    };
    let line = child_command_line(&vec![wide("scan"), wide("D:\\")], &relay);
    assert_eq!(line.last(), Some(&0));
    let parsed = parse(&line[..line.len() - 1]);
    for (flag, value) in [
        ("--elevation-stdout", r"\\.\pipe\out"),
        ("--elevation-stderr", r"\\.\pipe\err"),
        ("--elevation-cwd", r"C:\my work"),
        ("--elevation-parent", "42"),
        ("--elevation-fallback", r"C:\temp\x"),
    ] {
        let at = parsed.iter().position(|p| p == flag).unwrap();
        assert_eq!(parsed[at + 1], value);
    }
    assert!(parsed.contains(&"scan".to_string()));
}

#[test]
fn streams_hand_on_whole_characters() {
    let mut w = StreamWriter::new();
    assert_eq!(w.write(b"a\xe4"), b"a");
    assert_eq!(w.write(b"\xb8"), b"");
    assert_eq!(w.write(b"\xadb"), "中b".as_bytes());
    assert_eq!(w.write(b"\xe4"), b"");
    assert_eq!(w.finish(), b"\xe4");
    assert_eq!(w.finish(), b"");
}

#[test]
fn elevation_needs_the_right_token() {
    let token = Token {
        elevated: Some(true),
        integrity: Some(HIGH_INTEGRITY),
        administrators: true,
        local_system: false,
    };
    assert!(is_elevated(Some(token)));
    assert!(!is_elevated(None));
    assert!(!is_elevated(Some(Token {
        elevated: Some(false),
        integrity: Some(0x2000),
        administrators: false,
        ..token
    })));
    assert!(require_administrator(true).is_ok());
    assert!(require_administrator(false).unwrap_err().contains("请 agent 自行"));
    assert!(privilege_granted(true, 0));
    assert!(!privilege_granted(true, NOT_ALL_ASSIGNED));
    assert!(!privilege_granted(false, 0));
}

#[test]
fn pipes_connect_read_and_end() {
    let s = PipeState::new();
    assert_eq!(s.step(), PipeStep::BeginConnect);
    let s = s.answer(PipeAnswer::Failed(IO_PENDING)).state;
    assert!(s.pending);
    assert_eq!(s.step(), PipeStep::FinishConnect);
    let held = s.answer(PipeAnswer::Failed(IO_INCOMPLETE));
    assert!(!held.goes_on);
    let s = held.state.answer(PipeAnswer::Failed(PIPE_CONNECTED)).state;
    assert_eq!(s.phase, Phase::Reading);
    let read = s.answer(PipeAnswer::Read(5));
    assert_eq!((read.deliver, read.goes_on), (5, true));
    let s = read.state.answer(PipeAnswer::Failed(IO_PENDING)).state;
    assert_eq!(s.step(), PipeStep::FinishRead);
    let aborted = s.answer(PipeAnswer::Failed(OPERATION_ABORTED)).state;
    assert_eq!((aborted.phase, aborted.failure), (Phase::Done, None));
    let broken = read.state.answer(PipeAnswer::Failed(BROKEN_PIPE)).state;
    assert_eq!(broken.failure, None);
    assert_eq!(broken.answer(PipeAnswer::Read(3)).state, broken);
    let ended = read.state.answer(PipeAnswer::Failed(HANDLE_EOF)).state;
    assert_eq!(ended.step(), PipeStep::Nothing);
    let failed = read.state.answer(PipeAnswer::Failed(31)).state;
    assert_eq!((failed.phase, failed.failure), (Phase::Done, Some(31)));
}

#[test]
fn the_parent_waits_for_what_is_under_way() {
    let idle = PipeState::new();
    let busy = PipeState {
        pending: true,
        ..idle
    };
    assert!(keeps_waiting(false, idle, idle));
    assert!(keeps_waiting(true, busy, idle));
    assert!(!keeps_waiting(true, idle, idle));
    let failed = PipeState {
        failure: Some(5),
        ..idle
    };
    assert_eq!(
        unconnected("stdout", failed, "stderr", idle),
        vec!["stdout（管道错误 5）", "stderr"]
    );
    let reading = PipeState {
        phase: Phase::Reading,
        ..idle
    };
    assert!(unconnected("stdout", reading, "stderr", reading).is_empty());
    assert_eq!(adopted_code(0, false, 0), 1);
    assert_eq!(adopted_code(0, false, 13), 0);
    assert_eq!(adopted_code(0, true, 0), 0);
    assert_eq!(adopted_code(3, false, 0), 3);
}
