use brainfuck::io::{console_translate, StdinString, StdoutString};

#[test]
fn string_test_helloworld() {
    let value = "Hello World!";
    let mut stdin = StdinString::new(value);
    let mut result = vec![];
    loop {
        match stdin.read() {
            Ok(Some(value)) => result.push(value),
            _ => break,
        }
    }

    assert_eq!(result.len(), value.len());
    assert_eq!(value, result.iter().collect::<String>());
}

#[test]
fn test_console_newline_is_nul() {
    assert_eq!(console_translate(b'\n'), '\0');
}

#[test]
fn test_console_other_bytes_pass() {
    assert_eq!(console_translate(b'a'), 'a');
    assert_eq!(console_translate(0), '\0');
    assert_eq!(console_translate(255), '\u{ff}');
}

#[test]
fn test_string_stdin_reports_eof() {
    let mut stdin = StdinString::new("x");
    assert_eq!(stdin.read(), Ok(Some('x')));
    assert_eq!(stdin.read(), Ok(None));
    assert_eq!(stdin.read(), Ok(None));
}

#[test]
fn test_string_stdout_collects() {
    let mut stdout = StdoutString::new();
    stdout.write('h');
    stdout.write('i');
    assert_eq!(stdout.to_string(), "hi");
}
