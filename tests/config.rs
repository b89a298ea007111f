use minihttp::config::{parse_args, parse_port, Config, Error, ErrorKind};
use minihttp::logging::LogLevel;

fn args(v: &[&str]) -> Vec<String> {
    v.iter().map(|s| s.to_string()).collect()
}

#[test]
fn defaults() {
    let c = Config::default();
    assert_eq!(c.addr, "::1");
    assert_eq!(c.port, 8080);
    assert_eq!(c.log_level, LogLevel::Warning);
    let p = parse_args(&args(&[])).unwrap();
    assert_eq!((p.addr.as_str(), p.port), ("::1", 8080));
}

#[test]
fn options_set_values() {
    let c = parse_args(&args(&["--addr", "127.0.0.1", "-p", "9000"])).unwrap();
    assert_eq!(c.addr, "127.0.0.1");
    assert_eq!(c.port, 9000);
    let c = parse_args(&args(&["-a", "0.0.0.0", "--port", "+81", "-a", "::"])).unwrap();
    assert_eq!(c.addr, "::");
    assert_eq!(c.port, 81);
}

#[test]
fn option_errors() {
    let e = parse_args(&args(&["--port"])).unwrap_err();
    assert_eq!(e.kind(), ErrorKind::MissingArg);
    assert_eq!(e.message(), "Missing argument for --port");
    let e = parse_args(&args(&["-a"])).unwrap_err();
    assert_eq!(e.kind(), ErrorKind::MissingArg);
    assert_eq!(e.message(), "Missing argument for --addr");
    let e = parse_args(&args(&["-p", "70000"])).unwrap_err();
    assert_eq!(e.kind(), ErrorKind::BadArg);
    assert_eq!(e.message(), "Invalid port: \"70000\"");
    let e = parse_args(&args(&["-x"])).unwrap_err();
    assert_eq!(e.kind(), ErrorKind::UnknownOption);
    assert_eq!(e.describe(), "UnknownOption: Unknown option: \"-x\"");
}

#[test]
fn ports() {
    assert_eq!(parse_port("0"), Some(0));
    assert_eq!(parse_port("65535"), Some(65535));
    assert_eq!(parse_port("65536"), None);
    assert_eq!(parse_port("999999999999"), None);
    assert_eq!(parse_port("+8080"), Some(8080));
    assert_eq!(parse_port("+"), None);
    assert_eq!(parse_port(""), None);
    assert_eq!(parse_port("-1"), None);
    assert_eq!(parse_port("80a"), None);
    assert_eq!(parse_port("007"), Some(7));
}

#[test]
fn error_parts() {
    let e = Error::new(ErrorKind::IOError, "disk");
    assert_eq!(e.kind(), ErrorKind::IOError);
    assert_eq!(e.message(), "disk");
    assert_eq!(e.describe(), "IOError: disk");
}

#[test]
fn level_labels() {
    assert_eq!(LogLevel::Debug.to_string(), "\x1b[90;3m[Debug]\x1b[0m");
    assert_eq!(LogLevel::Warning.to_string(), "\x1b[93;1m[Warning]\x1b[0m");
    assert_eq!(LogLevel::Error.to_string(), "\x1b[91;1m[Error]\x1b[0m");
    assert_eq!(LogLevel::Info.to_string(), "\x1b[36m[Info]\x1b[0m");
    assert_eq!(LogLevel::Info.color(), "\x1b[36m");
}
