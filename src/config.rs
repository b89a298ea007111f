//! Startup configuration and the command-line options that set it.

use vstd::prelude::*;
use vstd::string::StrSliceExecFns;
use vstd::string::StringExecFns;
use crate::logging::LogLevel;

verus! {

/// What went wrong while reading the configuration.
#[derive(Clone, Copy, Debug, PartialEq, Eq, Structural)]
pub enum ErrorKind {
    UnknownOption,
    MissingArg,
    BadArg,
    IOError,
}

/// The name of an error kind, as it is printed.
pub open spec fn kind_name(kind: ErrorKind) -> &'static str {
    match kind {
        ErrorKind::UnknownOption => "UnknownOption",
        ErrorKind::MissingArg => "MissingArg",
        ErrorKind::BadArg => "BadArg",
        ErrorKind::IOError => "IOError",
    }
}

/// A configuration error: its kind and a message for the user.
#[derive(Debug)]
pub struct Error {
    kind: ErrorKind,
    message: String,
}

impl View for Error {
    type V = (ErrorKind, Seq<char>);

    closed spec fn view(&self) -> (ErrorKind, Seq<char>) {
        (self.kind, self.message@)
    }
}

impl Error {
    pub fn new(kind: ErrorKind, message: &str) -> (r: Error)
        ensures
            r@ == (kind, message@),
    {
        Error { kind, message: String::from_str(message) }
    }

    pub fn kind(&self) -> (r: ErrorKind)
        ensures
            r == self@.0,
    {
        self.kind
    }

    pub fn message(&self) -> (r: &str)
        ensures
            r@ == self@.1,
    {
        self.message.as_str()
    }

    /// The error as printed: its kind, a colon and a space, and its message.
    pub fn describe(&self) -> (r: String)
        ensures
            r@ == kind_name(self@.0)@ + ": "@ + self@.1,
    {
        let name = match self.kind {
            ErrorKind::UnknownOption => "UnknownOption",
            ErrorKind::MissingArg => "MissingArg",
            ErrorKind::BadArg => "BadArg",
            ErrorKind::IOError => "IOError",
        };
        let mut s = String::from_str(name);
        s.append(": ");
        s.append(self.message.as_str());
        s
    }
}

/// Where the server listens and how much it logs. The address is kept as
/// text; it is read as an IP address where the socket is bound.
#[derive(Debug)]
pub struct Config {
    pub addr: String,
    pub port: u16,
    pub log_level: LogLevel,
}

/// A configuration as plain values: address text, port, log level.
pub type ConfigView = (Seq<char>, u16, LogLevel);

impl View for Config {
    type V = ConfigView;

    open spec fn view(&self) -> ConfigView {
        (self.addr@, self.port, self.log_level)
    }
}

/// The configuration used where no option says otherwise: the IPv6 loopback
/// address, port 8080, warnings and above.
pub open spec fn default_config() -> ConfigView {
    ("::1"@, 8080, LogLevel::Warning)
}

impl Default for Config {
    fn default() -> (r: Config)
        ensures
            r@ == default_config(),
    {
        Config { addr: String::from_str("::1"), port: 8080, log_level: LogLevel::Warning }
    }
}

/// Whether a character is an ASCII decimal digit.
pub open spec fn is_digit(c: char) -> bool {
    '0' <= c && c <= '9'
}

/// The number that a string of decimal digits writes.
pub open spec fn digits_value(s: Seq<char>) -> nat
    decreases s.len(),
{
    if s.len() == 0 {
        0
    } else {
        digits_value(s.drop_last()) * 10 + ((s.last() as u32) - ('0' as u32)) as nat
    }
}

/// The digits of a number, after an optional leading plus sign.
pub open spec fn unsigned_digits(s: Seq<char>) -> Seq<char> {
    if s.len() > 0 && s[0] == '+' {
        s.drop_first()
    } else {
        s
    }
}

/// The port a text names: an optional `+`, then one or more decimal digits
/// whose value is at most 65535.
pub open spec fn port_of(s: Seq<char>) -> Option<u16> {
    let d = unsigned_digits(s);
    if d.len() > 0 && (forall|i: int| 0 <= i < d.len() ==> is_digit(#[trigger] d[i])) && digits_value(d)
        <= 65535 {
        Some(digits_value(d) as u16)
    } else {
        None
    }
}

/// Reads a port number.
pub fn parse_port(s: &str) -> (r: Option<u16>)
    ensures
        r == port_of(s@),
{
    let n = s.unicode_len();
    let mut i: usize = 0;
    if n > 0 && s.get_char(0) == '+' {
        i = 1;
    }
    let start = i;
    let ghost d = unsigned_digits(s@);
    assert(d =~= s@.subrange(start as int, n as int));
    if start == n {
        assert(d.len() == 0);
        return None;
    }
    let mut acc: u32 = 0;
    assert(d.take(0) =~= Seq::<char>::empty());
    while i < n
        invariant
            start <= i <= n,
            n == s@.len(),
            d =~= s@.subrange(start as int, n as int),
            d == unsigned_digits(s@),
            forall|j: int| 0 <= j < i - start ==> is_digit(#[trigger] d[j]),
            acc as int == if digits_value(d.take(i - start)) <= 65536 {
                digits_value(d.take(i - start)) as int
            } else {
                65536
            },
        decreases n - i,
    {
        let c = s.get_char(i);
        if !('0' <= c && c <= '9') {
            proof {
                let k = i - start;
                assert(d[k] == s@[i as int]);
                assert(!is_digit(d[k]));
                assert(!(forall|j: int| 0 <= j < d.len() ==> is_digit(#[trigger] d[j])));
            }
            return None;
        }
        let dg: u32 = (c as u32) - ('0' as u32);
        let v: u32 = acc * 10 + dg;
        proof {
            let k = i - start;
            let pre = d.take(k);
            let next = d.take(k + 1);
            assert(next.drop_last() =~= pre);
            assert(next.last() == c);
            let pv = digits_value(pre);
            assert(digits_value(next) == pv * 10 + dg);
            if pv > 65536 {
                assert(pv * 10 + dg > 65536) by (nonlinear_arith)
                    requires pv > 65536;
            }
        }
        acc = if v > 65536 { 65536 } else { v };
        i = i + 1;
    }
    assert(d.take(n - start) =~= d);
    if acc > 65535 {
        None
    } else {
        Some(acc as u16)
    }
}

/// Compares two strings character by character.
fn str_eq(a: &str, b: &str) -> (r: bool)
    ensures
        r == (a@ == b@),
{
    let n = a.unicode_len();
    if n != b.unicode_len() {
        return false;
    }
    let mut i: usize = 0;
    while i < n
        invariant
            0 <= i <= n,
            n == a@.len(),
            n == b@.len(),
            forall|j: int| 0 <= j < i ==> #[trigger] a@[j] == b@[j],
        decreases n - i,
    {
        if a.get_char(i) != b.get_char(i) {
            return false;
        }
        i = i + 1;
    }
    assert(a@ =~= b@);
    true
}

/// What the options from position `i` on make of the configuration `cfg`:
/// `--addr`/`-a` and `--port`/`-p` each take the next argument as their value;
/// anything else is an unknown option.
pub open spec fn options_from(args: Seq<Seq<char>>, i: int, cfg: ConfigView) -> Result<
    ConfigView,
    (ErrorKind, Seq<char>),
>
    decreases args.len() - i,
{
    if i < 0 || i >= args.len() {
        Ok(cfg)
    } else if args[i] == "--addr"@ || args[i] == "-a"@ {
        if i + 1 >= args.len() {
            Err((ErrorKind::MissingArg, "Missing argument for --addr"@))
        } else {
            options_from(args, i + 2, (args[i + 1], cfg.1, cfg.2))
        }
    } else if args[i] == "--port"@ || args[i] == "-p"@ {
        if i + 1 >= args.len() {
            Err((ErrorKind::MissingArg, "Missing argument for --port"@))
        } else {
            match port_of(args[i + 1]) {
                Some(p) => options_from(args, i + 2, (cfg.0, p, cfg.2)),
                None => Err((ErrorKind::BadArg, "Invalid port: "@ + "\""@ + args[i + 1] + "\""@)),
            }
        }
    } else {
        Err((ErrorKind::UnknownOption, "Unknown option: "@ + "\""@ + args[i] + "\""@))
    }
}

/// The arguments as plain text.
pub open spec fn args_view(args: Seq<String>) -> Seq<Seq<char>> {
    args.map_values(|a: String| a@)
}

/// A message that quotes a value: `prefix"value"`.
fn quoted(prefix: &str, value: &str) -> (r: String)
    ensures
        r@ == prefix@ + "\""@ + value@ + "\""@,
{
    let mut s = String::from_str(prefix);
    s.append("\"");
    s.append(value);
    s.append("\"");
    s
}

/// Reads the command-line options (the program name left out) over the
/// default configuration.
pub fn parse_args(args: &Vec<String>) -> (r: Result<Config, Error>)
    ensures
        match options_from(args_view(args@), 0, default_config()) {
            Ok(c) => r matches Ok(cfg) && cfg@ == c,
            Err(e) => r matches Err(err) && err@ == e,
        },
{
    let ghost av = args_view(args@);
    let mut cfg = Config::default();
    let mut i: usize = 0;
    while i < args.len()
        invariant
            0 <= i <= args@.len() + 1,
            av == args_view(args@),
            options_from(av, 0, default_config()) == options_from(av, i as int, cfg@),
        decreases args@.len() + 1 - i,
    {
        let arg = args[i].as_str();
        assert(arg@ == av[i as int]);
        if str_eq(arg, "--addr") || str_eq(arg, "-a") {
            if i + 1 >= args.len() {
                return Err(Error::new(ErrorKind::MissingArg, "Missing argument for --addr"));
            }
            assert(args[i + 1]@ == av[i + 1]);
            cfg.addr = args[i + 1].clone();
            i = i + 2;
        } else if str_eq(arg, "--port") || str_eq(arg, "-p") {
            if i + 1 >= args.len() {
                return Err(Error::new(ErrorKind::MissingArg, "Missing argument for --port"));
            }
            let value = args[i + 1].as_str();
            assert(value@ == av[i + 1]);
            match parse_port(value) {
                Some(p) => {
                    cfg.port = p;
                    i = i + 2;
                },
                None => {
                    let msg = quoted("Invalid port: ", value);
                    return Err(Error::new(ErrorKind::BadArg, msg.as_str()));
                },
            }
        } else {
            let msg = quoted("Unknown option: ", arg);
            return Err(Error::new(ErrorKind::UnknownOption, msg.as_str()));
        }
    }
    Ok(cfg)
}

} // verus!
