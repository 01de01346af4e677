//! Command-line configuration of the daemon: its options, their defaults, and
//! how the values given for them are read.

use vstd::prelude::*;

verus! {

/// Which engine drives the JTAG pins.
#[derive(Clone, Copy, Debug, PartialEq, Eq, Structural)]
pub enum BackendMode {
    Bitbang,
    Mpsse,
}

/// Why a string is not a number of the expected type.
#[derive(Clone, Copy, Debug, PartialEq, Eq, Structural)]
pub enum IntErrorKind {
    Empty,
    InvalidDigit,
    PosOverflow,
    NegOverflow,
}

/// The value of a hexadecimal digit (either case).
pub open spec fn hex_digit(c: char) -> Option<int> {
    if '0' <= c && c <= '9' {
        Some(c as int - '0' as int)
    } else if 'a' <= c && c <= 'f' {
        Some(c as int - 'a' as int + 10)
    } else if 'A' <= c && c <= 'F' {
        Some(c as int - 'A' as int + 10)
    } else {
        None
    }
}

/// The value of a decimal digit.
pub open spec fn dec_digit(c: char) -> Option<int> {
    if '0' <= c && c <= '9' {
        Some(c as int - '0' as int)
    } else {
        None
    }
}

/// Reads the digits `d` left to right in `radix` (10 or 16), failing on the
/// first character that is no digit, or as soon as the value passes `max`.
pub open spec fn scan_digits(d: Seq<char>, radix: int, max: int) -> Result<int, IntErrorKind>
    decreases d.len(),
{
    if d.len() == 0 {
        Ok(0)
    } else {
        match scan_digits(d.drop_last(), radix, max) {
            Err(e) => Err(e),
            Ok(v) => {
                let x = if radix == 16 {
                    hex_digit(d.last())
                } else {
                    dec_digit(d.last())
                };
                match x {
                    None => Err(IntErrorKind::InvalidDigit),
                    Some(x) => if v * radix + x > max {
                        Err(IntErrorKind::PosOverflow)
                    } else {
                        Ok(v * radix + x)
                    },
                }
            },
        }
    }
}

/// An unsigned number in `radix` no greater than `max`, as Rust's `from_str_radix`
/// reads it: an optional `+` followed by at least one digit.
pub open spec fn spec_parse_unsigned(s: Seq<char>, radix: int, max: int) -> Result<int, IntErrorKind> {
    if s.len() == 0 {
        Err(IntErrorKind::Empty)
    } else if s.len() == 1 && (s[0] == '+' || s[0] == '-') {
        Err(IntErrorKind::InvalidDigit)
    } else if s[0] == '+' {
        scan_digits(s.drop_first(), radix, max)
    } else {
        scan_digits(s, radix, max)
    }
}

/// A decimal `i64` as Rust's `str::parse` reads it: an optional `+` or `-`
/// followed by at least one digit.
pub open spec fn spec_parse_i64(s: Seq<char>) -> Result<int, IntErrorKind> {
    if s.len() >= 2 && s[0] == '-' {
        if s[1] == '+' {
            Err(IntErrorKind::InvalidDigit)
        } else {
            match spec_parse_unsigned(s.drop_first(), 10, i64::MAX + 1) {
                Ok(m) => Ok(-m),
                Err(IntErrorKind::PosOverflow) => Err(IntErrorKind::NegOverflow),
                Err(e) => Err(e),
            }
        }
    } else {
        spec_parse_unsigned(s, 10, i64::MAX as int)
    }
}

/// The character of decimal digit `d`.
pub open spec fn digit_char(d: int) -> char {
    if d == 0 {
        '0'
    } else if d == 1 {
        '1'
    } else if d == 2 {
        '2'
    } else if d == 3 {
        '3'
    } else if d == 4 {
        '4'
    } else if d == 5 {
        '5'
    } else if d == 6 {
        '6'
    } else if d == 7 {
        '7'
    } else if d == 8 {
        '8'
    } else {
        '9'
    }
}

/// The decimal digits of `n`, most significant first, with no leading zeros.
pub open spec fn nat_text(n: nat) -> Seq<char>
    decreases n,
{
    if n < 10 {
        seq![digit_char(n as int)]
    } else {
        nat_text(n / 10).push(digit_char((n % 10) as int))
    }
}

/// How Rust displays the integer `v`.
pub open spec fn int_text(v: int) -> Seq<char> {
    if v < 0 {
        seq!['-'] + nat_text((-v) as nat)
    } else {
        nat_text(v as nat)
    }
}

/// The characters of a string.
pub fn str_chars(s: &str) -> (v: Vec<char>)
    ensures
        v@ == s@,
{
    let n = s.unicode_len();
    let mut v: Vec<char> = Vec::new();
    let mut i: usize = 0;
    while i < n
        invariant
            i <= n,
            n == s@.len(),
            v@ == s@.subrange(0, i as int),
        decreases n - i,
    {
        v.push(s.get_char(i));
        i = i + 1;
        assert(v@ =~= s@.subrange(0, i as int));
    }
    assert(s@.subrange(0, n as int) =~= s@);
    v
}

fn digit_value(c: char, radix: u32) -> (x: Option<u32>)
    requires
        radix == 10 || radix == 16,
    ensures
        match (if radix == 16 { hex_digit(c) } else { dec_digit(c) }) {
            None => x is None,
            Some(d) => x == Some(d as u32) && d < radix,
        },
{
    if '0' <= c && c <= '9' {
        Some((c as u32) - ('0' as u32))
    } else if radix == 16 && 'a' <= c && c <= 'f' {
        Some((c as u32) - ('a' as u32) + 10)
    } else if radix == 16 && 'A' <= c && c <= 'F' {
        Some((c as u32) - ('A' as u32) + 10)
    } else {
        None
    }
}

/// Reads an unsigned number in `radix` (10 or 16) that may be at most `max`,
/// the way Rust's `from_str_radix` does for an unsigned type of that range.
pub fn parse_unsigned(s: &[char], radix: u32, max: u64) -> (r: Result<u64, IntErrorKind>)
    requires
        radix == 10 || radix == 16,
        16 <= max <= 0x8000_0000_0000_0000,
    ensures
        match spec_parse_unsigned(s@, radix as int, max as int) {
            Ok(v) => r == Ok::<u64, IntErrorKind>(v as u64) && 0 <= v <= max,
            Err(e) => r == Err::<u64, IntErrorKind>(e),
        },
{
    if s.len() == 0 {
        return Err(IntErrorKind::Empty);
    }
    if s.len() == 1 && (s[0] == '+' || s[0] == '-') {
        return Err(IntErrorKind::InvalidDigit);
    }
    let first: usize = if s[0] == '+' { 1 } else { 0 };
    let ghost d = if s@[0] == '+' { s@.drop_first() } else { s@ };
    assert(d =~= s@.subrange(first as int, s@.len() as int));
    assert(d.subrange(0, 0) =~= Seq::<char>::empty());
    let mut v: u64 = 0;
    let mut i: usize = first;
    while i < s.len()
        invariant
            first <= i <= s@.len(),
            radix == 10 || radix == 16,
            16 <= max <= 0x8000_0000_0000_0000,
            d == s@.subrange(first as int, s@.len() as int),
            spec_parse_unsigned(s@, radix as int, max as int) == scan_digits(d, radix as int, max as int),
            scan_digits(d.subrange(0, i - first), radix as int, max as int) == Ok::<int, IntErrorKind>(v as int),
            v <= max,
        decreases s@.len() - i,
    {
        let ghost prefix = d.subrange(0, i - first + 1);
        assert(prefix.drop_last() =~= d.subrange(0, i - first));
        assert(prefix.last() == s@[i as int]);
        match digit_value(s[i], radix) {
            None => {
                assert(scan_digits(prefix, radix as int, max as int) == Err::<int, IntErrorKind>(IntErrorKind::InvalidDigit));
                proof {
                    lemma_scan_err_sticks(d, (i - first + 1) as int, radix as int, max as int);
                }
                return Err(IntErrorKind::InvalidDigit);
            },
            Some(x) => {
                if v > (max - x as u64) / (radix as u64) {
                    assert(v * radix + x > max) by (nonlinear_arith)
                        requires
                            v > (max - x) / (radix as int),
                            radix > 0,
                            max >= x,
                            x >= 0,
                    ;
                    assert(scan_digits(prefix, radix as int, max as int) == Err::<int, IntErrorKind>(IntErrorKind::PosOverflow));
                    proof {
                    lemma_scan_err_sticks(d, (i - first + 1) as int, radix as int, max as int);
                }
                    return Err(IntErrorKind::PosOverflow);
                }
                assert(v * radix + x <= max) by (nonlinear_arith)
                    requires
                        v <= (max - x) / (radix as int),
                        radix > 0,
                        max >= x,
                        x >= 0,
                ;
                v = v * (radix as u64) + (x as u64);
            },
        }
        i = i + 1;
    }
    assert(d.subrange(0, i - first) =~= d);
    Ok(v)
}

/// Once a prefix of the digits fails, the whole of them fails the same way.
proof fn lemma_scan_err_sticks(d: Seq<char>, k: int, radix: int, max: int)
    requires
        0 <= k <= d.len(),
        scan_digits(d.subrange(0, k), radix, max) is Err,
    ensures
        scan_digits(d, radix, max) == scan_digits(d.subrange(0, k), radix, max),
    decreases d.len() - k,
{
    if k < d.len() {
        let p = d.subrange(0, k + 1);
        assert(p.drop_last() =~= d.subrange(0, k));
        lemma_scan_err_sticks(d, k + 1, radix, max);
    } else {
        assert(d.subrange(0, k) =~= d);
    }
}

/// `s` without a leading `0x`.
pub open spec fn strip_hex_prefix(s: Seq<char>) -> Seq<char> {
    if s.len() >= 2 && s[0] == '0' && s[1] == 'x' {
        s.skip(2)
    } else {
        s
    }
}

/// How Rust describes a number that does not parse.
pub open spec fn int_error_text(e: IntErrorKind) -> Seq<char> {
    match e {
        IntErrorKind::Empty => "cannot parse integer from empty string"@,
        IntErrorKind::InvalidDigit => "invalid digit found in string"@,
        IntErrorKind::PosOverflow => "number too large to fit in target type"@,
        IntErrorKind::NegOverflow => "number too small to fit in target type"@,
    }
}

/// The value of a 16-bit hexadecimal field (with or without `0x`), or the message for it.
pub open spec fn spec_parse_hex_u16(s: Seq<char>) -> Result<u16, Seq<char>> {
    match spec_parse_unsigned(strip_hex_prefix(s), 16, 0xffff) {
        Ok(v) => Ok(v as u16),
        Err(e) => Err("Invalid hex numeric value '"@ + s + "': "@ + int_error_text(e)),
    }
}

fn int_error_string(e: IntErrorKind) -> (t: String)
    ensures
        t@ == int_error_text(e),
{
    match e {
        IntErrorKind::Empty => String::from_str("cannot parse integer from empty string"),
        IntErrorKind::InvalidDigit => String::from_str("invalid digit found in string"),
        IntErrorKind::PosOverflow => String::from_str("number too large to fit in target type"),
        IntErrorKind::NegOverflow => String::from_str("number too small to fit in target type"),
    }
}

fn hex_u16_from_chars(chars: &[char], text: &str) -> (r: Result<u16, String>)
    requires
        chars@ == text@,
    ensures
        match (spec_parse_hex_u16(text@), r) {
            (Ok(a), Ok(b)) => a == b,
            (Err(a), Err(b)) => a == b@,
            _ => false,
        },
{
    let clean: &[char] = if chars.len() >= 2 && chars[0] == '0' && chars[1] == 'x' {
        vstd::slice::slice_subrange(chars, 2, chars.len())
    } else {
        chars
    };
    assert(clean@ =~= strip_hex_prefix(text@));
    match parse_unsigned(clean, 16, 0xffff) {
        Ok(v) => Ok(v as u16),
        Err(e) => {
            let mut msg = String::from_str("Invalid hex numeric value '");
            msg.append(text);
            msg.append("': ");
            let reason = int_error_string(e);
            msg.append(reason.as_str());
            Err(msg)
        },
    }
}

/// Reads a 16-bit hexadecimal field such as a USB vendor or product ID; a
/// leading `0x` is allowed.
pub fn parse_hex_u16(s: &str) -> (r: Result<u16, String>)
    ensures
        match (spec_parse_hex_u16(s@), r) {
            (Ok(a), Ok(b)) => a == b,
            (Err(a), Err(b)) => a == b@,
            _ => false,
        },
{
    let chars = str_chars(s);
    hex_u16_from_chars(chars.as_slice(), s)
}

/// An option of the command line.
#[derive(Clone, Copy, Debug, PartialEq, Eq, Structural)]
pub enum CliOption {
    Port,
    Vid,
    Pid,
    Mode,
    Channel,
}

/// The values given on a command line; `None` for an option left out.
#[derive(Clone, Copy, Debug)]
pub struct CliValues {
    pub port: Option<u16>,
    pub vid: Option<u16>,
    pub pid: Option<u16>,
    pub mode: Option<BackendMode>,
    pub channel: Option<u8>,
}

/// Why a command line was not accepted, as a mathematical value.
pub enum CliFailure {
    Help,
    Version,
    Unexpected(Seq<char>),
    MissingValue(CliOption),
    Repeated(CliOption),
    Invalid(CliOption, Seq<char>, Seq<char>),
}

/// Why a command line was not accepted.
#[derive(Debug)]
pub enum CliError {
    /// `--help` or `-h` was given.
    DisplayHelp,
    /// `--version` or `-V` was given.
    DisplayVersion,
    /// An argument that is no option of this program.
    UnexpectedArgument(String),
    /// An option with no value after it.
    MissingValue(CliOption),
    /// An option given more than once.
    Repeated(CliOption),
    /// A value that the option does not accept, and why.
    InvalidValue { option: CliOption, value: String, reason: String },
}

impl View for CliError {
    type V = CliFailure;

    open spec fn view(&self) -> CliFailure {
        match self {
            CliError::DisplayHelp => CliFailure::Help,
            CliError::DisplayVersion => CliFailure::Version,
            CliError::UnexpectedArgument(t) => CliFailure::Unexpected(t@),
            CliError::MissingValue(o) => CliFailure::MissingValue(*o),
            CliError::Repeated(o) => CliFailure::Repeated(*o),
            CliError::InvalidValue { option, value, reason } => CliFailure::Invalid(*option, value@, reason@),
        }
    }
}

pub open spec fn no_values() -> CliValues {
    CliValues { port: None, vid: None, pid: None, mode: None, channel: None }
}

/// `p` is a prefix of `t`.
pub open spec fn starts_with_text(t: Seq<char>, p: Seq<char>) -> bool {
    p.len() <= t.len() && t.subrange(0, p.len() as int) == p
}

/// An argument that is taken for an option rather than a value.
pub open spec fn looks_like_flag(t: Seq<char>) -> bool {
    t.len() > 1 && t[0] == '-'
}

/// The option named by a whole argument (`--port`, `-P`, ...); `--channel` and
/// `-c` only where the program has that option.
pub open spec fn flag_option(t: Seq<char>, with_channel: bool) -> Option<CliOption> {
    if t == "--port"@ || t == "-P"@ {
        Some(CliOption::Port)
    } else if t == "--vid"@ || t == "-v"@ {
        Some(CliOption::Vid)
    } else if t == "--pid"@ || t == "-p"@ {
        Some(CliOption::Pid)
    } else if t == "--mode"@ || t == "-m"@ {
        Some(CliOption::Mode)
    } else if with_channel && (t == "--channel"@ || t == "-c"@) {
        Some(CliOption::Channel)
    } else {
        None
    }
}

/// The option and value of an argument of the form `--name=value`.
pub open spec fn assign_option(t: Seq<char>, with_channel: bool) -> Option<(CliOption, Seq<char>)> {
    if starts_with_text(t, "--port="@) {
        Some((CliOption::Port, t.skip("--port="@.len() as int)))
    } else if starts_with_text(t, "--vid="@) {
        Some((CliOption::Vid, t.skip("--vid="@.len() as int)))
    } else if starts_with_text(t, "--pid="@) {
        Some((CliOption::Pid, t.skip("--pid="@.len() as int)))
    } else if starts_with_text(t, "--mode="@) {
        Some((CliOption::Mode, t.skip("--mode="@.len() as int)))
    } else if with_channel && starts_with_text(t, "--channel="@) {
        Some((CliOption::Channel, t.skip("--channel="@.len() as int)))
    } else {
        None
    }
}

/// A decimal value in `0..=max`, read as an `i64`, or the reason it is refused
/// (a value out of range is named as Rust displays it).
pub open spec fn decimal_in_range(v: Seq<char>, max: int, range_text: Seq<char>) -> Result<int, Seq<char>> {
    match spec_parse_i64(v) {
        Err(e) => Err(int_error_text(e)),
        Ok(n) => if 0 <= n <= max {
            Ok(n)
        } else {
            Err(int_text(n) + range_text)
        },
    }
}

pub open spec fn option_given(acc: CliValues, o: CliOption) -> bool {
    match o {
        CliOption::Port => acc.port is Some,
        CliOption::Vid => acc.vid is Some,
        CliOption::Pid => acc.pid is Some,
        CliOption::Mode => acc.mode is Some,
        CliOption::Channel => acc.channel is Some,
    }
}

/// `acc` with option `o` set from the text `v`, or the reason `v` is refused.
pub open spec fn set_value(acc: CliValues, o: CliOption, v: Seq<char>) -> Result<CliValues, Seq<char>> {
    match o {
        CliOption::Port => match decimal_in_range(v, 65535, " is not in 0..=65535"@) {
            Ok(n) => Ok(CliValues { port: Some(n as u16), ..acc }),
            Err(r) => Err(r),
        },
        CliOption::Vid => match spec_parse_hex_u16(v) {
            Ok(n) => Ok(CliValues { vid: Some(n), ..acc }),
            Err(r) => Err(r),
        },
        CliOption::Pid => match spec_parse_hex_u16(v) {
            Ok(n) => Ok(CliValues { pid: Some(n), ..acc }),
            Err(r) => Err(r),
        },
        CliOption::Mode => if v == "bitbang"@ {
            Ok(CliValues { mode: Some(BackendMode::Bitbang), ..acc })
        } else if v == "mpsse"@ {
            Ok(CliValues { mode: Some(BackendMode::Mpsse), ..acc })
        } else {
            Err("possible values: bitbang, mpsse"@)
        },
        CliOption::Channel => match decimal_in_range(v, 255, " is not in 0..=255"@) {
            Ok(n) => Ok(CliValues { channel: Some(n as u8), ..acc }),
            Err(r) => Err(r),
        },
    }
}

/// Records the value `v` for option `o`; an option may be given only once.
pub open spec fn take_value(acc: CliValues, o: CliOption, v: Seq<char>) -> Result<CliValues, CliFailure> {
    if option_given(acc, o) {
        Err(CliFailure::Repeated(o))
    } else {
        match set_value(acc, o, v) {
            Ok(a) => Ok(a),
            Err(r) => Err(CliFailure::Invalid(o, v, r)),
        }
    }
}

/// The option named by a short letter (`P` for `-P`, ...).
pub open spec fn short_option(c: char, with_channel: bool) -> Option<CliOption> {
    if c == 'P' {
        Some(CliOption::Port)
    } else if c == 'v' {
        Some(CliOption::Vid)
    } else if c == 'p' {
        Some(CliOption::Pid)
    } else if c == 'm' {
        Some(CliOption::Mode)
    } else if with_channel && c == 'c' {
        Some(CliOption::Channel)
    } else {
        None
    }
}

/// A value written straight after a short option's letter, one leading `=` dropped.
pub open spec fn attached_value(rest: Seq<char>) -> Seq<char> {
    if rest.len() > 0 && rest[0] == '=' {
        rest.skip(1)
    } else {
        rest
    }
}

/// A short option's letter with more text after it, as in `-P3000` or `-P=3000`.
pub open spec fn is_short_cluster(t: Seq<char>) -> bool {
    t.len() > 2 && t[0] == '-' && t[1] != '-'
}

/// Reads the arguments from index `i` on, left to right, stopping at the first
/// one that is not accepted.
pub open spec fn scan_args(args: Seq<Seq<char>>, i: int, acc: CliValues, with_channel: bool) -> Result<CliValues, CliFailure>
    decreases args.len() - i,
{
    if i < 0 || i >= args.len() {
        Ok(acc)
    } else {
        let t = args[i];
        if t == "--"@ {
            if i + 1 < args.len() {
                Err(CliFailure::Unexpected(args[i + 1]))
            } else {
                Ok(acc)
            }
        } else if t == "--help"@ || t == "-h"@ {
            Err(CliFailure::Help)
        } else if t == "--version"@ || t == "-V"@ {
            Err(CliFailure::Version)
        } else {
            match flag_option(t, with_channel) {
                Some(o) => if i + 1 >= args.len() || looks_like_flag(args[i + 1]) {
                    Err(CliFailure::MissingValue(o))
                } else {
                    match take_value(acc, o, args[i + 1]) {
                        Ok(a) => scan_args(args, i + 2, a, with_channel),
                        Err(e) => Err(e),
                    }
                },
                None => match assign_option(t, with_channel) {
                    Some((o, v)) => match take_value(acc, o, v) {
                        Ok(a) => scan_args(args, i + 1, a, with_channel),
                        Err(e) => Err(e),
                    },
                    None => if is_short_cluster(t) {
                        if t[1] == 'h' {
                            Err(CliFailure::Help)
                        } else if t[1] == 'V' {
                            Err(CliFailure::Version)
                        } else {
                            match short_option(t[1], with_channel) {
                                Some(o) => match take_value(acc, o, attached_value(t.skip(2))) {
                                    Ok(a) => scan_args(args, i + 1, a, with_channel),
                                    Err(e) => Err(e),
                                },
                                None => Err(CliFailure::Unexpected(t.subrange(0, 2))),
                            }
                        }
                    } else {
                        Err(CliFailure::Unexpected(t))
                    },
                },
            }
        }
    }
}

/// The values on a command line; `args[0]` is the program's name.
pub open spec fn spec_cli_values(args: Seq<Seq<char>>, with_channel: bool) -> Result<CliValues, CliFailure> {
    scan_args(args, 1, no_values(), with_channel)
}

pub open spec fn arg_views(args: Seq<&str>) -> Seq<Seq<char>> {
    args.map_values(|a: &str| a@)
}

fn chars_equal(a: &[char], lit: &str) -> (r: bool)
    ensures
        r == (a@ == lit@),
{
    let b = str_chars(lit);
    if a.len() != b.len() {
        return false;
    }
    let mut i: usize = 0;
    while i < a.len()
        invariant
            i <= a@.len(),
            a@.len() == b@.len(),
            b@ == lit@,
            forall|k: int| 0 <= k < i ==> a@[k] == b@[k],
        decreases a@.len() - i,
    {
        if a[i] != b[i] {
            return false;
        }
        i = i + 1;
    }
    assert(a@ =~= b@);
    true
}

fn chars_start_with(a: &[char], lit: &str) -> (r: bool)
    ensures
        r == starts_with_text(a@, lit@),
{
    let b = str_chars(lit);
    if a.len() < b.len() {
        return false;
    }
    let mut i: usize = 0;
    while i < b.len()
        invariant
            i <= b@.len(),
            b@.len() <= a@.len(),
            b@ == lit@,
            forall|k: int| 0 <= k < i ==> a@[k] == b@[k],
        decreases b@.len() - i,
    {
        if a[i] != b[i] {
            assert(a@.subrange(0, b@.len() as int)[i as int] != b@[i as int]);
            return false;
        }
        i = i + 1;
    }
    assert(a@.subrange(0, b@.len() as int) =~= b@);
    true
}

fn flag_option_of(t: &[char], with_channel: bool) -> (r: Option<CliOption>)
    ensures
        r == flag_option(t@, with_channel),
{
    if chars_equal(t, "--port") || chars_equal(t, "-P") {
        Some(CliOption::Port)
    } else if chars_equal(t, "--vid") || chars_equal(t, "-v") {
        Some(CliOption::Vid)
    } else if chars_equal(t, "--pid") || chars_equal(t, "-p") {
        Some(CliOption::Pid)
    } else if chars_equal(t, "--mode") || chars_equal(t, "-m") {
        Some(CliOption::Mode)
    } else if with_channel && (chars_equal(t, "--channel") || chars_equal(t, "-c")) {
        Some(CliOption::Channel)
    } else {
        None
    }
}

fn short_option_of(c: char, with_channel: bool) -> (r: Option<CliOption>)
    ensures
        r == short_option(c, with_channel),
{
    if c == 'P' {
        Some(CliOption::Port)
    } else if c == 'v' {
        Some(CliOption::Vid)
    } else if c == 'p' {
        Some(CliOption::Pid)
    } else if c == 'm' {
        Some(CliOption::Mode)
    } else if with_channel && c == 'c' {
        Some(CliOption::Channel)
    } else {
        None
    }
}

/// The option of a `--name=value` argument, and where its value starts.
fn assign_option_of(t: &[char], with_channel: bool) -> (r: Option<(CliOption, usize)>)
    ensures
        match (assign_option(t@, with_channel), r) {
            (None, None) => true,
            (Some((o, v)), Some((o2, k))) => o == o2 && k <= t@.len() && v == t@.skip(k as int),
            _ => false,
        },
{
    if chars_start_with(t, "--port=") {
        Some((CliOption::Port, "--port=".unicode_len()))
    } else if chars_start_with(t, "--vid=") {
        Some((CliOption::Vid, "--vid=".unicode_len()))
    } else if chars_start_with(t, "--pid=") {
        Some((CliOption::Pid, "--pid=".unicode_len()))
    } else if chars_start_with(t, "--mode=") {
        Some((CliOption::Mode, "--mode=".unicode_len()))
    } else if with_channel && chars_start_with(t, "--channel=") {
        Some((CliOption::Channel, "--channel=".unicode_len()))
    } else {
        None
    }
}

/// Reads a decimal `i64` the way Rust's `str::parse` does.
fn parse_i64(s: &[char]) -> (r: Result<i64, IntErrorKind>)
    ensures
        match spec_parse_i64(s@) {
            Ok(v) => r == Ok::<i64, IntErrorKind>(v as i64) && i64::MIN <= v <= i64::MAX,
            Err(e) => r == Err::<i64, IntErrorKind>(e),
        },
{
    if s.len() >= 2 && s[0] == '-' {
        if s[1] == '+' {
            return Err(IntErrorKind::InvalidDigit);
        }
        let rest = vstd::slice::slice_subrange(s, 1, s.len());
        assert(rest@ =~= s@.drop_first());
        match parse_unsigned(rest, 10, 0x8000_0000_0000_0000u64) {
            Ok(m) => {
                if m == 0x8000_0000_0000_0000u64 {
                    Ok(i64::MIN)
                } else {
                    Ok(-(m as i64))
                }
            },
            Err(IntErrorKind::PosOverflow) => Err(IntErrorKind::NegOverflow),
            Err(e) => Err(e),
        }
    } else {
        match parse_unsigned(s, 10, 0x7fff_ffff_ffff_ffffu64) {
            Ok(v) => Ok(v as i64),
            Err(e) => Err(e),
        }
    }
}

/// The text of decimal digit `d`.
fn digit_str(d: u64) -> (t: &'static str)
    requires
        d < 10,
    ensures
        t@ == seq![digit_char(d as int)],
{
    proof {
        reveal_strlit("0");
        reveal_strlit("1");
        reveal_strlit("2");
        reveal_strlit("3");
        reveal_strlit("4");
        reveal_strlit("5");
        reveal_strlit("6");
        reveal_strlit("7");
        reveal_strlit("8");
        reveal_strlit("9");
    }
    if d == 0 {
        "0"
    } else if d == 1 {
        "1"
    } else if d == 2 {
        "2"
    } else if d == 3 {
        "3"
    } else if d == 4 {
        "4"
    } else if d == 5 {
        "5"
    } else if d == 6 {
        "6"
    } else if d == 7 {
        "7"
    } else if d == 8 {
        "8"
    } else {
        "9"
    }
}

/// Appends the decimal digits of `n`.
fn append_nat_text(s: &mut String, n: u64)
    ensures
        final(s)@ == old(s)@ + nat_text(n as nat),
    decreases n,
{
    if n >= 10 {
        append_nat_text(s, n / 10);
    }
    let d = digit_str(n % 10);
    s.append(d);
    proof {
        if n >= 10 {
            assert(old(s)@ + nat_text(n as nat) =~= old(s)@ + nat_text((n / 10) as nat) + seq![digit_char((n % 10) as int)]);
        } else {
            assert(n % 10 == n);
        }
    }
}

/// How Rust displays `v`.
fn int_text_string(v: i64) -> (t: String)
    ensures
        t@ == int_text(v as int),
{
    if v < 0 {
        let mut t = String::from_str("-");
        proof {
            reveal_strlit("-");
        }
        let m: u64 = if v == i64::MIN {
            0x8000_0000_0000_0000u64
        } else {
            (-v) as u64
        };
        append_nat_text(&mut t, m);
        t
    } else {
        let mut t = String::from_str("");
        proof {
            reveal_strlit("");
        }
        append_nat_text(&mut t, v as u64);
        assert(t@ =~= int_text(v as int));
        t
    }
}

fn decimal_value(v: &str, max: u64, range_text: &str) -> (r: Result<u64, String>)
    requires
        16 <= max <= i64::MAX,
    ensures
        match (decimal_in_range(v@, max as int, range_text@), r) {
            (Ok(a), Ok(b)) => a == b && b <= max,
            (Err(a), Err(b)) => a == b@,
            _ => false,
        },
{
    let chars = str_chars(v);
    match parse_i64(chars.as_slice()) {
        Err(e) => Err(int_error_string(e)),
        Ok(n) => {
            if 0 <= n && n as u64 <= max {
                Ok(n as u64)
            } else {
                let mut msg = int_text_string(n);
                msg.append(range_text);
                Err(msg)
            }
        },
    }
}

/// `acc` with option `o` set from the text `v`, or the reason `v` is refused.
fn set_value_exec(acc: CliValues, o: CliOption, v: &str) -> (r: Result<CliValues, String>)
    ensures
        match (set_value(acc, o, v@), r) {
            (Ok(a), Ok(b)) => a == b,
            (Err(a), Err(b)) => a == b@,
            _ => false,
        },
{
    match o {
        CliOption::Port => match decimal_value(v, 65535, " is not in 0..=65535") {
            Ok(n) => Ok(CliValues { port: Some(n as u16), ..acc }),
            Err(r) => Err(r),
        },
        CliOption::Vid => match parse_hex_u16(v) {
            Ok(n) => Ok(CliValues { vid: Some(n), ..acc }),
            Err(r) => Err(r),
        },
        CliOption::Pid => match parse_hex_u16(v) {
            Ok(n) => Ok(CliValues { pid: Some(n), ..acc }),
            Err(r) => Err(r),
        },
        CliOption::Mode => {
            let chars = str_chars(v);
            if chars_equal(chars.as_slice(), "bitbang") {
                Ok(CliValues { mode: Some(BackendMode::Bitbang), ..acc })
            } else if chars_equal(chars.as_slice(), "mpsse") {
                Ok(CliValues { mode: Some(BackendMode::Mpsse), ..acc })
            } else {
                Err(String::from_str("possible values: bitbang, mpsse"))
            }
        },
        CliOption::Channel => match decimal_value(v, 255, " is not in 0..=255") {
            Ok(n) => Ok(CliValues { channel: Some(n as u8), ..acc }),
            Err(r) => Err(r),
        },
    }
}

fn option_given_exec(acc: &CliValues, o: CliOption) -> (r: bool)
    ensures
        r == option_given(*acc, o),
{
    match o {
        CliOption::Port => acc.port.is_some(),
        CliOption::Vid => acc.vid.is_some(),
        CliOption::Pid => acc.pid.is_some(),
        CliOption::Mode => acc.mode.is_some(),
        CliOption::Channel => acc.channel.is_some(),
    }
}

fn take_value_exec(acc: CliValues, o: CliOption, v: &str) -> (r: Result<CliValues, CliError>)
    ensures
        match (take_value(acc, o, v@), r) {
            (Ok(a), Ok(b)) => a == b,
            (Err(a), Err(b)) => a == b@,
            _ => false,
        },
{
    if option_given_exec(&acc, o) {
        return Err(CliError::Repeated(o));
    }
    match set_value_exec(acc, o, v) {
        Ok(a) => Ok(a),
        Err(reason) => Err(CliError::InvalidValue { option: o, value: String::from_str(v), reason }),
    }
}

/// Reads a command line (`args[0]` being the program's name) into the values
/// it gives; `with_channel` says whether the program has the `--channel` option.
pub fn parse_cli_values(args: &[&str], with_channel: bool) -> (r: Result<CliValues, CliError>)
    ensures
        match (spec_cli_values(arg_views(args@), with_channel), r) {
            (Ok(a), Ok(b)) => a == b,
            (Err(a), Err(b)) => a == b@,
            _ => false,
        },
{
    let ghost av = arg_views(args@);
    let mut acc = CliValues { port: None, vid: None, pid: None, mode: None, channel: None };
    let mut i: usize = 1;
    if args.len() == 0 {
        return Ok(acc);
    }
    while i < args.len()
        invariant
            1 <= i,
            av == arg_views(args@),
            av.len() == args@.len(),
            spec_cli_values(av, with_channel) == scan_args(av, i as int, acc, with_channel),
        decreases args@.len() - i,
    {
        let t = str_chars(args[i]);
        assert(t@ == av[i as int]);
        if chars_equal(t.as_slice(), "--") {
            if i + 1 < args.len() {
                return Err(CliError::UnexpectedArgument(String::from_str(args[i + 1])));
            }
            return Ok(acc);
        }
        if chars_equal(t.as_slice(), "--help") || chars_equal(t.as_slice(), "-h") {
            return Err(CliError::DisplayHelp);
        }
        if chars_equal(t.as_slice(), "--version") || chars_equal(t.as_slice(), "-V") {
            return Err(CliError::DisplayVersion);
        }
        match flag_option_of(t.as_slice(), with_channel) {
            Some(o) => {
                if i + 1 >= args.len() {
                    return Err(CliError::MissingValue(o));
                }
                let next = str_chars(args[i + 1]);
                assert(next@ == av[i + 1]);
                if next.len() > 1 && next[0] == '-' {
                    return Err(CliError::MissingValue(o));
                }
                match take_value_exec(acc, o, args[i + 1]) {
                    Ok(a) => {
                        acc = a;
                        i = i + 2;
                    },
                    Err(e) => {
                        return Err(e);
                    },
                }
            },
            None => {
                match assign_option_of(t.as_slice(), with_channel) {
                    Some((o, k)) => {
                        let v = args[i].substring_char(k, t.len());
                        assert(v@ =~= t@.skip(k as int));
                        match take_value_exec(acc, o, v) {
                            Ok(a) => {
                                acc = a;
                                i = i + 1;
                            },
                            Err(e) => {
                                return Err(e);
                            },
                        }
                    },
                    None => {
                        if t.len() > 2 && t[0] == '-' && t[1] != '-' {
                            if t[1] == 'h' {
                                return Err(CliError::DisplayHelp);
                            }
                            if t[1] == 'V' {
                                return Err(CliError::DisplayVersion);
                            }
                            match short_option_of(t[1], with_channel) {
                                Some(o) => {
                                    let from: usize = if t[2] == '=' {
                                        3
                                    } else {
                                        2
                                    };
                                    let v = args[i].substring_char(from, t.len());
                                    assert(v@ =~= attached_value(t@.skip(2)));
                                    match take_value_exec(acc, o, v) {
                                        Ok(a) => {
                                            acc = a;
                                            i = i + 1;
                                        },
                                        Err(e) => {
                                            return Err(e);
                                        },
                                    }
                                },
                                None => {
                                    let flag = args[i].substring_char(0, 2);
                                    return Err(CliError::UnexpectedArgument(String::from_str(flag)));
                                },
                            }
                        } else {
                            return Err(CliError::UnexpectedArgument(String::from_str(args[i])));
                        }
                    },
                }
            },
        }
    }
    Ok(acc)
}

/// How an option is shown in messages.
pub open spec fn option_display(o: CliOption) -> Seq<char> {
    match o {
        CliOption::Port => "--port <PORT>"@,
        CliOption::Vid => "--vid <VID>"@,
        CliOption::Pid => "--pid <PID>"@,
        CliOption::Mode => "--mode <MODE>"@,
        CliOption::Channel => "--channel <CHANNEL>"@,
    }
}

/// The message for a refused command line.
pub open spec fn cli_error_text(e: CliFailure) -> Seq<char> {
    match e {
        CliFailure::Help => "Xilinx Virtual Cable Daemon in Rust"@,
        CliFailure::Version => "Xilinx Virtual Cable Daemon in Rust"@,
        CliFailure::Unexpected(t) => "error: unexpected argument '"@ + t + "' found"@,
        CliFailure::MissingValue(o) => "error: a value is required for '"@ + option_display(o)
            + "' but none was supplied"@,
        CliFailure::Repeated(o) => "error: the argument '"@ + option_display(o)
            + "' cannot be used multiple times"@,
        CliFailure::Invalid(o, v, r) => "error: invalid value '"@ + v + "' for '"@ + option_display(o)
            + "': "@ + r,
    }
}

fn option_display_string(o: CliOption) -> (t: String)
    ensures
        t@ == option_display(o),
{
    match o {
        CliOption::Port => String::from_str("--port <PORT>"),
        CliOption::Vid => String::from_str("--vid <VID>"),
        CliOption::Pid => String::from_str("--pid <PID>"),
        CliOption::Mode => String::from_str("--mode <MODE>"),
        CliOption::Channel => String::from_str("--channel <CHANNEL>"),
    }
}

impl CliError {
    /// The message for this error.
    pub fn to_string(&self) -> (t: String)
        ensures
            t@ == cli_error_text(self@),
    {
        match self {
            CliError::DisplayHelp => String::from_str("Xilinx Virtual Cable Daemon in Rust"),
            CliError::DisplayVersion => String::from_str("Xilinx Virtual Cable Daemon in Rust"),
            CliError::UnexpectedArgument(a) => {
                let mut m = String::from_str("error: unexpected argument '");
                m.append(a.as_str());
                m.append("' found");
                m
            },
            CliError::MissingValue(o) => {
                let mut m = String::from_str("error: a value is required for '");
                let d = option_display_string(*o);
                m.append(d.as_str());
                m.append("' but none was supplied");
                m
            },
            CliError::Repeated(o) => {
                let mut m = String::from_str("error: the argument '");
                let d = option_display_string(*o);
                m.append(d.as_str());
                m.append("' cannot be used multiple times");
                m
            },
            CliError::InvalidValue { option, value, reason } => {
                let mut m = String::from_str("error: invalid value '");
                m.append(value.as_str());
                m.append("' for '");
                let d = option_display_string(*option);
                m.append(d.as_str());
                m.append("': ");
                m.append(reason.as_str());
                m
            },
        }
    }
}

/// Listening port when none is given.
pub const DEFAULT_PORT: u16 = 2542;

/// USB vendor ID when none is given (FTDI).
pub const DEFAULT_VID: u16 = 0x0403;

/// USB product ID when none is given (FT2232).
pub const DEFAULT_PID: u16 = 0x6010;

/// Interface index when none is given (channel A).
pub const DEFAULT_CHANNEL: u8 = 0;

/// The daemon's configuration.
#[derive(Clone, Copy, Debug)]
pub struct CliArgs {
    pub port: u16,
    pub vid: u16,
    pub pid: u16,
    pub mode: BackendMode,
    /// Hardware channel port selection index (0 = Channel A, 1 = Channel B, etc.)
    pub channel: u8,
}

/// The configuration for the given values, with the defaults for those left out.
pub open spec fn args_from_values(v: CliValues) -> CliArgs {
    CliArgs {
        port: match v.port {
            Some(p) => p,
            None => DEFAULT_PORT,
        },
        vid: match v.vid {
            Some(x) => x,
            None => DEFAULT_VID,
        },
        pid: match v.pid {
            Some(x) => x,
            None => DEFAULT_PID,
        },
        mode: match v.mode {
            Some(m) => m,
            None => BackendMode::Bitbang,
        },
        channel: match v.channel {
            Some(c) => c,
            None => DEFAULT_CHANNEL,
        },
    }
}

impl CliArgs {
    /// Reads the configuration from a command line whose first element is the
    /// program's name.
    pub fn try_parse_from(args: &[&str]) -> (r: Result<CliArgs, CliError>)
        ensures
            match (spec_cli_values(arg_views(args@), true), r) {
                (Ok(v), Ok(a)) => a == args_from_values(v),
                (Err(e), Err(e2)) => e == e2@,
                _ => false,
            },
    {
        match parse_cli_values(args, true) {
            Err(e) => Err(e),
            Ok(v) => Ok(CliArgs {
                port: match v.port {
                    Some(p) => p,
                    None => DEFAULT_PORT,
                },
                vid: match v.vid {
                    Some(x) => x,
                    None => DEFAULT_VID,
                },
                pid: match v.pid {
                    Some(x) => x,
                    None => DEFAULT_PID,
                },
                mode: match v.mode {
                    Some(m) => m,
                    None => BackendMode::Bitbang,
                },
                channel: match v.channel {
                    Some(c) => c,
                    None => DEFAULT_CHANNEL,
                },
            }),
        }
    }
}

/// A hexadecimal ID reads the same with or without a leading `0x`.
pub proof fn lemma_hex_prefix_optional(s: Seq<char>)
    requires
        !(s.len() >= 2 && s[0] == '0' && s[1] == 'x'),
    ensures
        spec_parse_hex_u16("0x"@ + s) is Ok <==> spec_parse_hex_u16(s) is Ok,
        spec_parse_hex_u16(s) is Ok ==> spec_parse_hex_u16("0x"@ + s) == spec_parse_hex_u16(s),
{
    reveal_strlit("0x");
    assert(strip_hex_prefix("0x"@ + s) =~= s);
}

proof fn lemma_option_literals()
    ensures
        "--"@ =~= seq!['-', '-'],
        "--help"@ =~= seq!['-', '-', 'h', 'e', 'l', 'p'],
        "-h"@ =~= seq!['-', 'h'],
        "--version"@ =~= seq!['-', '-', 'v', 'e', 'r', 's', 'i', 'o', 'n'],
        "-V"@ =~= seq!['-', 'V'],
        "--port"@ =~= seq!['-', '-', 'p', 'o', 'r', 't'],
        "-P"@ =~= seq!['-', 'P'],
        "--vid"@ =~= seq!['-', '-', 'v', 'i', 'd'],
        "-v"@ =~= seq!['-', 'v'],
        "--pid"@ =~= seq!['-', '-', 'p', 'i', 'd'],
        "-p"@ =~= seq!['-', 'p'],
        "--mode"@ =~= seq!['-', '-', 'm', 'o', 'd', 'e'],
        "-m"@ =~= seq!['-', 'm'],
        "--channel"@ =~= seq!['-', '-', 'c', 'h', 'a', 'n', 'n', 'e', 'l'],
        "-c"@ =~= seq!['-', 'c'],
        "--port="@ =~= seq!['-', '-', 'p', 'o', 'r', 't', '='],
        "--vid="@ =~= seq!['-', '-', 'v', 'i', 'd', '='],
        "--pid="@ =~= seq!['-', '-', 'p', 'i', 'd', '='],
        "--mode="@ =~= seq!['-', '-', 'm', 'o', 'd', 'e', '='],
        "--channel="@ =~= seq!['-', '-', 'c', 'h', 'a', 'n', 'n', 'e', 'l', '='],
        "-P="@ =~= seq!['-', 'P', '='],
        "-v="@ =~= seq!['-', 'v', '='],
        "-p="@ =~= seq!['-', 'p', '='],
        "-m="@ =~= seq!['-', 'm', '='],
        "-c="@ =~= seq!['-', 'c', '='],
        "--"@.len() == 2,
        "--help"@.len() == 6,
        "-h"@.len() == 2,
        "--version"@.len() == 9,
        "-V"@.len() == 2,
        "--port"@.len() == 6,
        "-P"@.len() == 2,
        "--vid"@.len() == 5,
        "-v"@.len() == 2,
        "--pid"@.len() == 5,
        "-p"@.len() == 2,
        "--mode"@.len() == 6,
        "-m"@.len() == 2,
        "--channel"@.len() == 9,
        "-c"@.len() == 2,
        "--port="@.len() == 7,
        "--vid="@.len() == 6,
        "--pid="@.len() == 6,
        "--mode="@.len() == 7,
        "--channel="@.len() == 10,
        "-P="@.len() == 3,
        "-v="@.len() == 3,
        "-p="@.len() == 3,
        "-m="@.len() == 3,
        "-c="@.len() == 3,
{
    reveal_strlit("--");
    reveal_strlit("--help");
    reveal_strlit("-h");
    reveal_strlit("--version");
    reveal_strlit("-V");
    reveal_strlit("--port");
    reveal_strlit("-P");
    reveal_strlit("--vid");
    reveal_strlit("-v");
    reveal_strlit("--pid");
    reveal_strlit("-p");
    reveal_strlit("--mode");
    reveal_strlit("-m");
    reveal_strlit("--channel");
    reveal_strlit("-c");
    reveal_strlit("--port=");
    reveal_strlit("--vid=");
    reveal_strlit("--pid=");
    reveal_strlit("--mode=");
    reveal_strlit("--channel=");
    reveal_strlit("-P=");
    reveal_strlit("-v=");
    reveal_strlit("-p=");
    reveal_strlit("-m=");
    reveal_strlit("-c=");
}

/// Reading the arguments from a point on depends only on the arguments from
/// that point on.
proof fn lemma_scan_shift(a1: Seq<Seq<char>>, i1: int, a2: Seq<Seq<char>>, i2: int, acc: CliValues, wc: bool)
    requires
        0 <= i1 <= a1.len(),
        0 <= i2 <= a2.len(),
        a1.skip(i1) == a2.skip(i2),
    ensures
        scan_args(a1, i1, acc, wc) == scan_args(a2, i2, acc, wc),
    decreases a1.len() - i1,
{
    assert(a1.len() - i1 == a2.len() - i2) by {
        assert(a1.skip(i1).len() == a2.skip(i2).len());
    }
    if i1 < a1.len() {
        let t = a1[i1];
        assert(t == a1.skip(i1)[0]);
        assert(a2[i2] == a2.skip(i2)[0]);
        if i1 + 1 < a1.len() {
            assert(a1[i1 + 1] == a1.skip(i1)[1]);
            assert(a2[i2 + 1] == a2.skip(i2)[1]);
        }
        if i1 + 1 <= a1.len() {
            assert(a1.skip(i1 + 1) =~= a1.skip(i1).skip(1));
            assert(a2.skip(i2 + 1) =~= a2.skip(i2).skip(1));
        }
        if i1 + 2 <= a1.len() {
            assert(a1.skip(i1 + 2) =~= a1.skip(i1).skip(2));
            assert(a2.skip(i2 + 2) =~= a2.skip(i2).skip(2));
        }
        if t == "--"@ || t == "--help"@ || t == "-h"@ || t == "--version"@ || t == "-V"@ {
        } else {
            match flag_option(t, wc) {
                Some(o) => {
                    if i1 + 1 < a1.len() && !looks_like_flag(a1[i1 + 1]) {
                        match take_value(acc, o, a1[i1 + 1]) {
                            Ok(a) => {
                                lemma_scan_shift(a1, i1 + 2, a2, i2 + 2, a, wc);
                            },
                            Err(_) => {},
                        }
                    }
                },
                None => {
                    match assign_option(t, wc) {
                        Some((o, v)) => {
                            match take_value(acc, o, v) {
                                Ok(a) => {
                                    lemma_scan_shift(a1, i1 + 1, a2, i2 + 1, a, wc);
                                },
                                Err(_) => {},
                            }
                        },
                        None => {
                            if is_short_cluster(t) && t[1] != 'h' && t[1] != 'V' {
                                match short_option(t[1], wc) {
                                    Some(o) => {
                                        match take_value(acc, o, attached_value(t.skip(2))) {
                                            Ok(a) => {
                                                lemma_scan_shift(a1, i1 + 1, a2, i2 + 1, a, wc);
                                            },
                                            Err(_) => {},
                                        }
                                    },
                                    None => {},
                                }
                            }
                        },
                    }
                },
            }
        }
    }
}

/// The arguments that end option parsing or ask for help or the version.
pub open spec fn is_special_argument(t: Seq<char>) -> bool {
    t == "--"@ || t == "--help"@ || t == "-h"@ || t == "--version"@ || t == "-V"@
}

/// The program's name is not read as an option.
proof fn lemma_drop_prog(prog: Seq<char>, x: Seq<Seq<char>>, wc: bool)
    ensures
        spec_cli_values(seq![prog] + x, wc) == scan_args(x + Seq::<Seq<char>>::empty(), 0, no_values(), wc),
{
    assert((seq![prog] + x).skip(1) =~= (x + Seq::<Seq<char>>::empty()).skip(0));
    lemma_scan_shift(seq![prog] + x, 1, x + Seq::<Seq<char>>::empty(), 0, no_values(), wc);
}

/// Reading goes on with `rest` from `a`, or stops at the failure.
pub open spec fn continue_scan(r: Result<CliValues, CliFailure>, rest: Seq<Seq<char>>, wc: bool) -> Result<
    CliValues,
    CliFailure,
> {
    match r {
        Ok(a) => scan_args(rest, 0, a, wc),
        Err(e) => Err(e),
    }
}

/// How one option with value `v` is read, whichever form it is written in: a
/// flag followed by the value, `--name=v`, or the value attached to the short
/// letter.
proof fn lemma_one_option_forms(t: Seq<char>, v: Seq<char>, rest: Seq<Seq<char>>, acc: CliValues, wc: bool, o: CliOption)
    requires
        !is_special_argument(t),
    ensures
        flag_option(t, wc) == Some(o) && !looks_like_flag(v) ==> scan_args(seq![t, v] + rest, 0, acc, wc)
            == continue_scan(take_value(acc, o, v), rest, wc),
        flag_option(t, wc) is None && assign_option(t, wc) == Some((o, v)) ==> scan_args(seq![t] + rest, 0, acc, wc)
            == continue_scan(take_value(acc, o, v), rest, wc),
        flag_option(t, wc) is None && assign_option(t, wc) is None && is_short_cluster(t) && t[1] != 'h' && t[1]
            != 'V' && short_option(t[1], wc) == Some(o) ==> scan_args(seq![t] + rest, 0, acc, wc) == continue_scan(
            take_value(acc, o, attached_value(t.skip(2))),
            rest,
            wc,
        ),
{
    lemma_option_literals();
    let a2 = seq![t, v] + rest;
    let a1 = seq![t] + rest;
    assert(a2[0] == t && a2[1] == v && a2.len() == rest.len() + 2);
    assert(a1[0] == t && a1.len() == rest.len() + 1);
    assert(a2.skip(2) =~= rest.skip(0));
    assert(a1.skip(1) =~= rest.skip(0));
    match take_value(acc, o, v) {
        Ok(a) => {
            lemma_scan_shift(a2, 2, rest, 0, a, wc);
            lemma_scan_shift(a1, 1, rest, 0, a, wc);
        },
        Err(_) => {},
    }
    match take_value(acc, o, attached_value(t.skip(2))) {
        Ok(a) => {
            lemma_scan_shift(a1, 1, rest, 0, a, wc);
        },
        Err(_) => {},
    }
}

/// A flag followed by its value, alone on a command line, is read as that value.
proof fn lemma_flag_then_value(prog: Seq<char>, t: Seq<char>, v: Seq<char>, wc: bool, o: CliOption)
    requires
        !is_special_argument(t),
        flag_option(t, wc) == Some(o),
        !looks_like_flag(v),
    ensures
        spec_cli_values(seq![prog, t, v], wc) == take_value(no_values(), o, v),
{
    let e = Seq::<Seq<char>>::empty();
    lemma_one_option_forms(t, v, e, no_values(), wc, o);
    lemma_drop_prog(prog, seq![t, v], wc);
    assert(seq![prog] + seq![t, v] =~= seq![prog, t, v]);
    assert(seq![t, v] + e =~= seq![t, v]);
    assert forall|a: CliValues| #[trigger] scan_args(e, 0, a, wc) == Ok::<CliValues, CliFailure>(a) by {}
}

/// An option written as one argument, alone on a command line, is read as its value.
proof fn lemma_single_token(prog: Seq<char>, t: Seq<char>, v: Seq<char>, wc: bool, o: CliOption)
    requires
        !is_special_argument(t),
        flag_option(t, wc) is None,
        assign_option(t, wc) == Some((o, v)) || (assign_option(t, wc) is None && is_short_cluster(t) && t[1]
            != 'h' && t[1] != 'V' && short_option(t[1], wc) == Some(o) && attached_value(t.skip(2)) == v),
    ensures
        spec_cli_values(seq![prog, t], wc) == take_value(no_values(), o, v),
{
    let e = Seq::<Seq<char>>::empty();
    lemma_one_option_forms(t, v, e, no_values(), wc, o);
    lemma_drop_prog(prog, seq![t], wc);
    assert(seq![prog] + seq![t] =~= seq![prog, t]);
    assert(seq![t] + e =~= seq![t]);
    assert forall|a: CliValues| #[trigger] scan_args(e, 0, a, wc) == Ok::<CliValues, CliFailure>(a) by {}
}

#[verifier::spinoff_prover]
#[verifier::rlimit(50)]
proof fn lemma_port_spellings(v: Seq<char>, wc: bool)
    ensures
        !is_special_argument("--port"@) && !is_special_argument("-P"@),
        !is_special_argument("--port="@ + v) && !is_special_argument("-P="@ + v),
        v.len() > 0 ==> !is_special_argument("-P"@ + v),
        flag_option("--port"@, wc) == Some(CliOption::Port),
        flag_option("-P"@, wc) == Some(CliOption::Port),
        flag_option("--port="@ + v, wc) is None,
        assign_option("--port="@ + v, wc) == Some((CliOption::Port, v)),
        flag_option("-P="@ + v, wc) is None,
        assign_option("-P="@ + v, wc) is None,
        is_short_cluster("-P="@ + v),
        ("-P="@ + v)[1] == 'P',
        attached_value(("-P="@ + v).skip(2)) == v,
        short_option('P', wc) == Some(CliOption::Port),
        v.len() > 0 && v[0] != '=' ==> {
            &&& flag_option("-P"@ + v, wc) is None
            &&& assign_option("-P"@ + v, wc) is None
            &&& is_short_cluster("-P"@ + v)
            &&& ("-P"@ + v)[1] == 'P'
            &&& attached_value(("-P"@ + v).skip(2)) == v
        },
{
    lemma_option_literals();
    let long_eq = "--port="@ + v;
    let short_eq = "-P="@ + v;
    let attached = "-P"@ + v;
    assert(long_eq.subrange(0, 7) =~= "--port="@);
    assert(long_eq.skip(7) =~= v);
    assert(short_eq.skip(2) =~= seq!['='] + v);
    assert((seq!['='] + v).skip(1) =~= v);
    assert(attached.skip(2) =~= v);
    assert(long_eq[0] == '-' && long_eq[1] == '-' && long_eq[2] == 'p' && long_eq[3] == 'o');
    assert(short_eq[0] == '-' && short_eq[1] == 'P' && short_eq[2] == '=');
    assert(v.len() > 0 ==> attached[0] == '-' && attached[1] == 'P' && attached[2] == v[0]);
}

/// `--port v`, `-P v`, `--port=v`, `-P=v` and `-Pv` all give `port`
/// the decimal value of `v`, which must lie in `0..=65535`, and leave every other option unset, so that it takes its
/// default; a value the option does not take is refused, naming the option.
#[verifier::spinoff_prover]
pub proof fn lemma_port_option(prog: Seq<char>, v: Seq<char>, wc: bool)
    ensures
        ({
            let expected = match decimal_in_range(v, 65535, " is not in 0..=65535"@) {
                Ok(x) => Ok((CliValues { port: Some(x as u16), vid: None, pid: None, mode: None, channel: None })),
                Err(r) => Err(CliFailure::Invalid(CliOption::Port, v, r)),
            };
            &&& !looks_like_flag(v) ==> spec_cli_values(seq![prog, "--port"@, v], wc) == expected
            &&& !looks_like_flag(v) ==> spec_cli_values(seq![prog, "-P"@, v], wc) == expected
            &&& spec_cli_values(seq![prog, "--port="@ + v], wc) == expected
            &&& spec_cli_values(seq![prog, "-P="@ + v], wc) == expected
            &&& v.len() > 0 && v[0] != '=' ==> spec_cli_values(seq![prog, "-P"@ + v], wc) == expected
        }),
{
    lemma_port_spellings(v, wc);
    if !looks_like_flag(v) {
        lemma_flag_then_value(prog, "--port"@, v, wc, CliOption::Port);
        lemma_flag_then_value(prog, "-P"@, v, wc, CliOption::Port);
    }
    lemma_single_token(prog, "--port="@ + v, v, wc, CliOption::Port);
    lemma_single_token(prog, "-P="@ + v, v, wc, CliOption::Port);
    if v.len() > 0 && v[0] != '=' {
        lemma_single_token(prog, "-P"@ + v, v, wc, CliOption::Port);
    }
}

/// Wherever it stands on the command line and whatever follows, `--port=v`,
/// `-P=v` and (for a value that is no flag) `-P v` are read exactly as
/// `--port v`.
pub proof fn lemma_port_forms_agree(v: Seq<char>, rest: Seq<Seq<char>>, acc: CliValues, wc: bool)
    ensures
        !looks_like_flag(v) ==> scan_args(seq!["--port="@ + v] + rest, 0, acc, wc) == scan_args(
            seq!["--port"@, v] + rest,
            0,
            acc,
            wc,
        ),
        !looks_like_flag(v) ==> scan_args(seq!["-P"@, v] + rest, 0, acc, wc) == scan_args(
            seq!["--port"@, v] + rest,
            0,
            acc,
            wc,
        ),
        scan_args(seq!["-P="@ + v] + rest, 0, acc, wc) == scan_args(seq!["--port="@ + v] + rest, 0, acc, wc),
{
    lemma_port_spellings(v, wc);
    lemma_one_option_forms("--port"@, v, rest, acc, wc, CliOption::Port);
    lemma_one_option_forms("-P"@, v, rest, acc, wc, CliOption::Port);
    lemma_one_option_forms("--port="@ + v, v, rest, acc, wc, CliOption::Port);
    lemma_one_option_forms("-P="@ + v, v, rest, acc, wc, CliOption::Port);
}

#[verifier::spinoff_prover]
#[verifier::rlimit(50)]
proof fn lemma_vid_spellings(v: Seq<char>, wc: bool)
    ensures
        !is_special_argument("--vid"@) && !is_special_argument("-v"@),
        !is_special_argument("--vid="@ + v) && !is_special_argument("-v="@ + v),
        v.len() > 0 ==> !is_special_argument("-v"@ + v),
        flag_option("--vid"@, wc) == Some(CliOption::Vid),
        flag_option("-v"@, wc) == Some(CliOption::Vid),
        flag_option("--vid="@ + v, wc) is None,
        assign_option("--vid="@ + v, wc) == Some((CliOption::Vid, v)),
        flag_option("-v="@ + v, wc) is None,
        assign_option("-v="@ + v, wc) is None,
        is_short_cluster("-v="@ + v),
        ("-v="@ + v)[1] == 'v',
        attached_value(("-v="@ + v).skip(2)) == v,
        short_option('v', wc) == Some(CliOption::Vid),
        v.len() > 0 && v[0] != '=' ==> {
            &&& flag_option("-v"@ + v, wc) is None
            &&& assign_option("-v"@ + v, wc) is None
            &&& is_short_cluster("-v"@ + v)
            &&& ("-v"@ + v)[1] == 'v'
            &&& attached_value(("-v"@ + v).skip(2)) == v
        },
{
    lemma_option_literals();
    let long_eq = "--vid="@ + v;
    let short_eq = "-v="@ + v;
    let attached = "-v"@ + v;
    assert(long_eq.subrange(0, 6) =~= "--vid="@);
    assert(long_eq.skip(6) =~= v);
    assert(short_eq.skip(2) =~= seq!['='] + v);
    assert((seq!['='] + v).skip(1) =~= v);
    assert(attached.skip(2) =~= v);
    assert(long_eq[0] == '-' && long_eq[1] == '-' && long_eq[2] == 'v' && long_eq[3] == 'i');
    assert(short_eq[0] == '-' && short_eq[1] == 'v' && short_eq[2] == '=');
    assert(v.len() > 0 ==> attached[0] == '-' && attached[1] == 'v' && attached[2] == v[0]);
}

/// `--vid v`, `-v v`, `--vid=v`, `-v=v` and `-vv` all give `vid`
/// the hexadecimal value of `v` (with or without `0x`), and leave every other option unset, so that it takes its
/// default; a value the option does not take is refused, naming the option.
#[verifier::spinoff_prover]
pub proof fn lemma_vid_option(prog: Seq<char>, v: Seq<char>, wc: bool)
    ensures
        ({
            let expected = match spec_parse_hex_u16(v) {
                Ok(x) => Ok((CliValues { port: None, vid: Some(x), pid: None, mode: None, channel: None })),
                Err(r) => Err(CliFailure::Invalid(CliOption::Vid, v, r)),
            };
            &&& !looks_like_flag(v) ==> spec_cli_values(seq![prog, "--vid"@, v], wc) == expected
            &&& !looks_like_flag(v) ==> spec_cli_values(seq![prog, "-v"@, v], wc) == expected
            &&& spec_cli_values(seq![prog, "--vid="@ + v], wc) == expected
            &&& spec_cli_values(seq![prog, "-v="@ + v], wc) == expected
            &&& v.len() > 0 && v[0] != '=' ==> spec_cli_values(seq![prog, "-v"@ + v], wc) == expected
        }),
{
    lemma_vid_spellings(v, wc);
    if !looks_like_flag(v) {
        lemma_flag_then_value(prog, "--vid"@, v, wc, CliOption::Vid);
        lemma_flag_then_value(prog, "-v"@, v, wc, CliOption::Vid);
    }
    lemma_single_token(prog, "--vid="@ + v, v, wc, CliOption::Vid);
    lemma_single_token(prog, "-v="@ + v, v, wc, CliOption::Vid);
    if v.len() > 0 && v[0] != '=' {
        lemma_single_token(prog, "-v"@ + v, v, wc, CliOption::Vid);
    }
}

/// Wherever it stands on the command line and whatever follows, `--vid=v`,
/// `-v=v` and (for a value that is no flag) `-v v` are read exactly as
/// `--vid v`.
pub proof fn lemma_vid_forms_agree(v: Seq<char>, rest: Seq<Seq<char>>, acc: CliValues, wc: bool)
    ensures
        !looks_like_flag(v) ==> scan_args(seq!["--vid="@ + v] + rest, 0, acc, wc) == scan_args(
            seq!["--vid"@, v] + rest,
            0,
            acc,
            wc,
        ),
        !looks_like_flag(v) ==> scan_args(seq!["-v"@, v] + rest, 0, acc, wc) == scan_args(
            seq!["--vid"@, v] + rest,
            0,
            acc,
            wc,
        ),
        scan_args(seq!["-v="@ + v] + rest, 0, acc, wc) == scan_args(seq!["--vid="@ + v] + rest, 0, acc, wc),
{
    lemma_vid_spellings(v, wc);
    lemma_one_option_forms("--vid"@, v, rest, acc, wc, CliOption::Vid);
    lemma_one_option_forms("-v"@, v, rest, acc, wc, CliOption::Vid);
    lemma_one_option_forms("--vid="@ + v, v, rest, acc, wc, CliOption::Vid);
    lemma_one_option_forms("-v="@ + v, v, rest, acc, wc, CliOption::Vid);
}

#[verifier::spinoff_prover]
#[verifier::rlimit(50)]
proof fn lemma_pid_spellings(v: Seq<char>, wc: bool)
    ensures
        !is_special_argument("--pid"@) && !is_special_argument("-p"@),
        !is_special_argument("--pid="@ + v) && !is_special_argument("-p="@ + v),
        v.len() > 0 ==> !is_special_argument("-p"@ + v),
        flag_option("--pid"@, wc) == Some(CliOption::Pid),
        flag_option("-p"@, wc) == Some(CliOption::Pid),
        flag_option("--pid="@ + v, wc) is None,
        assign_option("--pid="@ + v, wc) == Some((CliOption::Pid, v)),
        flag_option("-p="@ + v, wc) is None,
        assign_option("-p="@ + v, wc) is None,
        is_short_cluster("-p="@ + v),
        ("-p="@ + v)[1] == 'p',
        attached_value(("-p="@ + v).skip(2)) == v,
        short_option('p', wc) == Some(CliOption::Pid),
        v.len() > 0 && v[0] != '=' ==> {
            &&& flag_option("-p"@ + v, wc) is None
            &&& assign_option("-p"@ + v, wc) is None
            &&& is_short_cluster("-p"@ + v)
            &&& ("-p"@ + v)[1] == 'p'
            &&& attached_value(("-p"@ + v).skip(2)) == v
        },
{
    lemma_option_literals();
    let long_eq = "--pid="@ + v;
    let short_eq = "-p="@ + v;
    let attached = "-p"@ + v;
    assert(long_eq.subrange(0, 6) =~= "--pid="@);
    assert(long_eq.skip(6) =~= v);
    assert(short_eq.skip(2) =~= seq!['='] + v);
    assert((seq!['='] + v).skip(1) =~= v);
    assert(attached.skip(2) =~= v);
    assert(long_eq[0] == '-' && long_eq[1] == '-' && long_eq[2] == 'p' && long_eq[3] == 'i');
    assert(short_eq[0] == '-' && short_eq[1] == 'p' && short_eq[2] == '=');
    assert(v.len() > 0 ==> attached[0] == '-' && attached[1] == 'p' && attached[2] == v[0]);
}

/// `--pid v`, `-p v`, `--pid=v`, `-p=v` and `-pv` all give `pid`
/// the hexadecimal value of `v` (with or without `0x`), and leave every other option unset, so that it takes its
/// default; a value the option does not take is refused, naming the option.
#[verifier::spinoff_prover]
pub proof fn lemma_pid_option(prog: Seq<char>, v: Seq<char>, wc: bool)
    ensures
        ({
            let expected = match spec_parse_hex_u16(v) {
                Ok(x) => Ok((CliValues { port: None, vid: None, pid: Some(x), mode: None, channel: None })),
                Err(r) => Err(CliFailure::Invalid(CliOption::Pid, v, r)),
            };
            &&& !looks_like_flag(v) ==> spec_cli_values(seq![prog, "--pid"@, v], wc) == expected
            &&& !looks_like_flag(v) ==> spec_cli_values(seq![prog, "-p"@, v], wc) == expected
            &&& spec_cli_values(seq![prog, "--pid="@ + v], wc) == expected
            &&& spec_cli_values(seq![prog, "-p="@ + v], wc) == expected
            &&& v.len() > 0 && v[0] != '=' ==> spec_cli_values(seq![prog, "-p"@ + v], wc) == expected
        }),
{
    lemma_pid_spellings(v, wc);
    if !looks_like_flag(v) {
        lemma_flag_then_value(prog, "--pid"@, v, wc, CliOption::Pid);
        lemma_flag_then_value(prog, "-p"@, v, wc, CliOption::Pid);
    }
    lemma_single_token(prog, "--pid="@ + v, v, wc, CliOption::Pid);
    lemma_single_token(prog, "-p="@ + v, v, wc, CliOption::Pid);
    if v.len() > 0 && v[0] != '=' {
        lemma_single_token(prog, "-p"@ + v, v, wc, CliOption::Pid);
    }
}

/// Wherever it stands on the command line and whatever follows, `--pid=v`,
/// `-p=v` and (for a value that is no flag) `-p v` are read exactly as
/// `--pid v`.
pub proof fn lemma_pid_forms_agree(v: Seq<char>, rest: Seq<Seq<char>>, acc: CliValues, wc: bool)
    ensures
        !looks_like_flag(v) ==> scan_args(seq!["--pid="@ + v] + rest, 0, acc, wc) == scan_args(
            seq!["--pid"@, v] + rest,
            0,
            acc,
            wc,
        ),
        !looks_like_flag(v) ==> scan_args(seq!["-p"@, v] + rest, 0, acc, wc) == scan_args(
            seq!["--pid"@, v] + rest,
            0,
            acc,
            wc,
        ),
        scan_args(seq!["-p="@ + v] + rest, 0, acc, wc) == scan_args(seq!["--pid="@ + v] + rest, 0, acc, wc),
{
    lemma_pid_spellings(v, wc);
    lemma_one_option_forms("--pid"@, v, rest, acc, wc, CliOption::Pid);
    lemma_one_option_forms("-p"@, v, rest, acc, wc, CliOption::Pid);
    lemma_one_option_forms("--pid="@ + v, v, rest, acc, wc, CliOption::Pid);
    lemma_one_option_forms("-p="@ + v, v, rest, acc, wc, CliOption::Pid);
}

#[verifier::spinoff_prover]
#[verifier::rlimit(50)]
proof fn lemma_mode_spellings(v: Seq<char>, wc: bool)
    ensures
        !is_special_argument("--mode"@) && !is_special_argument("-m"@),
        !is_special_argument("--mode="@ + v) && !is_special_argument("-m="@ + v),
        v.len() > 0 ==> !is_special_argument("-m"@ + v),
        flag_option("--mode"@, wc) == Some(CliOption::Mode),
        flag_option("-m"@, wc) == Some(CliOption::Mode),
        flag_option("--mode="@ + v, wc) is None,
        assign_option("--mode="@ + v, wc) == Some((CliOption::Mode, v)),
        flag_option("-m="@ + v, wc) is None,
        assign_option("-m="@ + v, wc) is None,
        is_short_cluster("-m="@ + v),
        ("-m="@ + v)[1] == 'm',
        attached_value(("-m="@ + v).skip(2)) == v,
        short_option('m', wc) == Some(CliOption::Mode),
        v.len() > 0 && v[0] != '=' ==> {
            &&& flag_option("-m"@ + v, wc) is None
            &&& assign_option("-m"@ + v, wc) is None
            &&& is_short_cluster("-m"@ + v)
            &&& ("-m"@ + v)[1] == 'm'
            &&& attached_value(("-m"@ + v).skip(2)) == v
        },
{
    lemma_option_literals();
    let long_eq = "--mode="@ + v;
    let short_eq = "-m="@ + v;
    let attached = "-m"@ + v;
    assert(long_eq.subrange(0, 7) =~= "--mode="@);
    assert(long_eq.skip(7) =~= v);
    assert(short_eq.skip(2) =~= seq!['='] + v);
    assert((seq!['='] + v).skip(1) =~= v);
    assert(attached.skip(2) =~= v);
    assert(long_eq[0] == '-' && long_eq[1] == '-' && long_eq[2] == 'm' && long_eq[3] == 'o');
    assert(short_eq[0] == '-' && short_eq[1] == 'm' && short_eq[2] == '=');
    assert(v.len() > 0 ==> attached[0] == '-' && attached[1] == 'm' && attached[2] == v[0]);
}

/// `--mode v`, `-m v`, `--mode=v`, `-m=v` and `-mv` all give `mode`
/// `bitbang` or `mpsse`, and leave every other option unset, so that it takes its
/// default; a value the option does not take is refused, naming the option.
#[verifier::spinoff_prover]
pub proof fn lemma_mode_option(prog: Seq<char>, v: Seq<char>, wc: bool)
    ensures
        ({
            let expected = if v == "bitbang"@ {
                Ok((CliValues { port: None, vid: None, pid: None, mode: Some(BackendMode::Bitbang), channel: None }))
            } else if v == "mpsse"@ {
                Ok((CliValues { port: None, vid: None, pid: None, mode: Some(BackendMode::Mpsse), channel: None }))
            } else {
                Err(CliFailure::Invalid(CliOption::Mode, v, "possible values: bitbang, mpsse"@))
            };
            &&& !looks_like_flag(v) ==> spec_cli_values(seq![prog, "--mode"@, v], wc) == expected
            &&& !looks_like_flag(v) ==> spec_cli_values(seq![prog, "-m"@, v], wc) == expected
            &&& spec_cli_values(seq![prog, "--mode="@ + v], wc) == expected
            &&& spec_cli_values(seq![prog, "-m="@ + v], wc) == expected
            &&& v.len() > 0 && v[0] != '=' ==> spec_cli_values(seq![prog, "-m"@ + v], wc) == expected
        }),
{
    lemma_mode_spellings(v, wc);
    if !looks_like_flag(v) {
        lemma_flag_then_value(prog, "--mode"@, v, wc, CliOption::Mode);
        lemma_flag_then_value(prog, "-m"@, v, wc, CliOption::Mode);
    }
    lemma_single_token(prog, "--mode="@ + v, v, wc, CliOption::Mode);
    lemma_single_token(prog, "-m="@ + v, v, wc, CliOption::Mode);
    if v.len() > 0 && v[0] != '=' {
        lemma_single_token(prog, "-m"@ + v, v, wc, CliOption::Mode);
    }
}

/// Wherever it stands on the command line and whatever follows, `--mode=v`,
/// `-m=v` and (for a value that is no flag) `-m v` are read exactly as
/// `--mode v`.
pub proof fn lemma_mode_forms_agree(v: Seq<char>, rest: Seq<Seq<char>>, acc: CliValues, wc: bool)
    ensures
        !looks_like_flag(v) ==> scan_args(seq!["--mode="@ + v] + rest, 0, acc, wc) == scan_args(
            seq!["--mode"@, v] + rest,
            0,
            acc,
            wc,
        ),
        !looks_like_flag(v) ==> scan_args(seq!["-m"@, v] + rest, 0, acc, wc) == scan_args(
            seq!["--mode"@, v] + rest,
            0,
            acc,
            wc,
        ),
        scan_args(seq!["-m="@ + v] + rest, 0, acc, wc) == scan_args(seq!["--mode="@ + v] + rest, 0, acc, wc),
{
    lemma_mode_spellings(v, wc);
    lemma_one_option_forms("--mode"@, v, rest, acc, wc, CliOption::Mode);
    lemma_one_option_forms("-m"@, v, rest, acc, wc, CliOption::Mode);
    lemma_one_option_forms("--mode="@ + v, v, rest, acc, wc, CliOption::Mode);
    lemma_one_option_forms("-m="@ + v, v, rest, acc, wc, CliOption::Mode);
}

#[verifier::spinoff_prover]
#[verifier::rlimit(50)]
proof fn lemma_channel_spellings(v: Seq<char>)
    ensures
        !is_special_argument("--channel"@) && !is_special_argument("-c"@),
        !is_special_argument("--channel="@ + v) && !is_special_argument("-c="@ + v),
        v.len() > 0 ==> !is_special_argument("-c"@ + v),
        flag_option("--channel"@, true) == Some(CliOption::Channel),
        flag_option("-c"@, true) == Some(CliOption::Channel),
        flag_option("--channel="@ + v, true) is None,
        assign_option("--channel="@ + v, true) == Some((CliOption::Channel, v)),
        flag_option("-c="@ + v, true) is None,
        assign_option("-c="@ + v, true) is None,
        is_short_cluster("-c="@ + v),
        ("-c="@ + v)[1] == 'c',
        attached_value(("-c="@ + v).skip(2)) == v,
        short_option('c', true) == Some(CliOption::Channel),
        v.len() > 0 && v[0] != '=' ==> {
            &&& flag_option("-c"@ + v, true) is None
            &&& assign_option("-c"@ + v, true) is None
            &&& is_short_cluster("-c"@ + v)
            &&& ("-c"@ + v)[1] == 'c'
            &&& attached_value(("-c"@ + v).skip(2)) == v
        },
{
    lemma_option_literals();
    let long_eq = "--channel="@ + v;
    let short_eq = "-c="@ + v;
    let attached = "-c"@ + v;
    assert(long_eq.subrange(0, 10) =~= "--channel="@);
    assert(long_eq.skip(10) =~= v);
    assert(short_eq.skip(2) =~= seq!['='] + v);
    assert((seq!['='] + v).skip(1) =~= v);
    assert(attached.skip(2) =~= v);
    assert(long_eq[0] == '-' && long_eq[1] == '-' && long_eq[2] == 'c' && long_eq[3] == 'h');
    assert(short_eq[0] == '-' && short_eq[1] == 'c' && short_eq[2] == '=');
    assert(v.len() > 0 ==> attached[0] == '-' && attached[1] == 'c' && attached[2] == v[0]);
}

/// `--channel v`, `-c v`, `--channel=v`, `-c=v` and `-cv` all give `channel`
/// the decimal value of `v`, which must lie in `0..=255`, and leave every other option unset, so that it takes its
/// default; a value the option does not take is refused, naming the option.
#[verifier::spinoff_prover]
pub proof fn lemma_channel_option(prog: Seq<char>, v: Seq<char>)
    ensures
        ({
            let expected = match decimal_in_range(v, 255, " is not in 0..=255"@) {
                Ok(x) => Ok((CliValues { port: None, vid: None, pid: None, mode: None, channel: Some(x as u8) })),
                Err(r) => Err(CliFailure::Invalid(CliOption::Channel, v, r)),
            };
            &&& !looks_like_flag(v) ==> spec_cli_values(seq![prog, "--channel"@, v], true) == expected
            &&& !looks_like_flag(v) ==> spec_cli_values(seq![prog, "-c"@, v], true) == expected
            &&& spec_cli_values(seq![prog, "--channel="@ + v], true) == expected
            &&& spec_cli_values(seq![prog, "-c="@ + v], true) == expected
            &&& v.len() > 0 && v[0] != '=' ==> spec_cli_values(seq![prog, "-c"@ + v], true) == expected
        }),
{
    lemma_channel_spellings(v);
    if !looks_like_flag(v) {
        lemma_flag_then_value(prog, "--channel"@, v, true, CliOption::Channel);
        lemma_flag_then_value(prog, "-c"@, v, true, CliOption::Channel);
    }
    lemma_single_token(prog, "--channel="@ + v, v, true, CliOption::Channel);
    lemma_single_token(prog, "-c="@ + v, v, true, CliOption::Channel);
    if v.len() > 0 && v[0] != '=' {
        lemma_single_token(prog, "-c"@ + v, v, true, CliOption::Channel);
    }
}

/// Wherever it stands on the command line and whatever follows, `--channel=v`,
/// `-c=v` and (for a value that is no flag) `-c v` are read exactly as
/// `--channel v`.
pub proof fn lemma_channel_forms_agree(v: Seq<char>, rest: Seq<Seq<char>>, acc: CliValues)
    ensures
        !looks_like_flag(v) ==> scan_args(seq!["--channel="@ + v] + rest, 0, acc, true) == scan_args(
            seq!["--channel"@, v] + rest,
            0,
            acc,
            true,
        ),
        !looks_like_flag(v) ==> scan_args(seq!["-c"@, v] + rest, 0, acc, true) == scan_args(
            seq!["--channel"@, v] + rest,
            0,
            acc,
            true,
        ),
        scan_args(seq!["-c="@ + v] + rest, 0, acc, true) == scan_args(seq!["--channel="@ + v] + rest, 0, acc, true),
{
    lemma_channel_spellings(v);
    lemma_one_option_forms("--channel"@, v, rest, acc, true, CliOption::Channel);
    lemma_one_option_forms("-c"@, v, rest, acc, true, CliOption::Channel);
    lemma_one_option_forms("--channel="@ + v, v, rest, acc, true, CliOption::Channel);
    lemma_one_option_forms("-c="@ + v, v, rest, acc, true, CliOption::Channel);
}

/// A command line with no options gives no values, and every option left out
/// takes its default: port 2542, vendor ID 0x0403, product ID 0x6010, bitbang
/// mode and channel 0; an option given keeps the value given.
pub proof fn lemma_defaults(prog: Seq<char>, v: CliValues, wc: bool)
    ensures
        spec_cli_values(seq![prog], wc) == Ok::<CliValues, CliFailure>(no_values()),
        no_values().port is None && no_values().vid is None && no_values().pid is None
            && no_values().mode is None && no_values().channel is None,
        args_from_values(v).port == (match v.port {
            Some(p) => p,
            None => 2542u16,
        }),
        args_from_values(v).vid == (match v.vid {
            Some(x) => x,
            None => 0x0403u16,
        }),
        args_from_values(v).pid == (match v.pid {
            Some(x) => x,
            None => 0x6010u16,
        }),
        args_from_values(v).mode == (match v.mode {
            Some(m) => m,
            None => BackendMode::Bitbang,
        }),
        args_from_values(v).channel == (match v.channel {
            Some(c) => c,
            None => 0u8,
        }),
{
}

} // verus!
