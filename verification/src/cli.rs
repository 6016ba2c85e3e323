//! The command-line interface's own logic: hex arguments, JSON text, and the
//! reading of a command line.
use vstd::prelude::*;
use crate::format::{MAX_KEY, MAX_VALUE};
use crate::store::Stats;
use vstd::string::*;
use vstd::utf8::encode_utf8;

verus! {

/// Calls `String::push`, trusted to append `c` to the characters of `s`.
#[verifier::external_body]
fn push_char(s: &mut String, c: char)
    ensures
        final(s)@ == old(s)@.push(c),
{
    s.push(c);
}

/// The lowercase hexadecimal digit of `n`, for `n < 16`.
pub open spec fn hex_digit(n: nat) -> char {
    if n < 10 {
        ((0x30 + n) as u32) as char
    } else {
        ((0x61 + n - 10) as u32) as char
    }
}

/// The digit character of `n`, for `n < 16`.
fn hex_digit_exec(n: u8) -> (c: char)
    requires
        n < 16,
    ensures
        c == hex_digit(n as nat),
{
    if n < 10 {
        (0x30 + n) as char
    } else {
        (0x61 + n - 10) as char
    }
}

/// How JSON text writes character `c` inside a string.
pub open spec fn escape_char(c: char) -> Seq<char> {
    if c == '"' {
        seq!['\\', '"']
    } else if c == '\\' {
        seq!['\\', '\\']
    } else if c == '\n' {
        seq!['\\', 'n']
    } else if c == '\r' {
        seq!['\\', 'r']
    } else if c == '\t' {
        seq!['\\', 't']
    } else if (c as u32) < 0x20 {
        seq!['\\', 'u', '0', '0', hex_digit((c as u32 / 16) as nat), hex_digit((c as u32 % 16) as nat)]
    } else {
        seq![c]
    }
}

/// The escaped characters of `s`.
pub open spec fn escaped(s: Seq<char>) -> Seq<char>
    decreases s.len(),
{
    if s.len() == 0 {
        Seq::empty()
    } else {
        escaped(s.drop_last()) + escape_char(s.last())
    }
}

/// `s` as a JSON string literal.
pub fn quote(s: &str) -> (r: String)
    ensures
        r@ == seq!['"'] + escaped(s@) + seq!['"'],
{
    broadcast use vstd::string::group_string_axioms;
    let mut out = String::new();
    push_char(&mut out, '"');
    for c in it: s.chars()
        invariant
            it.seq() == s@,
            out@ == seq!['"'] + escaped(s@.take(it.index() as int)),
    {
        proof {
            assert(s@.take(it.index() + 1).drop_last() =~= s@.take(it.index() as int));
        }
        if c == '"' {
            push_char(&mut out, '\\');
            push_char(&mut out, '"');
        } else if c == '\\' {
            push_char(&mut out, '\\');
            push_char(&mut out, '\\');
        } else if c == '\n' {
            push_char(&mut out, '\\');
            push_char(&mut out, 'n');
        } else if c == '\r' {
            push_char(&mut out, '\\');
            push_char(&mut out, 'r');
        } else if c == '\t' {
            push_char(&mut out, '\\');
            push_char(&mut out, 't');
        } else if (c as u32) < 0x20 {
            let n = c as u32;
            push_char(&mut out, '\\');
            push_char(&mut out, 'u');
            push_char(&mut out, '0');
            push_char(&mut out, '0');
            push_char(&mut out, hex_digit_exec((n / 16) as u8));
            push_char(&mut out, hex_digit_exec((n % 16) as u8));
        } else {
            push_char(&mut out, c);
        }
    }
    assert(s@.take(s@.len() as int) =~= s@);
    push_char(&mut out, '"');
    out
}

/// Two lowercase hexadecimal digits per byte of `b`.
pub open spec fn hex_text(b: Seq<u8>) -> Seq<char>
    decreases b.len(),
{
    if b.len() == 0 {
        Seq::empty()
    } else {
        hex_text(b.drop_last()) + seq![
            hex_digit((b.last() / 16) as nat),
            hex_digit((b.last() % 16) as nat),
        ]
    }
}

/// Appends the hexadecimal digits of `bytes` to `out`.
fn push_hex(out: &mut String, bytes: &[u8])
    ensures
        final(out)@ == old(out)@ + hex_text(bytes@),
{
    let ghost start = out@;
    let mut i: usize = 0;
    while i < bytes.len()
        invariant
            i <= bytes@.len(),
            out@ == start + hex_text(bytes@.take(i as int)),
        decreases bytes@.len() - i,
    {
        proof {
            assert(bytes@.take(i + 1).drop_last() =~= bytes@.take(i as int));
        }
        let b = bytes[i];
        push_char(out, hex_digit_exec(b / 16));
        push_char(out, hex_digit_exec(b % 16));
        i = i + 1;
    }
    assert(bytes@.take(i as int) =~= bytes@);
}

/// Lowercase hexadecimal text of `bytes`.
pub fn hex(bytes: &[u8]) -> (r: String)
    ensures
        r@ == hex_text(bytes@),
{
    let mut s = String::new();
    push_hex(&mut s, bytes);
    s
}

/// The value of hexadecimal digit byte `c`, either case.
pub open spec fn hex_value(c: u8) -> Option<u8> {
    if 0x30 <= c <= 0x39 {
        Some((c - 0x30) as u8)
    } else if 0x61 <= c <= 0x66 {
        Some((c - 0x61 + 10) as u8)
    } else if 0x41 <= c <= 0x46 {
        Some((c - 0x41 + 10) as u8)
    } else {
        None
    }
}

/// Every byte of `b` is a hexadecimal digit.
pub open spec fn all_hex(b: Seq<u8>) -> bool {
    forall|i: int| 0 <= i < b.len() ==> (#[trigger] hex_value(b[i])) is Some
}

/// The bytes that the digit pairs of `b` stand for.
pub open spec fn decoded(b: Seq<u8>) -> Seq<u8> {
    Seq::new(
        b.len() / 2,
        |i: int| (hex_value(b[2 * i])->Some_0 * 16 + hex_value(b[2 * i + 1])->Some_0) as u8,
    )
}

/// The message of hex text of odd length or beyond the limit.
pub open spec fn length_message() -> Seq<char> {
    "hex must contain even digit count within the key/value limit"@
}

/// The message of a character that is not a hexadecimal digit.
pub open spec fn digit_message() -> Seq<char> {
    "invalid hex digit"@
}

/// What decoding hex text `b` into at most `max` bytes gives: the bytes, or
/// the message of the first problem.
pub open spec fn decode_outcome(b: Seq<u8>, max: nat) -> Result<Seq<u8>, Seq<char>> {
    if b.len() % 2 != 0 || b.len() / 2 > max {
        Err(length_message())
    } else if !all_hex(b) {
        Err(digit_message())
    } else {
        Ok(decoded(b))
    }
}

/// The value of one digit byte.
fn digit(c: u8) -> (r: Option<u8>)
    ensures
        r == hex_value(c),
{
    if 0x30 <= c && c <= 0x39 {
        Some(c - 0x30)
    } else if 0x61 <= c && c <= 0x66 {
        Some(c - 0x61 + 10)
    } else if 0x41 <= c && c <= 0x46 {
        Some(c - 0x41 + 10)
    } else {
        None
    }
}

/// Decodes hexadecimal text (either case, an even number of digits) into at
/// most `max` bytes.
pub fn decode(s: &str, max: usize) -> (r: Result<Vec<u8>, String>)
    ensures
        r matches Ok(v) ==> decode_outcome(s.spec_bytes(), max as nat) == Ok::<Seq<u8>, Seq<char>>(
            v@,
        ),
        r matches Err(m) ==> decode_outcome(s.spec_bytes(), max as nat) == Err::<Seq<u8>, Seq<char>>(
            m@,
        ),
{
    let b = s.as_bytes();
    if b.len() % 2 != 0 || b.len() / 2 > max {
        return Err(String::from_str("hex must contain even digit count within the key/value limit"));
    }
    let n = b.len() / 2;
    assert(b@.len() == b.len());
    let mut out: Vec<u8> = Vec::new();
    let mut i: usize = 0;
    while i < n
        invariant
            n == b@.len() / 2,
            2 * n == b@.len(),
            b@.len() <= usize::MAX,
            n <= max,
            b@.len() % 2 == 0,
            b@ == s.spec_bytes(),
            i <= n,
            forall|j: int| 0 <= j < 2 * i ==> (#[trigger] hex_value(b@[j])) is Some,
            out@ == decoded(b@).take(i as int),
        decreases n - i,
    {
        let hi = match digit(b[2 * i]) {
            Some(d) => d,
            None => {
                return Err(String::from_str("invalid hex digit"));
            },
        };
        let lo = match digit(b[2 * i + 1]) {
            Some(d) => d,
            None => {
                return Err(String::from_str("invalid hex digit"));
            },
        };
        out.push(hi * 16 + lo);
        proof {
            assert forall|j: int| 0 <= j < 2 * (i + 1) implies (#[trigger] hex_value(b@[j])) is Some by {
                if j == 2 * i {
                } else if j == 2 * i + 1 {
                }
            }
            assert(out@ =~= decoded(b@).take(i + 1));
        }
        i = i + 1;
    }
    assert(out@ =~= decoded(b@));
    Ok(out)
}

/// The decimal digits of `n`.
pub open spec fn decimal(n: nat) -> Seq<char>
    decreases n,
{
    if n < 10 {
        seq![hex_digit(n)]
    } else {
        decimal(n / 10) + seq![hex_digit(n % 10)]
    }
}

/// Appends the decimal digits of `n` to `out`.
pub(crate) fn push_decimal(out: &mut String, n: u64)
    ensures
        final(out)@ == old(out)@ + decimal(n as nat),
    decreases n,
{
    if n >= 10 {
        push_decimal(out, n / 10);
    }
    push_char(out, hex_digit_exec((n % 10) as u8));
}

/// JSON text of the counters of a store.
pub open spec fn stats_text(s: Stats) -> Seq<char> {
    "{\"live_keys\":"@ + decimal(s.live_keys as nat) + ",\"live_bytes\":"@ + decimal(
        s.live_bytes as nat,
    ) + ",\"records\":"@ + decimal(s.records as nat) + ",\"log_bytes\":"@ + decimal(
        s.log_bytes as nat,
    ) + ",\"tail_bytes\":"@ + decimal(s.tail_bytes as nat) + "}"@
}

/// Appends the JSON text of `s` to `out`.
fn push_stats(out: &mut String, s: &Stats)
    ensures
        final(out)@ == old(out)@ + stats_text(*s),
{
    out.append("{\"live_keys\":");
    push_decimal(out, s.live_keys as u64);
    out.append(",\"live_bytes\":");
    push_decimal(out, s.live_bytes);
    out.append(",\"records\":");
    push_decimal(out, s.records);
    out.append(",\"log_bytes\":");
    push_decimal(out, s.log_bytes);
    out.append(",\"tail_bytes\":");
    push_decimal(out, s.tail_bytes);
    out.append("}");
}

/// JSON text of the counters of a store.
pub fn stats(s: &Stats) -> (r: String)
    ensures
        r@ == stats_text(*s),
{
    let mut out = String::new();
    push_stats(&mut out, s);
    out
}

/// JSON text of a compaction: the counters before and after it.
pub fn compaction(before: &Stats, after: &Stats) -> (r: String)
    ensures
        r@ == "{\"before\":"@ + stats_text(*before) + ",\"after\":"@ + stats_text(*after) + "}"@,
{
    let mut out = String::new();
    out.append("{\"before\":");
    push_stats(&mut out, before);
    out.append(",\"after\":");
    push_stats(&mut out, after);
    out.append("}");
    out
}

/// JSON text of an acknowledged put or delete.
pub fn acknowledged() -> (r: String)
    ensures
        r@ == "{\"ok\":true,\"durable\":true}"@,
{
    String::from_str("{\"ok\":true,\"durable\":true}")
}

/// JSON text of a lookup and the exit code: 0 when the key was found, 3 when
/// it was not.
pub fn lookup(value: Option<&[u8]>) -> (r: (String, i32))
    ensures
        value matches Some(v) ==> r.0@ == "{\"found\":true,\"value_hex\":\""@ + hex_text(v@)
            + "\"}"@ && r.1 == 0,
        value is None ==> r.0@ == "{\"found\":false}"@ && r.1 == 3,
{
    match value {
        Some(v) => {
            let mut out = String::from_str("{\"found\":true,\"value_hex\":\"");
            push_hex(&mut out, v);
            out.append("\"}");
            (out, 0)
        },
        None => (String::from_str("{\"found\":false}"), 3),
    }
}

/// JSON text of one entry.
pub open spec fn entry_text(k: Seq<u8>, v: Seq<u8>) -> Seq<char> {
    "{\"key_hex\":\""@ + hex_text(k) + "\",\"value_hex\":\""@ + hex_text(v) + "\"}"@
}

/// The JSON texts of the entries of `es`, separated by commas.
pub open spec fn entries_text(es: Seq<(Seq<u8>, Seq<u8>)>) -> Seq<char>
    decreases es.len(),
{
    if es.len() == 0 {
        Seq::empty()
    } else if es.len() == 1 {
        entry_text(es[0].0, es[0].1)
    } else {
        entries_text(es.drop_last()) + ","@ + entry_text(es.last().0, es.last().1)
    }
}

/// JSON text of all entries, in the order given.
pub fn listing(entries: &[(Vec<u8>, Vec<u8>)]) -> (r: String)
    ensures
        r@ == "{\"entries\":["@ + entries_text(crate::index::pairs_view(entries@)) + "]}"@,
{
    let ghost es = crate::index::pairs_view(entries@);
    let mut out = String::from_str("{\"entries\":[");
    let ghost start = out@;
    let mut i: usize = 0;
    while i < entries.len()
        invariant
            i <= entries@.len(),
            es == crate::index::pairs_view(entries@),
            out@ == start + entries_text(es.take(i as int)),
        decreases entries@.len() - i,
    {
        proof {
            assert(es.take(i + 1).drop_last() =~= es.take(i as int));
            assert(es.take(i + 1)[0] == es[0]);
        }
        if i > 0 {
            out.append(",");
        }
        out.append("{\"key_hex\":\"");
        push_hex(&mut out, entries[i].0.as_slice());
        out.append("\",\"value_hex\":\"");
        push_hex(&mut out, entries[i].1.as_slice());
        out.append("\"}");
        i = i + 1;
    }
    assert(es.take(i as int) =~= es);
    out.append("]}");
    out
}

/// JSON text of an error message.
pub fn error(message: &str) -> (r: String)
    ensures
        r@ == "{\"error\":"@ + seq!['"'] + escaped(message@) + seq!['"'] + "}"@,
{
    let mut out = String::from_str("{\"error\":");
    let q = quote(message);
    out.append(q.as_str());
    out.append("}");
    out
}

/// The usage line of the command-line program.
pub open spec fn usage_text() -> Seq<char> {
    "durablestore <existing-directory> init | put <key-hex> <value-hex> | get <key-hex> | delete <key-hex> | list | inspect | compact"@
}

/// The usage line of the command-line program.
pub fn usage() -> (r: &'static str)
    ensures
        r@ == usage_text(),
{
    "durablestore <existing-directory> init | put <key-hex> <value-hex> | get <key-hex> | delete <key-hex> | list | inspect | compact"
}

/// JSON text of the usage line.
pub fn help() -> (r: String)
    ensures
        r@ == "{\"usage\":"@ + seq!['"'] + escaped(usage_text()) + seq!['"'] + "}"@,
{
    let mut out = String::from_str("{\"usage\":");
    let q = quote(usage());
    out.append(q.as_str());
    out.append("}");
    out
}

/// `a` and `b` hold the same characters.
fn str_eq(a: &str, b: &str) -> (r: bool)
    ensures
        r == (a@ == b@),
{
    let n = a.unicode_len();
    if n != b.unicode_len() {
        return false;
    }
    let mut i: usize = 0;
    while i < n
        invariant
            n == a@.len() == b@.len(),
            i <= n,
            forall|j: int| 0 <= j < i ==> a@[j] == b@[j],
        decreases n - i,
    {
        if a.get_char(i) != b.get_char(i) {
            return false;
        }
        i = i + 1;
    }
    assert(a@ =~= b@);
    true
}

/// A command of the command-line program, with its decoded arguments.
pub enum Command {
    Help,
    Init,
    Put { key: Vec<u8>, value: Vec<u8> },
    Get { key: Vec<u8> },
    Delete { key: Vec<u8> },
    List,
    Inspect,
    Compact,
}

/// A command with its arguments as byte strings.
pub enum CommandView {
    Help,
    Init,
    Put(Seq<u8>, Seq<u8>),
    Get(Seq<u8>),
    Delete(Seq<u8>),
    List,
    Inspect,
    Compact,
}

impl View for Command {
    type V = CommandView;

    open spec fn view(&self) -> CommandView {
        match self {
            Command::Help => CommandView::Help,
            Command::Init => CommandView::Init,
            Command::Put { key, value } => CommandView::Put(key@, value@),
            Command::Get { key } => CommandView::Get(key@),
            Command::Delete { key } => CommandView::Delete(key@),
            Command::List => CommandView::List,
            Command::Inspect => CommandView::Inspect,
            Command::Compact => CommandView::Compact,
        }
    }
}

/// How many arguments, the directory included, command `c` takes.
pub open spec fn arity(c: Seq<char>) -> Option<nat> {
    if c == "put"@ {
        Some(4)
    } else if c == "get"@ || c == "delete"@ {
        Some(3)
    } else if c == "init"@ || c == "list"@ || c == "inspect"@ || c == "compact"@ {
        Some(2)
    } else {
        None
    }
}

/// What a command line (the arguments after the program's name) asks for,
/// or the message that refuses it. Key and value arguments are decoded
/// before anything else happens.
pub open spec fn parse_outcome(a: Seq<Seq<char>>) -> Result<CommandView, Seq<char>> {
    if a.len() == 1 && (a[0] == "--help"@ || a[0] == "-h"@) {
        Ok(CommandView::Help)
    } else if a.len() < 2 || arity(a[1]) is None || a.len() != arity(a[1])->Some_0 {
        Err(usage_text())
    } else if a.len() >= 3 && decode_outcome(encode_utf8(a[2]), MAX_KEY as nat) is Err {
        Err(decode_outcome(encode_utf8(a[2]), MAX_KEY as nat)->Err_0)
    } else if a.len() == 4 && decode_outcome(encode_utf8(a[3]), MAX_VALUE as nat) is Err {
        Err(decode_outcome(encode_utf8(a[3]), MAX_VALUE as nat)->Err_0)
    } else {
        let c = a[1];
        if c == "put"@ {
            Ok(
                CommandView::Put(
                    decode_outcome(encode_utf8(a[2]), MAX_KEY as nat)->Ok_0,
                    decode_outcome(encode_utf8(a[3]), MAX_VALUE as nat)->Ok_0,
                ),
            )
        } else if c == "get"@ {
            Ok(CommandView::Get(decode_outcome(encode_utf8(a[2]), MAX_KEY as nat)->Ok_0))
        } else if c == "delete"@ {
            Ok(CommandView::Delete(decode_outcome(encode_utf8(a[2]), MAX_KEY as nat)->Ok_0))
        } else if c == "init"@ {
            Ok(CommandView::Init)
        } else if c == "list"@ {
            Ok(CommandView::List)
        } else if c == "inspect"@ {
            Ok(CommandView::Inspect)
        } else {
            Ok(CommandView::Compact)
        }
    }
}

/// The characters of each argument.
pub open spec fn args_view(args: Seq<String>) -> Seq<Seq<char>> {
    args.map_values(|s: String| s@)
}

/// Reads a command line: the store directory, a command, and its hex key and
/// value arguments.
pub fn parse_args(args: &[String]) -> (r: Result<Command, String>)
    ensures
        r matches Ok(c) ==> parse_outcome(args_view(args@)) == Ok::<CommandView, Seq<char>>(c@),
        r matches Err(m) ==> parse_outcome(args_view(args@)) == Err::<CommandView, Seq<char>>(m@),
{
    let ghost a = args_view(args@);
    if args.len() == 1 {
        assert(a[0] == args@[0]@);
        if str_eq(args[0].as_str(), "--help") || str_eq(args[0].as_str(), "-h") {
            return Ok(Command::Help);
        }
    }
    if args.len() < 2 {
        return Err(String::from_str(usage()));
    }
    assert(a[1] == args@[1]@);
    let c = args[1].as_str();
    let expected: usize = if str_eq(c, "put") {
        4
    } else if str_eq(c, "get") || str_eq(c, "delete") {
        3
    } else if str_eq(c, "init") || str_eq(c, "list") || str_eq(c, "inspect") || str_eq(
        c,
        "compact",
    ) {
        2
    } else {
        return Err(String::from_str(usage()));
    };
    if args.len() != expected {
        return Err(String::from_str(usage()));
    }
    let key = if expected >= 3 {
        assert(a[2] == args@[2]@);
        decode(args[2].as_str(), MAX_KEY)?
    } else {
        Vec::new()
    };
    let value = if expected == 4 {
        assert(a[3] == args@[3]@);
        decode(args[3].as_str(), MAX_VALUE)?
    } else {
        Vec::new()
    };
    if str_eq(c, "put") {
        Ok(Command::Put { key, value })
    } else if str_eq(c, "get") {
        Ok(Command::Get { key })
    } else if str_eq(c, "delete") {
        Ok(Command::Delete { key })
    } else if str_eq(c, "init") {
        Ok(Command::Init)
    } else if str_eq(c, "list") {
        Ok(Command::List)
    } else if str_eq(c, "inspect") {
        Ok(Command::Inspect)
    } else {
        Ok(Command::Compact)
    }
}

/// The digits of `b` stand two per byte, high half first.
pub proof fn lemma_hex_text_layout(b: Seq<u8>)
    ensures
        hex_text(b).len() == 2 * b.len(),
        forall|i: int|
            0 <= i < b.len() ==> hex_text(b)[2 * i] == hex_digit((b[i] / 16) as nat) && hex_text(
                b,
            )[2 * i + 1] == hex_digit((b[i] % 16) as nat),
    decreases b.len(),
{
    if b.len() > 0 {
        let f = b.drop_last();
        lemma_hex_text_layout(f);
        assert forall|i: int| 0 <= i < b.len() implies hex_text(b)[2 * i] == hex_digit(
            (b[i] / 16) as nat,
        ) && hex_text(b)[2 * i + 1] == hex_digit((b[i] % 16) as nat) by {
            if i < f.len() {
                assert(b[i] == f[i]);
            }
        }
    }
}

/// A digit reads back as the number it was written for.
pub proof fn lemma_hex_digit_value(n: nat)
    requires
        n < 16,
    ensures
        (hex_digit(n) as u32) < 128,
        hex_value(hex_digit(n) as u8) == Some(n as u8),
{
}

/// Hex text of at most `max` bytes decodes to those bytes: what the program
/// prints for a value is accepted back as that value.
pub proof fn law_hex_roundtrip(b: Seq<u8>, max: nat)
    requires
        b.len() <= max,
    ensures
        decode_outcome(encode_utf8(hex_text(b)), max) == Ok::<Seq<u8>, Seq<char>>(b),
{
    let t = hex_text(b);
    lemma_hex_text_layout(b);
    assert forall|j: int| 0 <= j < t.len() implies '\0' <= #[trigger] t[j] <= '\u{7f}' by {
        let i = j / 2;
        lemma_hex_digit_value((b[i] / 16) as nat);
        lemma_hex_digit_value((b[i] % 16) as nat);
        if j == 2 * i {
        } else {
            assert(j == 2 * i + 1);
        }
    }
    assert(vstd::utf8::is_ascii_chars(t));
    vstd::utf8::is_ascii_chars_encode_utf8(t);
    let e = encode_utf8(t);
    assert forall|j: int| 0 <= j < e.len() implies (#[trigger] hex_value(e[j])) is Some by {
        let i = j / 2;
        lemma_hex_digit_value((b[i] / 16) as nat);
        lemma_hex_digit_value((b[i] % 16) as nat);
        assert(t[j] as u8 == e[j]);
        if j == 2 * i {
        } else {
            assert(j == 2 * i + 1);
        }
    }
    assert(decoded(e) =~= b) by {
        assert forall|i: int| 0 <= i < b.len() implies decoded(e)[i] == b[i] by {
            lemma_hex_digit_value((b[i] / 16) as nat);
            lemma_hex_digit_value((b[i] % 16) as nat);
            assert(t[2 * i] as u8 == e[2 * i]);
            assert(t[2 * i + 1] as u8 == e[2 * i + 1]);
        }
    }
}

/// The hexadecimal digits, in either case, read as the numbers they name, and
/// no other byte is a digit: `0`-`9` are 0 to 9, `a`-`f` and `A`-`F` are 10 to 15.
pub proof fn law_hex_value_digits()
    ensures
        forall|n: u8| n < 10 ==> #[trigger] hex_value((0x30 + n) as u8) == Some(n),
        forall|n: u8| 10 <= n < 16 ==> #[trigger] hex_value((0x61 + n - 10) as u8) == Some(n),
        forall|n: u8| 10 <= n < 16 ==> #[trigger] hex_value((0x41 + n - 10) as u8) == Some(n),
        forall|c: u8|
            #[trigger] hex_value(c) is Some ==> (0x30 <= c <= 0x39 || 0x61 <= c <= 0x66 || 0x41
                <= c <= 0x46),
{
}

/// Each byte prints as two lowercase hexadecimal digits, high half first:
/// digit `n` is the character `'0' + n` below 10 and `'a' + n - 10` from 10.
pub proof fn law_hex_text_lowercase(b: Seq<u8>)
    ensures
        hex_text(b).len() == 2 * b.len(),
        forall|i: int|
            0 <= i < b.len() ==> {
                let h = b[i] / 16;
                let l = b[i] % 16;
                &&& (#[trigger] hex_text(b)[2 * i]) as u32 == (if h < 10 {
                    0x30 + h
                } else {
                    0x61 + h - 10
                })
                &&& hex_text(b)[2 * i + 1] as u32 == (if l < 10 {
                    0x30 + l
                } else {
                    0x61 + l - 10
                })
            },
{
    lemma_hex_text_layout(b);
}

} // verus!
