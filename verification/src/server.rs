use vstd::prelude::*;
use vstd::string::*;
use vstd::utf8::*;

use crate::command::Command;
use crate::error::MyError;

verus! {

/// The engine that a new data directory is made with when none is asked for.
pub open spec fn default_engine() -> Seq<char> {
    seq!['k', 'v', 's']
}

/// The engine the server runs with. `stored` is the first line of the engine file of the
/// data directory, or `None` when there is no such file; `requested` is the engine asked for
/// on the command line. A stored engine must match the one asked for, if any; without a
/// stored engine the one asked for is taken, else `kvs`.
pub open spec fn engine_choice(stored: Option<Seq<char>>, requested: Option<Seq<char>>) -> Result<
    Seq<char>,
    MyError,
> {
    match stored {
        Some(engine) => match requested {
            Some(target) => if target == engine {
                Ok(engine)
            } else {
                Err(MyError::WrongEngine)
            },
            None => Ok(engine),
        },
        None => match requested {
            Some(target) => Ok(target),
            None => Ok(default_engine()),
        },
    }
}

/// The engine that the first run chooses, with no engine file, is the one it writes to the
/// file; a later run that reads it back keeps it when no engine or the same engine is asked
/// for, and refuses any other with `WrongEngine`.
pub proof fn law_engine_remembered(requested: Option<Seq<char>>, other: Seq<char>)
    ensures
        engine_choice(None, requested) is Ok,
        ({
            let e = engine_choice(None, requested).unwrap();
            &&& engine_choice(Some(e), None) == Ok::<Seq<char>, MyError>(e)
            &&& engine_choice(Some(e), Some(e)) == Ok::<Seq<char>, MyError>(e)
            &&& other != e ==> engine_choice(Some(e), Some(other)) == Err::<Seq<char>, MyError>(
                MyError::WrongEngine,
            )
        }),
{
}

/// Decides the engine the server runs with; see [`engine_choice`].
pub fn select_engine(stored: Option<String>, requested: Option<String>) -> (r: Result<
    String,
    MyError,
>)
    ensures
        match engine_choice(
            match stored {
                Some(s) => Some(s@),
                None => None,
            },
            match requested {
                Some(t) => Some(t@),
                None => None,
            },
        ) {
            Ok(e) => r matches Ok(x) && x@ == e,
            Err(e) => r == Err::<String, MyError>(e),
        },
{
    match stored {
        Some(engine) => match requested {
            Some(target_engine) => {
                if target_engine == engine {
                    Ok(engine)
                } else {
                    Err(MyError::WrongEngine)
                }
            },
            None => Ok(engine),
        },
        None => match requested {
            Some(target_engine) => Ok(target_engine),
            None => {
                let engine = String::from_str("kvs");
                proof {
                    reveal_strlit("kvs");
                }
                Ok(engine)
            },
        },
    }
}

/// What the server sends back to a client.
#[derive(Debug, Clone, PartialEq, Eq)]
pub enum Reply {
    /// The value that was asked for.
    Value(String),
    /// The key is not live.
    KeyNotFound,
    /// No answer beyond the end of line.
    Nothing,
}

/// The reply to `request`, given what the store answered: the value of a `Get`, or nothing
/// for a `SetValue` or an `Rm`. An error of `Get` or `SetValue` ends the exchange; any error of
/// `Rm` is answered as a key that was not found.
pub fn client_reply(request: &Command, outcome: Result<Option<String>, MyError>) -> (r: Result<
    Reply,
    MyError,
>)
    ensures
        match request {
            Command::Get { .. } => match outcome {
                Ok(Some(v)) => r == Ok::<Reply, MyError>(Reply::Value(v)),
                Ok(None) => r == Ok::<Reply, MyError>(Reply::KeyNotFound),
                Err(e) => r == Err::<Reply, MyError>(e),
            },
            Command::SetValue { .. } => match outcome {
                Ok(_) => r == Ok::<Reply, MyError>(Reply::Nothing),
                Err(e) => r == Err::<Reply, MyError>(e),
            },
            Command::Rm { .. } => match outcome {
                Ok(_) => r == Ok::<Reply, MyError>(Reply::Nothing),
                Err(_) => r == Ok::<Reply, MyError>(Reply::KeyNotFound),
            },
        },
{
    match request {
        Command::Get { .. } => match outcome {
            Ok(Some(v)) => Ok(Reply::Value(v)),
            Ok(None) => Ok(Reply::KeyNotFound),
            Err(e) => Err(e),
        },
        Command::SetValue { .. } => match outcome {
            Ok(_) => Ok(Reply::Nothing),
            Err(e) => Err(e),
        },
        Command::Rm { .. } => match outcome {
            Ok(_) => Ok(Reply::Nothing),
            Err(_) => Ok(Reply::KeyNotFound),
        },
    }
}

/// The lower-case hexadecimal digit of `d`, for `d < 16`.
pub open spec fn hex_digit(d: nat) -> char {
    seq!['0', '1', '2', '3', '4', '5', '6', '7', '8', '9', 'a', 'b', 'c', 'd', 'e', 'f'][d as int]
}

/// The characters that stand for `c` inside a JSON string, as `serde_json` writes them:
/// `\"` and `\\` for the quote and the backslash, the short escapes for backspace, tab,
/// line feed, form feed and carriage return, `\u00XX` (lower-case hexadecimal) for the other
/// control characters below U+0020, and `c` itself for every other character.
pub open spec fn escape_char(c: char) -> Seq<char> {
    let u = c as u32;
    if c == '"' {
        seq!['\\', '"']
    } else if c == '\\' {
        seq!['\\', '\\']
    } else if u == 8 {
        seq!['\\', 'b']
    } else if u == 9 {
        seq!['\\', 't']
    } else if u == 10 {
        seq!['\\', 'n']
    } else if u == 12 {
        seq!['\\', 'f']
    } else if u == 13 {
        seq!['\\', 'r']
    } else if u < 32 {
        seq!['\\', 'u', '0', '0', hex_digit((u / 16) as nat), hex_digit((u % 16) as nat)]
    } else {
        seq![c]
    }
}

/// The escaped characters of `s`, one after the other.
pub open spec fn escape_chars(s: Seq<char>) -> Seq<char>
    decreases s.len(),
{
    if s.len() == 0 {
        Seq::empty()
    } else {
        escape_char(s[0]) + escape_chars(s.drop_first())
    }
}

/// The JSON text that `serde_json` makes of a string: the UTF-8 bytes of a double quote,
/// the escaped characters of the string, and a double quote.
pub open spec fn json_string(s: Seq<char>) -> Seq<u8> {
    encode_utf8(seq!['"'] + escape_chars(s) + seq!['"'])
}

/// The value of a hexadecimal digit, in either case.
pub open spec fn hex_value(c: char) -> Option<nat> {
    let u = c as u32;
    if 48 <= u <= 57 {
        Some((u - 48) as nat)
    } else if 97 <= u <= 102 {
        Some((u - 87) as nat)
    } else if 65 <= u <= 70 {
        Some((u - 55) as nat)
    } else {
        None
    }
}

/// The number that four hexadecimal digits stand for.
pub open spec fn hex4_value(a: char, b: char, c: char, d: char) -> Option<nat> {
    match (hex_value(a), hex_value(b), hex_value(c), hex_value(d)) {
        (Some(x), Some(y), Some(z), Some(w)) => Some(((x * 16 + y) * 16 + z) * 16 + w),
        _ => None,
    }
}

/// The character that the escape `\` `e` stands for in JSON, other than `\u`.
pub open spec fn short_escape(e: char) -> Option<char> {
    if e == '"' {
        Some('"')
    } else if e == '\\' {
        Some('\\')
    } else if e == '/' {
        Some('/')
    } else if e == 'b' {
        Some(8u32 as char)
    } else if e == 'f' {
        Some(12u32 as char)
    } else if e == 'n' {
        Some(10u32 as char)
    } else if e == 'r' {
        Some(13u32 as char)
    } else if e == 't' {
        Some(9u32 as char)
    } else {
        None
    }
}

/// The characters that the inside of a JSON string stands for, as the JSON grammar reads
/// them: an unescaped quote or control character is refused, `\uXXXX` stands for the
/// character of that number (surrogates, which JSON writes in pairs, are refused here), and
/// the short escapes stand for their characters.
pub open spec fn unescape(s: Seq<char>) -> Option<Seq<char>>
    decreases s.len(),
{
    if s.len() == 0 {
        Some(Seq::empty())
    } else if s[0] == '"' || (s[0] as u32) < 32 {
        None
    } else if s[0] != '\\' {
        match unescape(s.drop_first()) {
            Some(r) => Some(seq![s[0]] + r),
            None => None,
        }
    } else if s.len() < 2 {
        None
    } else if s[1] == 'u' {
        if s.len() < 6 {
            None
        } else {
            match hex4_value(s[2], s[3], s[4], s[5]) {
                Some(n) => if 0xD800 <= n <= 0xDFFF {
                    None
                } else {
                    match unescape(s.skip(6)) {
                        Some(r) => Some(seq![(n as u32) as char] + r),
                        None => None,
                    }
                },
                None => None,
            }
        }
    } else {
        match short_escape(s[1]) {
            Some(c) => match unescape(s.skip(2)) {
                Some(r) => Some(seq![c] + r),
                None => None,
            },
            None => None,
        }
    }
}

/// The string that the bytes of a JSON string text stand for: valid UTF-8 between two double
/// quotes, with its inside read by [`unescape`].
pub open spec fn json_string_value(b: Seq<u8>) -> Option<Seq<char>> {
    if !valid_utf8(b) {
        None
    } else {
        let t = decode_utf8(b);
        if t.len() >= 2 && t[0] == '"' && t[t.len() - 1] == '"' {
            unescape(t.subrange(1, t.len() - 1))
        } else {
            None
        }
    }
}

/// The decimal digits of `n`, with no leading zero, as ASCII bytes.
pub open spec fn decimal_bytes(n: nat) -> Seq<u8>
    decreases n,
{
    if n < 10 {
        seq![(48 + n) as u8]
    } else {
        decimal_bytes(n / 10) + seq![(48 + n % 10) as u8]
    }
}

/// The numbers of the bytes `b` in decimal, separated by `,`.
pub open spec fn decimal_list(b: Seq<u8>) -> Seq<u8>
    decreases b.len(),
{
    if b.len() == 0 {
        Seq::empty()
    } else if b.len() == 1 {
        decimal_bytes(b[0] as nat)
    } else {
        decimal_list(b.drop_last()) + seq![44u8] + decimal_bytes(b.last() as nat)
    }
}

/// The JSON text that `serde_json` makes of a sequence of bytes: `[`, their numbers in
/// decimal separated by `,`, then `]`.
pub open spec fn json_byte_array(b: Seq<u8>) -> Seq<u8> {
    seq![91u8] + decimal_list(b) + seq![93u8]
}

proof fn lemma_hex_digit_value(d: nat)
    requires
        d < 16,
    ensures
        hex_value(hex_digit(d)) == Some(d),
{
    let t = seq!['0', '1', '2', '3', '4', '5', '6', '7', '8', '9', 'a', 'b', 'c', 'd', 'e', 'f'];
    assert(hex_digit(d) == t[d as int]);
}

proof fn lemma_unescape_escaped_char(c: char, rest: Seq<char>)
    ensures
        unescape(escape_char(c) + rest) == (match unescape(rest) {
            Some(r) => Some(seq![c] + r),
            None => None::<Seq<char>>,
        }),
{
    let u = c as u32;
    let s = escape_char(c) + rest;
    char_u32_cast(c, u);
    if c == '"' || c == '\\' || u == 8 || u == 9 || u == 10 || u == 12 || u == 13 {
        assert(s[0] == '\\');
        assert(s.skip(2) =~= rest);
        if u == 8 {
            assert(s[1] == 'b');
        } else if u == 9 {
            assert(s[1] == 't');
        } else if u == 10 {
            assert(s[1] == 'n');
        } else if u == 12 {
            assert(s[1] == 'f');
        } else if u == 13 {
            assert(s[1] == 'r');
        }
    } else if u < 32 {
        lemma_hex_digit_value((u / 16) as nat);
        lemma_hex_digit_value((u % 16) as nat);
        assert(s[0] == '\\' && s[1] == 'u' && s[2] == '0' && s[3] == '0');
        assert(s[4] == hex_digit((u / 16) as nat));
        assert(s[5] == hex_digit((u % 16) as nat));
        assert(hex_value('0') == Some(0nat));
        assert(hex4_value(s[2], s[3], s[4], s[5]) == Some(u as nat));
        assert(s.skip(6) =~= rest);
    } else {
        assert(s[0] == c);
        assert(s.drop_first() =~= rest);
    }
}

proof fn lemma_unescape_escape_chars(v: Seq<char>)
    ensures
        unescape(escape_chars(v)) == Some(v),
    decreases v.len(),
{
    if v.len() == 0 {
    } else {
        lemma_unescape_escape_chars(v.drop_first());
        lemma_unescape_escaped_char(v[0], escape_chars(v.drop_first()));
        assert(seq![v[0]] + v.drop_first() =~= v);
    }
}

/// The bytes that `serde_json` makes of a string read back, as a JSON string, to exactly
/// that string: the text is valid UTF-8 between two double quotes, and undoing its escapes
/// gives every character of the string, in order.
pub proof fn law_json_string_decodes(v: Seq<char>)
    ensures
        json_string_value(json_string(v)) == Some(v),
{
    let t = seq!['"'] + escape_chars(v) + seq!['"'];
    encode_utf8_valid_utf8(t);
    encode_utf8_decode_utf8(t);
    lemma_unescape_escape_chars(v);
    assert(t.subrange(1, t.len() - 1) =~= escape_chars(v));
}

/// `serde_json::Error`, the error of `serde_json`'s serialisation.
#[verifier::external_type_specification]
#[verifier::external_body]
pub struct ExJsonError(serde_json::Error);

/// Calls `serde_json::to_vec` on a string. Claims that it succeeds, since its only way to fail
/// is an error of the writer and the writer is a `Vec`, and that the bytes it gives are
/// `json_string` of the string: a double quote, the string with `"`, `\\` and the control
/// characters escaped as `escape_char` says, and a double quote, in UTF-8.
#[verifier::external_body]
fn json_string_bytes(s: &str) -> (r: Result<Vec<u8>, serde_json::Error>)
    ensures
        r is Ok,
        r matches Ok(v) ==> v@ == json_string(s@),
{
    serde_json::to_vec(s)
}

/// Calls `serde_json::to_vec` on a slice of bytes. Claims that it succeeds, since its only
/// way to fail is an error of the writer and the writer is a `Vec`, and that the bytes it gives
/// are `json_byte_array` of the slice: the numbers of the bytes in decimal, separated by `,`,
/// between `[` and `]`.
#[verifier::external_body]
fn json_byte_array_bytes(b: &[u8]) -> (r: Result<Vec<u8>, serde_json::Error>)
    ensures
        r is Ok,
        r matches Ok(v) ==> v@ == json_byte_array(b@),
{
    serde_json::to_vec(b)
}

/// The bytes of the text `Key not found`.
pub open spec fn key_not_found_text() -> Seq<u8> {
    seq![75u8, 101, 121, 32, 110, 111, 116, 32, 102, 111, 117, 110, 100]
}

/// The bytes sent for a missing key: the JSON array of the bytes of `Key not found`, that is
/// `[75,101,121,32,110,111,116,32,102,111,117,110,100]`, then an end of line.
pub open spec fn key_not_found_reply() -> Seq<u8> {
    json_byte_array(key_not_found_text()) + seq![10u8]
}

/// The bytes that the server sends for `reply`, with the end of line that closes every reply:
/// a value goes as a JSON string, a missing key as the JSON array of the bytes of
/// `Key not found`. The encoding always succeeds.
pub fn reply_bytes(reply: &Reply) -> (r: Result<Vec<u8>, MyError>)
    ensures
        r is Ok,
        match reply {
            Reply::Value(v) => r matches Ok(b) && b@ == json_string(v@) + seq![10u8],
            Reply::KeyNotFound => r matches Ok(b) && b@ == key_not_found_reply(),
            Reply::Nothing => r matches Ok(b) && b@ == seq![10u8],
        },
{
    let mut out = match reply {
        Reply::Value(v) => match json_string_bytes(v.as_str()) {
            Ok(b) => b,
            Err(e) => {
                return Err(MyError::Serde(e.to_string()));
            },
        },
        Reply::KeyNotFound => {
            let text: Vec<u8> = vec![75u8, 101, 121, 32, 110, 111, 116, 32, 102, 111, 117, 110, 100];
            assert(text@ == key_not_found_text());
            match json_byte_array_bytes(text.as_slice()) {
                Ok(b) => b,
                Err(e) => {
                    return Err(MyError::Serde(e.to_string()));
                },
            }
        },
        Reply::Nothing => Vec::new(),
    };
    out.push(10u8);
    Ok(out)
}

} // verus!
