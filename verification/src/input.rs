//! What is read from standard input: keysets and single values.
use vstd::prelude::*;
use vstd::string::*;
use vstd::utf8::*;
use crate::errors;
use crate::errors::OsError;
use crate::parse;
use crate::parse::Entry;
use crate::secret::Secret;
use crate::text;

verus! {

/// What came of reading standard input to its end.
pub enum Input {
    /// It is a terminal, and was not read.
    Terminal,
    Failed(OsError),
    Bytes(Secret),
}

/// The keyset that standard input holds.
pub open spec fn input_keyset(input: Input) -> Result<Seq<Entry>, Seq<char>> {
    match input {
        Input::Terminal => Err(
            "stdin is a terminal: pipe the keyset in (e.g. `pass show env | tempkeys load`)"@,
        ),
        Input::Failed(e) => Err(errors::io_message("reading stdin"@, e)),
        Input::Bytes(raw) => if valid_utf8(raw@) {
            parse::keyset(decode_utf8(raw@))
        } else {
            Err("input is not valid UTF-8"@)
        },
    }
}

/// The keyset that standard input holds.
pub fn stdin_keyset(input: &Input) -> (r: Result<Vec<(String, Secret)>, String>)
    ensures
        parse::gives(r, input_keyset(*input)),
{
    match input {
        Input::Terminal => Err(
            "stdin is a terminal: pipe the keyset in (e.g. `pass show env | tempkeys load`)".to_owned(),
        ),
        Input::Failed(e) => Err(errors::io_err("reading stdin", e)),
        Input::Bytes(raw) => match text::from_utf8(raw.0.as_slice()) {
            Some(t) => parse::parse_keyset(t),
            None => Err("input is not valid UTF-8".to_owned()),
        },
    }
}

/// What came of reading a value.
pub enum ValueInput {
    /// Reading a line from the terminal failed.
    PromptFailed(OsError),
    /// Reading standard input failed.
    Failed(OsError),
    Bytes(Secret),
}

/// Bytes without one line feed at their end, nor a carriage return before that.
pub open spec fn without_newline(bytes: Seq<u8>) -> Seq<u8> {
    if bytes.len() > 0 && bytes.last() == 10 {
        let front = bytes.drop_last();
        if front.len() > 0 && front.last() == 13 {
            front.drop_last()
        } else {
            front
        }
    } else {
        bytes
    }
}

/// The value that was read. One newline at its end is dropped, unless it is taken
/// raw.
pub open spec fn value_read(input: ValueInput, raw: bool) -> Result<Seq<u8>, Seq<char>> {
    match input {
        ValueInput::PromptFailed(e) => Err(errors::io_message("reading value"@, e)),
        ValueInput::Failed(e) => Err(errors::io_message("reading stdin"@, e)),
        ValueInput::Bytes(b) => {
            let value = if raw {
                b@
            } else {
                without_newline(b@)
            };
            if value.len() == 0 {
                Err("empty values are not supported"@)
            } else {
                Ok(value)
            }
        },
    }
}

/// The value that was read.
pub fn read_value(input: ValueInput, raw: bool) -> (r: Result<Secret, String>)
    ensures
        match r {
            Ok(value) => value_read(input, raw) == Ok::<Seq<u8>, Seq<char>>(value@),
            Err(e) => value_read(input, raw) == Err::<Seq<u8>, Seq<char>>(e@),
        },
{
    let mut buf = match input {
        ValueInput::PromptFailed(e) => {
            return Err(errors::io_err("reading value", &e));
        },
        ValueInput::Failed(e) => {
            return Err(errors::io_err("reading stdin", &e));
        },
        ValueInput::Bytes(b) => b,
    };
    let ghost all = buf@;
    let n: usize = buf.0.len();
    if !raw && n > 0 && buf.0[n - 1] == 10 {
        buf.0.truncate(n - 1);
        assert(buf@ =~= all.drop_last());
        if n > 1 && buf.0[n - 2] == 13 {
            buf.0.truncate(n - 2);
            assert(buf@ =~= all.drop_last().drop_last());
        }
    }
    if buf.0.len() == 0 {
        return Err("empty values are not supported".to_owned());
    }
    Ok(buf)
}

/// `echo token` stores `token`: a newline after a value is dropped, a line feed
/// alone or a carriage return and a line feed, and nothing else is.
pub proof fn law_newline_dropped(value: Seq<u8>)
    ensures
        value.len() == 0 || value.last() != 13 ==> without_newline(value.push(10)) == value,
        without_newline(value.push(13).push(10)) == value,
        value.len() > 0 && value.last() != 10 ==> without_newline(value) == value,
{
    assert(value.push(10).drop_last() =~= value);
    assert(value.push(13).push(10).drop_last() =~= value.push(13));
    assert(value.push(13).drop_last() =~= value);
}

/// A value is stored byte for byte where it is taken raw, and otherwise less one newline
/// at its end; only one of which nothing is left is refused.
pub proof fn law_value(bytes: Secret, value: Seq<u8>)
    ensures
        bytes@.len() > 0 ==> value_read(ValueInput::Bytes(bytes), true) == Ok::<
            Seq<u8>,
            Seq<char>,
        >(bytes@),
        bytes@.len() == 0 ==> value_read(ValueInput::Bytes(bytes), true) is Err && value_read(
            ValueInput::Bytes(bytes),
            false,
        ) is Err,
        value.len() > 0 && bytes@ == value.push(13).push(10) ==> value_read(
            ValueInput::Bytes(bytes),
            false,
        ) == Ok::<Seq<u8>, Seq<char>>(value),
        value.len() > 0 && value.last() != 13 && bytes@ == value.push(10) ==> value_read(
            ValueInput::Bytes(bytes),
            false,
        ) == Ok::<Seq<u8>, Seq<char>>(value),
        value.len() > 0 && value.last() != 10 && bytes@ == value ==> value_read(
            ValueInput::Bytes(bytes),
            false,
        ) == Ok::<Seq<u8>, Seq<char>>(value),
        bytes@ == seq![10u8] || bytes@ == seq![13u8, 10u8] ==> value_read(
            ValueInput::Bytes(bytes),
            false,
        ) is Err,
{
    law_newline_dropped(value);
    let none = Seq::<u8>::empty();
    law_newline_dropped(none);
    assert(none.push(10) =~= seq![10u8]);
    assert(none.push(13).push(10) =~= seq![13u8, 10u8]);
}

/// A keyset that is piped in is that of the text that the bytes encode, whatever text that
/// is; bytes that encode none, and a terminal, give none.
pub proof fn law_piped(raw: Secret, t: Seq<char>)
    ensures
        raw@ == encode_utf8(t) ==> input_keyset(Input::Bytes(raw)) == parse::keyset(t),
        !valid_utf8(raw@) ==> input_keyset(Input::Bytes(raw)) is Err,
        input_keyset(Input::Terminal) is Err,
{
    if raw@ == encode_utf8(t) {
        encode_utf8_valid_utf8(t);
        encode_utf8_decode_utf8(t);
    }
}

/// Where reading fails, that is told.
pub proof fn law_not_read(e: OsError, raw: bool)
    ensures
        value_read(ValueInput::Failed(e), raw) == Err::<Seq<u8>, Seq<char>>(
            errors::io_message("reading stdin"@, e),
        ),
        value_read(ValueInput::PromptFailed(e), raw) == Err::<Seq<u8>, Seq<char>>(
            errors::io_message("reading value"@, e),
        ),
        input_keyset(Input::Failed(e)) == Err::<Seq<Entry>, Seq<char>>(
            errors::io_message("reading stdin"@, e),
        ),
{
}

} // verus!
