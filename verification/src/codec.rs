//! The protocol codec: commands to frames, frames to responses.
//!
//! A frame is one line of text: an object whose first field, `type`, names
//! the variant, followed by the fields of that variant, and a line break.
//! `{"type":"SetParameterValue","name":"gain","value":3.5}` is a command;
//! `{"type":"Parameters","0":{"gain":3.5,"offset":-1.0}}` is a response.
//! Decoding is the inverse of encoding: a frame is accepted when it is
//! what the encoder writes for some response, and then gives that response.

use crate::command::{Command, CommandView};
use crate::framing::is_line;
use crate::number::Number;
use crate::object::{
    lemma_entries_text_push, lemma_object_at_text, lemma_object_text_printable,
    lemma_text_object_at, object_at, object_text, raw_entries, raw_numeric, read_object,
    write_entry, RawEntry, entries_text, CLOSE_BRACE, COMMA, OPEN_BRACE,
};
use crate::response::{distinct_names, numeric_values, Entry, Parameters, Response, ResponseView};
use crate::wire::{
    lemma_quoted_printable, printable, quoted, same_bytes, text_from_utf8, write_bytes,
    write_quoted, NEWLINE, QUOTE, SPACE,
};
use vstd::prelude::*;
use vstd::string::*;
use vstd::utf8::{decode_utf8, encode_utf8, valid_utf8};

verus! {

/// Why a frame was refused.
#[derive(Clone, Copy, Debug, PartialEq, Eq, Structural)]
pub enum DecodeError {
    /// The bytes are no response with a known tag.
    MalformedFrame,
    /// The tag is known, but the fields that it requires are absent.
    UnknownVariant,
}

/// The bytes of a text that holds nothing beyond the ASCII range.
pub open spec fn ascii(text: Seq<char>) -> Seq<u8> {
    Seq::new(text.len(), |i: int| text[i] as u8)
}

/// How every frame starts: the opening brace, and the tag of the variant.
pub open spec fn head(tag: Seq<char>) -> Seq<u8> {
    ascii("{\"type\":\""@) + ascii(tag) + seq![QUOTE]
}

/// The field that holds a name.
pub open spec fn name_field(name: Seq<char>) -> Seq<u8> {
    ascii(",\"name\":"@) + quoted(encode_utf8(name))
}

/// The field that holds a number.
pub open spec fn value_field(value: Seq<u8>) -> Seq<u8> {
    ascii(",\"value\":"@) + value
}

/// What a frame holds before its line break, for a command.
pub open spec fn command_text(command: CommandView) -> Seq<u8> {
    match command {
        CommandView::ListParameters => head("ListParameters"@) + seq![CLOSE_BRACE],
        CommandView::ListSignals => head("ListSignals"@) + seq![CLOSE_BRACE],
        CommandView::GetParameterValue { name } => head("GetParameterValue"@) + name_field(name)
            + seq![CLOSE_BRACE],
        CommandView::SetParameterValue { name, value } => head("SetParameterValue"@) + name_field(
            name,
        ) + value_field(value) + seq![CLOSE_BRACE],
        CommandView::SubscribeToSignal { name } => head("SubscribeToSignal"@) + name_field(name)
            + seq![CLOSE_BRACE],
        CommandView::CloseListenerThread => head("CloseListenerThread"@) + seq![CLOSE_BRACE],
    }
}

/// The entries of a mapping as they stand on the wire: names in UTF-8.
pub open spec fn raw(entries: Seq<Entry>) -> Seq<RawEntry> {
    Seq::new(entries.len(), |i: int| (encode_utf8(entries[i].0), entries[i].1))
}

/// The field that holds the mapping of a `Parameters` response.
pub open spec fn mapping_field(entries: Seq<Entry>) -> Seq<u8> {
    ascii(",\"0\":"@) + object_text(raw(entries))
}

/// What a frame holds before its line break, for a response.
pub open spec fn response_text(response: ResponseView) -> Seq<u8> {
    match response {
        ResponseView::Parameters(entries) => head("Parameters"@) + mapping_field(entries)
            + seq![CLOSE_BRACE],
        ResponseView::Done => head("Done"@) + seq![CLOSE_BRACE],
    }
}

/// The frame of a command.
pub open spec fn command_frame(command: CommandView) -> Seq<u8> {
    command_text(command).push(NEWLINE)
}

/// The frame of a response.
pub open spec fn response_frame(response: ResponseView) -> Seq<u8> {
    response_text(response).push(NEWLINE)
}

/// A frame without the line break that ends it, if it has one.
pub open spec fn frame_body(frame: Seq<u8>) -> Seq<u8> {
    if frame.len() > 0 && frame.last() == NEWLINE {
        frame.drop_last()
    } else {
        frame
    }
}

/// Whether `body` is what the encoder writes for some response.
pub open spec fn is_response_text(body: Seq<u8>) -> bool {
    exists|response: ResponseView| response.wf() && #[trigger] response_text(response) == body
}

/// Whether `body` starts with the tag of a variant that has a field, and
/// that field does not follow.
pub open spec fn lacks_fields(body: Seq<u8>) -> bool {
    starts_at(body, 0, head("Parameters"@)) && !starts_at(
        body,
        head("Parameters"@).len() as int,
        ascii(",\"0\":"@),
    )
}

/// What decoding a frame gives. A frame that the encoder writes for a
/// response gives that response; a frame with the tag of a variant but
/// without the field that the variant requires is an unknown variant;
/// every other frame is malformed.
pub open spec fn decoded(frame: Seq<u8>) -> Result<ResponseView, DecodeError> {
    let body = frame_body(frame);
    if is_response_text(body) {
        Ok(choose|response: ResponseView| response.wf() && #[trigger] response_text(response) == body)
    } else if lacks_fields(body) {
        Err(DecodeError::UnknownVariant)
    } else {
        Err(DecodeError::MalformedFrame)
    }
}

/// The outcome of decoding as contracts speak of it.
pub open spec fn outcome(result: Result<Response, DecodeError>) -> Result<ResponseView, DecodeError> {
    match result {
        Ok(response) => Ok(response@),
        Err(error) => Err(error),
    }
}

/// The bytes of an ASCII text.
fn token(text: &str) -> (bytes: &[u8])
    requires
        is_ascii(text),
    ensures
        bytes@ == ascii(text@),
{
    proof {
        is_ascii_spec_bytes(text);
    }
    text.as_bytes()
}

/// Appends the head of a frame to `out`.
fn write_head(out: &mut Vec<u8>, tag: &str)
    requires
        is_ascii(tag),
    ensures
        final(out)@ == old(out)@ + head(tag@),
{
    proof {
        reveal_strlit("{\"type\":\"");
    }
    write_bytes(out, token("{\"type\":\""));
    write_bytes(out, token(tag));
    out.push(QUOTE);
    assert(out@ =~= old(out)@ + head(tag@));
}

/// Appends the field of a name to `out`.
fn write_name_field(out: &mut Vec<u8>, name: &String)
    ensures
        final(out)@ == old(out)@ + name_field(name@),
{
    proof {
        reveal_strlit(",\"name\":");
    }
    write_bytes(out, token(",\"name\":"));
    write_quoted(out, name.as_str().as_bytes());
    assert(out@ =~= old(out)@ + name_field(name@));
}

/// Appends the field of a number to `out`.
fn write_value_field(out: &mut Vec<u8>, value: &Number)
    ensures
        final(out)@ == old(out)@ + value_field(value@),
        crate::number::is_number_literal(value@),
{
    proof {
        reveal_strlit(",\"value\":");
    }
    write_bytes(out, token(",\"value\":"));
    write_bytes(out, value.as_bytes());
    assert(out@ =~= old(out)@ + value_field(value@));
}

/// Writes a command as a frame. This never fails, and the frame ends at
/// its only line break.
pub fn encode(command: &Command) -> (frame: Vec<u8>)
    ensures
        frame@ == command_frame(command@),
        command@.wf(),
        is_line(frame@),
{
    let mut out: Vec<u8> = Vec::new();
    match command {
        Command::ListParameters => {
            proof {
                reveal_strlit("ListParameters");
            }
            write_head(&mut out, "ListParameters");
        },
        Command::ListSignals => {
            proof {
                reveal_strlit("ListSignals");
            }
            write_head(&mut out, "ListSignals");
        },
        Command::GetParameterValue { name } => {
            proof {
                reveal_strlit("GetParameterValue");
            }
            write_head(&mut out, "GetParameterValue");
            write_name_field(&mut out, name);
        },
        Command::SetParameterValue { name, value } => {
            proof {
                reveal_strlit("SetParameterValue");
            }
            write_head(&mut out, "SetParameterValue");
            write_name_field(&mut out, name);
            write_value_field(&mut out, value);
        },
        Command::SubscribeToSignal { name } => {
            proof {
                reveal_strlit("SubscribeToSignal");
            }
            write_head(&mut out, "SubscribeToSignal");
            write_name_field(&mut out, name);
        },
        Command::CloseListenerThread => {
            proof {
                reveal_strlit("CloseListenerThread");
            }
            write_head(&mut out, "CloseListenerThread");
        },
    }
    out.push(CLOSE_BRACE);
    out.push(NEWLINE);
    assert(out@ =~= command_frame(command@));
    proof {
        lemma_command_frame_is_line(command@);
    }
    out
}

/// Whether `token` stands in `body` at `i`.
pub open spec fn starts_at(body: Seq<u8>, i: int, token: Seq<u8>) -> bool {
    0 <= i && i + token.len() <= body.len() && body.subrange(i, i + token.len()) == token
}

/// Every name is UTF-8.
spec fn names_valid(entries: Seq<RawEntry>) -> bool {
    forall|i: int| 0 <= i < entries.len() ==> valid_utf8(#[trigger] entries[i].0)
}

/// The entries that stand on the wire, with their names as texts.
spec fn entries_of(entries: Seq<RawEntry>) -> Seq<Entry> {
    Seq::new(entries.len(), |i: int| (decode_utf8(entries[i].0), entries[i].1))
}

/// Reads a frame from left to right: the head with its tag, then what the
/// variant of that tag requires, and nothing more.
spec fn parse(body: Seq<u8>) -> Result<ResponseView, DecodeError> {
    let done = head("Done"@);
    let parameters = head("Parameters"@);
    let field = ascii(",\"0\":"@);
    if starts_at(body, 0, done) {
        if body.len() == done.len() + 1 && body[done.len() as int] == CLOSE_BRACE {
            Ok(ResponseView::Done)
        } else {
            Err(DecodeError::MalformedFrame)
        }
    } else if starts_at(body, 0, parameters) {
        let h = parameters.len() as int;
        if !starts_at(body, h, field) {
            Err(DecodeError::UnknownVariant)
        } else {
            match object_at(body, h + field.len()) {
                Some((entries, end)) => if end + 1 == body.len() && body[end] == CLOSE_BRACE
                    && names_valid(entries) && distinct_names(entries_of(entries)) {
                    Ok(ResponseView::Parameters(entries_of(entries)))
                } else {
                    Err(DecodeError::MalformedFrame)
                },
                None => Err(DecodeError::MalformedFrame),
            }
        }
    } else {
        Err(DecodeError::MalformedFrame)
    }
}

/// What the tags and the label of the responses are made of.
proof fn lemma_tokens()
    ensures
        head("Done"@).len() == 14,
        head("Parameters"@).len() == 20,
        head("Done"@)[9] != head("Parameters"@)[9],
        printable(head("Done"@)),
        printable(head("Parameters"@)),
        ascii(",\"0\":"@).len() == 5,
        printable(ascii(",\"0\":"@)),
{
    reveal_strlit("{\"type\":\"");
    reveal_strlit("Done");
    reveal_strlit("Parameters");
    reveal_strlit(",\"0\":");
}

/// Names that were written in UTF-8 read back as the same names.
proof fn lemma_raw_of_entries(entries: Seq<Entry>)
    requires
        numeric_values(entries),
    ensures
        raw_numeric(raw(entries)),
        names_valid(raw(entries)),
        entries_of(raw(entries)) == entries,
{
    assert forall|i: int| 0 <= i < entries.len() implies valid_utf8(#[trigger] raw(entries)[i].0) by {
        vstd::utf8::encode_utf8_valid_utf8(entries[i].0);
    }
    assert forall|i: int| 0 <= i < entries.len() implies #[trigger] entries_of(raw(entries))[i]
        == entries[i] by {
        vstd::utf8::encode_utf8_decode_utf8(entries[i].0);
    }
    assert(entries_of(raw(entries)) =~= entries);
}

/// Names that were read as UTF-8 are written back as the same bytes.
proof fn lemma_entries_of_raw(entries: Seq<RawEntry>)
    requires
        raw_numeric(entries),
        names_valid(entries),
    ensures
        numeric_values(entries_of(entries)),
        raw(entries_of(entries)) == entries,
{
    assert forall|i: int| 0 <= i < entries.len() implies #[trigger] raw(entries_of(entries))[i]
        == entries[i] by {
        vstd::utf8::decode_utf8_encode_utf8(entries[i].0);
    }
    assert(raw(entries_of(entries)) =~= entries);
}

/// What was read from a frame is a response that the encoder writes as
/// that frame.
proof fn lemma_parse_sound(body: Seq<u8>)
    requires
        parse(body) is Ok,
    ensures
        parse(body)->Ok_0.wf(),
        response_text(parse(body)->Ok_0) == body,
{
    lemma_tokens();
    let done = head("Done"@);
    let parameters = head("Parameters"@);
    let field = ascii(",\"0\":"@);
    if starts_at(body, 0, done) {
        assert(body =~= done + seq![CLOSE_BRACE]);
    } else {
        let h = parameters.len() as int;
        let p = h + field.len();
        let (entries, end) = object_at(body, p)->Some_0;
        lemma_text_object_at(body, p);
        lemma_entries_of_raw(entries);
        assert(body =~= body.subrange(0, h) + body.subrange(h, p) + body.subrange(p, end)
            + seq![CLOSE_BRACE]);
    }
}

/// Reading the frame that the encoder writes for a response gives that
/// response.
proof fn lemma_parse_complete(response: ResponseView)
    requires
        response.wf(),
    ensures
        parse(response_text(response)) == Ok::<ResponseView, DecodeError>(response),
{
    lemma_tokens();
    let done = head("Done"@);
    let parameters = head("Parameters"@);
    let field = ascii(",\"0\":"@);
    let body = response_text(response);
    match response {
        ResponseView::Done => {
            assert(body.subrange(0, done.len() as int) =~= done);
        },
        ResponseView::Parameters(entries) => {
            let h = parameters.len() as int;
            let p = h + field.len();
            let object = object_text(raw(entries));
            lemma_raw_of_entries(entries);
            lemma_object_text_printable(raw(entries));
            assert(body.len() == p + object.len() + 1);
            assert(body[9] == parameters[9]);
            if starts_at(body, 0, done) {
                assert(body.subrange(0, done.len() as int)[9] == body[9]);
            }
            assert(body.subrange(0, h) =~= parameters);
            assert(body.subrange(h, p) =~= field);
            assert(body.subrange(p, p + object.len()) =~= object);
            lemma_object_at_text(body, p, raw(entries));
        },
    }
}

/// A frame with the tag of a variant but without its field, and no other,
/// reads as an unknown variant.
proof fn lemma_parse_unknown(body: Seq<u8>)
    ensures
        parse(body) == Err::<ResponseView, DecodeError>(DecodeError::UnknownVariant)
            <==> lacks_fields(body),
{
    lemma_tokens();
    let done = head("Done"@);
    let parameters = head("Parameters"@);
    let h = parameters.len() as int;
    if lacks_fields(body) && starts_at(body, 0, done) {
        assert(body.subrange(0, h)[9] == body[9]);
        assert(body.subrange(0, done.len() as int)[9] == body[9]);
    }
}

/// Decoding is reading from left to right.
proof fn lemma_decoded_is_parse(frame: Seq<u8>)
    ensures
        decoded(frame) == parse(frame_body(frame)),
{
    let body = frame_body(frame);
    lemma_parse_unknown(body);
    if is_response_text(body) {
        let chosen = choose|response: ResponseView|
            response.wf() && #[trigger] response_text(response) == body;
        lemma_parse_complete(chosen);
    } else if parse(body) is Ok {
        lemma_parse_sound(body);
        assert(response_text(parse(body)->Ok_0) == body);
    }
}

/// Decoding the frame of a response gives that response back, whatever it
/// holds: any number of parameters, or none, or `Done`.
pub proof fn lemma_decode_inverts_encode(response: ResponseView)
    requires
        response.wf(),
    ensures
        decoded(response_frame(response)) == Ok::<ResponseView, DecodeError>(response),
        decoded(response_text(response)) == Ok::<ResponseView, DecodeError>(response),
{
    let text = response_text(response);
    lemma_response_text_printable(response);
    assert(text.len() > 0 ==> text.last() != NEWLINE);
    assert(frame_body(text) == text);
    assert(response_frame(response).drop_last() =~= text);
    assert(frame_body(response_frame(response)) == text);
    lemma_parse_complete(response);
    lemma_decoded_is_parse(response_frame(response));
    lemma_decoded_is_parse(text);
}

/// Two responses with the same frame are the same response.
pub proof fn lemma_response_text_injective(a: ResponseView, b: ResponseView)
    requires
        a.wf(),
        b.wf(),
        response_text(a) == response_text(b),
    ensures
        a == b,
{
    lemma_parse_complete(a);
    lemma_parse_complete(b);
}

/// The text of a response holds no control character, so its frame ends at
/// its only line break.
pub proof fn lemma_response_text_printable(response: ResponseView)
    requires
        response.wf(),
    ensures
        printable(response_text(response)),
        response_text(response).len() > 0,
{
    lemma_tokens();
    let text = response_text(response);
    match response {
        ResponseView::Done => {
            let done = head("Done"@);
            assert forall|k: int| 0 <= k < text.len() implies #[trigger] text[k] >= SPACE by {
                if k < done.len() {
                    assert(text[k] == done[k]);
                }
            }
        },
        ResponseView::Parameters(entries) => {
            let parameters = head("Parameters"@);
            let field = ascii(",\"0\":"@);
            let object = object_text(raw(entries));
            lemma_raw_of_entries(entries);
            lemma_object_text_printable(raw(entries));
            let h = parameters.len() as int;
            let p = h + field.len();
            assert forall|k: int| 0 <= k < text.len() implies #[trigger] text[k] >= SPACE by {
                if k < h {
                    assert(text[k] == parameters[k]);
                } else if k < p {
                    assert(text[k] == field[k - h]);
                } else if k < p + object.len() {
                    assert(text[k] == object[k - p]);
                }
            }
        },
    }
}

/// Texts without control characters, put together, hold none.
pub proof fn lemma_printable_concat(a: Seq<u8>, b: Seq<u8>)
    requires
        printable(a),
        printable(b),
    ensures
        printable(a + b),
{
    assert forall|k: int| 0 <= k < (a + b).len() implies #[trigger] (a + b)[k] >= SPACE by {
        if k < a.len() {
            assert((a + b)[k] == a[k]);
        } else {
            assert((a + b)[k] == b[k - a.len()]);
        }
    }
}

/// A text without control characters and a line break make a line.
pub proof fn lemma_printable_line(text: Seq<u8>)
    requires
        printable(text),
    ensures
        is_line(text.push(NEWLINE)),
{
    assert(text.push(NEWLINE).drop_last() =~= text);
}

/// The frame of a response is one line.
pub proof fn lemma_response_frame_is_line(response: ResponseView)
    requires
        response.wf(),
    ensures
        is_line(response_frame(response)),
{
    lemma_response_text_printable(response);
    lemma_printable_line(response_text(response));
}

/// What the tags and the labels of the commands are made of.
proof fn lemma_command_tokens()
    ensures
        printable(head("ListParameters"@)),
        printable(head("ListSignals"@)),
        printable(head("GetParameterValue"@)),
        printable(head("SetParameterValue"@)),
        printable(head("SubscribeToSignal"@)),
        printable(head("CloseListenerThread"@)),
        head("ListParameters"@).len() == 24,
        head("ListSignals"@).len() == 21,
        head("GetParameterValue"@).len() == 27,
        head("SetParameterValue"@).len() == 27,
        head("SubscribeToSignal"@).len() == 27,
        head("CloseListenerThread"@).len() == 29,
        initials(head("ListParameters"@)) == (0x4cu8, 0x69u8, 0x50u8),
        initials(head("ListSignals"@)) == (0x4cu8, 0x69u8, 0x53u8),
        initials(head("GetParameterValue"@)) == (0x47u8, 0x65u8, 0x61u8),
        initials(head("SetParameterValue"@)) == (0x53u8, 0x65u8, 0x61u8),
        initials(head("SubscribeToSignal"@)) == (0x53u8, 0x75u8, 0x63u8),
        initials(head("CloseListenerThread"@)) == (0x43u8, 0x6cu8, 0x65u8),
        printable(ascii(",\"name\":"@)),
        ascii(",\"name\":"@).len() == 8,
        printable(ascii(",\"value\":"@)),
        ascii(",\"value\":"@).len() == 9,
{
    reveal_strlit("{\"type\":\"");
    reveal_strlit("ListParameters");
    reveal_strlit("ListSignals");
    reveal_strlit("GetParameterValue");
    reveal_strlit("SetParameterValue");
    reveal_strlit("SubscribeToSignal");
    reveal_strlit("CloseListenerThread");
    reveal_strlit(",\"name\":");
    reveal_strlit(",\"value\":");
}

/// Three bytes of the tag that tell the tags of the commands apart: its
/// first, its second and its fifth.
pub open spec fn initials(text: Seq<u8>) -> (u8, u8, u8) {
    (text[9], text[10], text[13])
}

/// The head of the frame of a command.
pub open spec fn command_head(command: CommandView) -> Seq<u8> {
    match command {
        CommandView::ListParameters => head("ListParameters"@),
        CommandView::ListSignals => head("ListSignals"@),
        CommandView::GetParameterValue { name } => head("GetParameterValue"@),
        CommandView::SetParameterValue { name, value } => head("SetParameterValue"@),
        CommandView::SubscribeToSignal { name } => head("SubscribeToSignal"@),
        CommandView::CloseListenerThread => head("CloseListenerThread"@),
    }
}

/// What follows the head in the frame of a command.
pub open spec fn command_fields(command: CommandView) -> Seq<u8> {
    match command {
        CommandView::GetParameterValue { name } => name_field(name),
        CommandView::SetParameterValue { name, value } => name_field(name) + value_field(value),
        CommandView::SubscribeToSignal { name } => name_field(name),
        _ => Seq::empty(),
    }
}

/// The text of a command is its head, its fields and a closing brace.
proof fn lemma_command_text_parts(command: CommandView)
    requires
        command.wf(),
    ensures
        command_text(command) == command_head(command) + command_fields(command)
            + seq![CLOSE_BRACE],
        printable(command_head(command)),
        printable(command_fields(command)),
        command_head(command).len() >= 21,
        initials(command_text(command)) == initials(command_head(command)),
{
    lemma_command_tokens();
    let text = command_text(command);
    let h = command_head(command);
    match command {
        CommandView::GetParameterValue { name } => {
            lemma_quoted_printable(encode_utf8(name));
            lemma_printable_concat(ascii(",\"name\":"@), quoted(encode_utf8(name)));
        },
        CommandView::SetParameterValue { name, value } => {
            lemma_quoted_printable(encode_utf8(name));
            lemma_printable_concat(ascii(",\"name\":"@), quoted(encode_utf8(name)));
            crate::object::lemma_number_bytes(value);
            lemma_printable_concat(ascii(",\"value\":"@), value);
            lemma_printable_concat(name_field(name), value_field(value));
            assert(text =~= h + (name_field(name) + value_field(value)) + seq![CLOSE_BRACE]);
        },
        CommandView::SubscribeToSignal { name } => {
            lemma_quoted_printable(encode_utf8(name));
            lemma_printable_concat(ascii(",\"name\":"@), quoted(encode_utf8(name)));
        },
        _ => {
            assert(text =~= h + Seq::<u8>::empty() + seq![CLOSE_BRACE]);
        },
    }
    assert(text[9] == h[9]);
    assert(text[10] == h[10]);
    assert(text[13] == h[13]);
}

/// The text of a command holds no control character.
pub proof fn lemma_command_text_printable(command: CommandView)
    requires
        command.wf(),
    ensures
        printable(command_text(command)),
{
    lemma_command_text_parts(command);
    lemma_printable_concat(command_head(command), command_fields(command));
    lemma_printable_concat(command_head(command) + command_fields(command), seq![CLOSE_BRACE]);
}

/// The frame of a command is one line.
pub proof fn lemma_command_frame_is_line(command: CommandView)
    requires
        command.wf(),
    ensures
        is_line(command_frame(command)),
{
    lemma_command_text_printable(command);
    lemma_printable_line(command_text(command));
}

/// The name that a frame carries behind its head is the one it was written
/// with.
proof fn lemma_name_field_read(text: Seq<u8>, h: int, name: Seq<char>)
    requires
        0 <= h,
        h + name_field(name).len() <= text.len(),
        text.subrange(h, h + name_field(name).len()) == name_field(name),
    ensures
        crate::wire::unquote_at(text, h + 8) == Some(
            (encode_utf8(name), h + name_field(name).len()),
        ),
{
    lemma_command_tokens();
    let field = name_field(name);
    let q = quoted(encode_utf8(name));
    assert(text.subrange(h + 8, h + 8 + q.len()) =~= q) by {
        assert forall|k: int| 0 <= k < q.len() implies text.subrange(h + 8, h + 8 + q.len())[k]
            == q[k] by {
            assert(text.subrange(h, h + field.len())[8 + k] == field[8 + k]);
        }
    }
    crate::wire::lemma_unquote_quoted(text, h + 8, encode_utf8(name));
}

/// A frame stands for one command only: two commands with the same frame
/// are the same variant with the same fields.
pub proof fn lemma_command_text_injective(a: CommandView, b: CommandView)
    requires
        a.wf(),
        b.wf(),
        command_text(a) == command_text(b),
    ensures
        a == b,
{
    lemma_command_tokens();
    lemma_command_text_parts(a);
    lemma_command_text_parts(b);
    let text = command_text(a);
    let h = command_head(a).len() as int;
    assert(command_head(a) == command_head(b));
    match (a, b) {
        (
            CommandView::GetParameterValue { name: first },
            CommandView::GetParameterValue { name: second },
        ) => {
            assert(text.subrange(h, h + name_field(first).len()) =~= name_field(first));
            assert(text.subrange(h, h + name_field(second).len()) =~= name_field(second));
            lemma_same_name(text, h, first, second);
        },
        (
            CommandView::SubscribeToSignal { name: first },
            CommandView::SubscribeToSignal { name: second },
        ) => {
            assert(text.subrange(h, h + name_field(first).len()) =~= name_field(first));
            assert(text.subrange(h, h + name_field(second).len()) =~= name_field(second));
            lemma_same_name(text, h, first, second);
        },
        (
            CommandView::SetParameterValue { name: first, value: one },
            CommandView::SetParameterValue { name: second, value: other },
        ) => {
            assert(text.subrange(h, h + name_field(first).len()) =~= name_field(first));
            assert(text.subrange(h, h + name_field(second).len()) =~= name_field(second));
            lemma_same_name(text, h, first, second);
            let e = h + name_field(first).len();
            let label = ascii(",\"value\":"@);
            assert(one =~= text.subrange(e + 9, text.len() - 1)) by {
                assert(text =~= command_head(a) + name_field(first) + (label + one)
                    + seq![CLOSE_BRACE]);
            }
            assert(other =~= text.subrange(e + 9, text.len() - 1)) by {
                assert(text =~= command_head(b) + name_field(second) + (label + other)
                    + seq![CLOSE_BRACE]);
            }
        },
        _ => {},
    }
}

/// Two names that are written at the same place of the same text are the
/// same name.
proof fn lemma_same_name(text: Seq<u8>, h: int, first: Seq<char>, second: Seq<char>)
    requires
        0 <= h,
        h + name_field(first).len() <= text.len(),
        h + name_field(second).len() <= text.len(),
        text.subrange(h, h + name_field(first).len()) == name_field(first),
        text.subrange(h, h + name_field(second).len()) == name_field(second),
    ensures
        first == second,
{
    lemma_name_field_read(text, h, first);
    lemma_name_field_read(text, h, second);
    vstd::utf8::encode_utf8_decode_utf8(first);
    vstd::utf8::encode_utf8_decode_utf8(second);
}

/// Tells whether `token` stands in `input` at `pos`.
fn starts_with_at(input: &[u8], pos: usize, token: &[u8]) -> (r: bool)
    ensures
        r == starts_at(input@, pos as int, token@),
{
    if pos > input.len() || input.len() - pos < token.len() {
        return false;
    }
    same_bytes(vstd::slice::slice_subrange(input, pos, pos + token.len()), token)
}

/// Appends a mapping to `out`.
fn write_mapping(out: &mut Vec<u8>, parameters: &Parameters)
    ensures
        final(out)@ == old(out)@ + object_text(raw(parameters@)),
        distinct_names(parameters@),
        numeric_values(parameters@),
{
    parameters.recall();
    out.push(OPEN_BRACE);
    let ghost entries = raw(parameters@);
    let mut i: usize = 0;
    while i < parameters.len()
        invariant
            i <= parameters@.len(),
            entries == raw(parameters@),
            out@ == old(out)@ + seq![OPEN_BRACE] + entries_text(entries.subrange(0, i as int)),
        decreases parameters@.len() - i,
    {
        let ghost written = out@;
        if i > 0 {
            out.push(COMMA);
        }
        write_entry(out, parameters.name_at(i).as_str().as_bytes(), parameters.value_at(i).as_bytes());
        proof {
            lemma_entries_text_push(entries.subrange(0, i as int), entries[i as int]);
            assert(entries.subrange(0, i as int).push(entries[i as int]) =~= entries.subrange(
                0,
                i + 1,
            ));
            assert(out@ =~= old(out)@ + seq![OPEN_BRACE] + entries_text(
                entries.subrange(0, i + 1),
            ));
        }
        i = i + 1;
    }
    assert(entries.subrange(0, i as int) =~= entries);
    out.push(CLOSE_BRACE);
    assert(out@ =~= old(out)@ + object_text(raw(parameters@)));
}

/// Writes a response as a frame, as the peer does.
pub fn encode_response(response: &Response) -> (frame: Vec<u8>)
    ensures
        frame@ == response_frame(response@),
        response@.wf(),
        is_line(frame@),
        decoded(frame@) == Ok::<ResponseView, DecodeError>(response@),
{
    let mut out: Vec<u8> = Vec::new();
    match response {
        Response::Parameters(parameters) => {
            proof {
                reveal_strlit("Parameters");
                reveal_strlit(",\"0\":");
            }
            write_head(&mut out, "Parameters");
            write_bytes(&mut out, token(",\"0\":"));
            write_mapping(&mut out, parameters);
        },
        Response::Done => {
            proof {
                reveal_strlit("Done");
            }
            write_head(&mut out, "Done");
        },
    }
    out.push(CLOSE_BRACE);
    out.push(NEWLINE);
    assert(out@ =~= response_frame(response@));
    proof {
        lemma_decode_inverts_encode(response@);
        lemma_response_frame_is_line(response@);
    }
    out
}

/// Builds the mapping that was read, unless a name is no UTF-8 or occurs
/// twice.
fn mapping_of(entries: &Vec<(Vec<u8>, Vec<u8>)>) -> (r: Option<Parameters>)
    requires
        raw_numeric(raw_entries(entries@)),
    ensures
        match r {
            Some(parameters) => names_valid(raw_entries(entries@)) && parameters@ == entries_of(
                raw_entries(entries@),
            ) && distinct_names(parameters@),
            None => !(names_valid(raw_entries(entries@)) && distinct_names(
                entries_of(raw_entries(entries@)),
            )),
        },
{
    let ghost read = raw_entries(entries@);
    let mut parameters = Parameters::new();
    let mut i: usize = 0;
    while i < entries.len()
        invariant
            i <= entries@.len(),
            read == raw_entries(entries@),
            raw_numeric(read),
            names_valid(read.subrange(0, i as int)),
            parameters@ == entries_of(read).subrange(0, i as int),
        decreases entries@.len() - i,
    {
        assert(read[i as int] == (entries@[i as int].0@, entries@[i as int].1@));
        let name_bytes = vstd::slice::slice_to_vec(entries[i].0.as_slice());
        let name = match text_from_utf8(name_bytes) {
            Some(name) => name,
            None => {
                assert(!valid_utf8(read[i as int].0));
                return None;
            },
        };
        assert(crate::number::is_number_literal(read[i as int].1));
        let value = match Number::parse(entries[i].1.as_slice()) {
            Some(value) => value,
            None => {
                return None;
            },
        };
        let ghost before = parameters@;
        let ghost entry = (name@, value@);
        if !parameters.insert(name, value) {
            proof {
                let k = choose|k: int| 0 <= k < before.len() && #[trigger] before[k].0 == entry.0;
                assert(entries_of(read)[k] == before[k]);
                assert(entries_of(read)[i as int].0 == entry.0);
            }
            return None;
        }
        proof {
            assert(entries_of(read)[i as int] == entry);
            assert(parameters@ =~= entries_of(read).subrange(0, i + 1));
            assert forall|k: int| 0 <= k < i + 1 implies valid_utf8(
                #[trigger] read.subrange(0, i + 1)[k].0,
            ) by {
                if k < i {
                    assert(read.subrange(0, i as int)[k] == read[k]);
                }
            }
        }
        i = i + 1;
    }
    proof {
        assert(read.subrange(0, i as int) =~= read);
        assert(entries_of(read).subrange(0, i as int) =~= entries_of(read));
    }
    parameters.recall();
    Some(parameters)
}

/// The head of the frame of `tag`.
fn head_of(tag: &str) -> (bytes: Vec<u8>)
    requires
        is_ascii(tag),
    ensures
        bytes@ == head(tag@),
{
    let mut bytes: Vec<u8> = Vec::new();
    write_head(&mut bytes, tag);
    assert(bytes@ =~= head(tag@));
    bytes
}

/// Reads what follows the head of a `Parameters` frame: the mapping, and
/// the brace that closes the frame.
fn decode_mapping(body: &[u8], h: usize) -> (r: Result<Response, DecodeError>)
    requires
        h == head("Parameters"@).len(),
        starts_at(body@, 0, head("Parameters"@)),
        !starts_at(body@, 0, head("Done"@)),
    ensures
        outcome(r) == parse(body@),
{
    proof {
        lemma_tokens();
        reveal_strlit(",\"0\":");
    }
    let field = token(",\"0\":");
    if !starts_with_at(body, h, field) {
        return Err(DecodeError::UnknownVariant);
    }
    match read_object(body, h + field.len()) {
        Some((entries, end)) => {
            if end >= body.len() || end + 1 != body.len() || body[end] != CLOSE_BRACE {
                return Err(DecodeError::MalformedFrame);
            }
            proof {
                lemma_text_object_at(body@, h + field@.len());
            }
            match mapping_of(&entries) {
                Some(mapping) => Ok(Response::Parameters(mapping)),
                None => Err(DecodeError::MalformedFrame),
            }
        },
        None => Err(DecodeError::MalformedFrame),
    }
}

/// Reads a frame without its line break from left to right.
fn decode_body(body: &[u8]) -> (r: Result<Response, DecodeError>)
    ensures
        outcome(r) == parse(body@),
{
    proof {
        lemma_tokens();
        reveal_strlit("Done");
        reveal_strlit("Parameters");
    }
    let done = head_of("Done");
    let parameters = head_of("Parameters");
    if starts_with_at(body, 0, done.as_slice()) {
        if body.len() == done.len() + 1 && body[done.len()] == CLOSE_BRACE {
            Ok(Response::Done)
        } else {
            Err(DecodeError::MalformedFrame)
        }
    } else if starts_with_at(body, 0, parameters.as_slice()) {
        decode_mapping(body, parameters.len())
    } else {
        Err(DecodeError::MalformedFrame)
    }
}

/// Reads one frame, with or without the line break that ends it.
///
/// The frame of a response gives that response. A frame that has the tag
/// `Parameters` but not the field that holds the mapping is an
/// `UnknownVariant`. Any other bytes are a `MalformedFrame`: an unknown
/// tag, a number that is not finite, a name that is written twice,
/// anything that the encoder does not write.
pub fn decode(frame: &[u8]) -> (r: Result<Response, DecodeError>)
    ensures
        outcome(r) == decoded(frame@),
        r matches Ok(response) ==> response@.wf() && frame_body(frame@) == response_text(response@),
{
    let n: usize = frame.len();
    let body: &[u8] = if n > 0 && frame[n - 1] == NEWLINE {
        vstd::slice::slice_subrange(frame, 0, n - 1)
    } else {
        frame
    };
    proof {
        assert(body@ =~= frame_body(frame@));
        lemma_decoded_is_parse(frame@);
        if parse(body@) is Ok {
            lemma_parse_sound(body@);
        }
    }
    decode_body(body)
}

} // verus!
