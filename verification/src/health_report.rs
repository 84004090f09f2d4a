//! The reports that the server sends to its clients: what it receives of each endpoint, and the
//! latest chat messages. A report is a text of lines, each made of fields with tabs between them.

use crate::buffers;
use crate::number_text;
use crate::text;
use crate::text::{
    chars_of, decimal_chars, join, parse_unsigned, push_char, same_chars, split_fields,
    split_lines, string_of,
};
use bytes::Bytes;
use vstd::prelude::*;

verus! {

/// What the server received of an endpoint. The throughput in Mbit/s is kept as the text of a
/// number.
#[derive(Debug)]
pub struct EndpointHealth {
    pub endpoint_id: String,
    pub achieved_mbps: String,
    pub last_seq: Option<u64>,
    pub max_seq: Option<u64>,
}

#[derive(Debug)]
pub struct ChatMessage {
    pub id: u64,
    pub unix_ms: u64,
    pub user: String,
    pub text: String,
}

#[derive(Debug)]
pub struct HealthReport {
    pub seq: u64,
    pub unix_ms: u64,
    pub endpoints: Vec<EndpointHealth>,
    pub chat: Vec<ChatMessage>,
}

#[verifier::ext_equal]
pub struct EndpointModel {
    pub endpoint_id: Seq<char>,
    pub achieved_mbps: Seq<char>,
    pub last_seq: Option<u64>,
    pub max_seq: Option<u64>,
}

#[verifier::ext_equal]
pub struct ChatModel {
    pub id: u64,
    pub unix_ms: u64,
    pub user: Seq<char>,
    pub text: Seq<char>,
}

#[verifier::ext_equal]
pub struct ReportModel {
    pub seq: u64,
    pub unix_ms: u64,
    pub endpoints: Seq<EndpointModel>,
    pub chat: Seq<ChatModel>,
}

impl View for EndpointHealth {
    type V = EndpointModel;

    open spec fn view(&self) -> EndpointModel {
        EndpointModel {
            endpoint_id: self.endpoint_id@,
            achieved_mbps: self.achieved_mbps@,
            last_seq: self.last_seq,
            max_seq: self.max_seq,
        }
    }
}

impl View for ChatMessage {
    type V = ChatModel;

    open spec fn view(&self) -> ChatModel {
        ChatModel { id: self.id, unix_ms: self.unix_ms, user: self.user@, text: self.text@ }
    }
}

/// The endpoints that a list holds.
pub open spec fn endpoint_models(list: Seq<EndpointHealth>) -> Seq<EndpointModel> {
    list.map_values(|endpoint: EndpointHealth| endpoint@)
}

/// The messages that a list holds.
pub open spec fn chat_models(list: Seq<ChatMessage>) -> Seq<ChatModel> {
    list.map_values(|message: ChatMessage| message@)
}

impl View for HealthReport {
    type V = ReportModel;

    open spec fn view(&self) -> ReportModel {
        ReportModel {
            seq: self.seq,
            unix_ms: self.unix_ms,
            endpoints: endpoint_models(self.endpoints@),
            chat: chat_models(self.chat@),
        }
    }
}

impl Clone for ChatMessage {
    fn clone(&self) -> (copy: ChatMessage)
        ensures
            copy == *self,
    {
        ChatMessage {
            id: self.id,
            unix_ms: self.unix_ms,
            user: self.user.clone(),
            text: self.text.clone(),
        }
    }
}

/// Why bytes are no report.
#[derive(Debug, Clone, Copy, PartialEq, Eq, Structural)]
pub enum HealthError {
    NotUtf8,
    MissingHeader,
    UnexpectedMagic,
    MissingSeq,
    InvalidSeq,
    MissingUnixMs,
    InvalidUnixMs,
    MissingChatId,
    InvalidChatId,
    MissingChatUnixMs,
    InvalidChatUnixMs,
    MissingChatUser,
    MissingChatText,
    UnexpectedKind,
    MissingEndpointId,
    InvalidEndpointRow,
    InvalidThroughput,
    InvalidLastSeq,
    InvalidMaxSeq,
}

impl HealthError {
    /// The text of the error.
    pub open spec fn message(self) -> Seq<char> {
        match self {
            HealthError::NotUtf8 => "health report is not valid utf-8"@,
            HealthError::MissingHeader => "missing health report header"@,
            HealthError::UnexpectedMagic => "unexpected health report magic"@,
            HealthError::MissingSeq => "missing health report seq"@,
            HealthError::InvalidSeq => "invalid health report seq"@,
            HealthError::MissingUnixMs => "missing health report unix_ms"@,
            HealthError::InvalidUnixMs => "invalid health report unix_ms"@,
            HealthError::MissingChatId => "missing chat id"@,
            HealthError::InvalidChatId => "invalid chat id"@,
            HealthError::MissingChatUnixMs => "missing chat unix_ms"@,
            HealthError::InvalidChatUnixMs => "invalid chat unix_ms"@,
            HealthError::MissingChatUser => "missing chat user"@,
            HealthError::MissingChatText => "missing chat text"@,
            HealthError::UnexpectedKind => "unexpected health report row kind"@,
            HealthError::MissingEndpointId => "missing endpoint id"@,
            HealthError::InvalidEndpointRow => "invalid endpoint health row"@,
            HealthError::InvalidThroughput => "invalid achieved throughput"@,
            HealthError::InvalidLastSeq => "invalid last_seq"@,
            HealthError::InvalidMaxSeq => "invalid max_seq"@,
        }
    }

    pub fn to_string(&self) -> (text: String)
        ensures
            text@ == self.message(),
    {
        match self {
            HealthError::NotUtf8 => "health report is not valid utf-8".to_owned(),
            HealthError::MissingHeader => "missing health report header".to_owned(),
            HealthError::UnexpectedMagic => "unexpected health report magic".to_owned(),
            HealthError::MissingSeq => "missing health report seq".to_owned(),
            HealthError::InvalidSeq => "invalid health report seq".to_owned(),
            HealthError::MissingUnixMs => "missing health report unix_ms".to_owned(),
            HealthError::InvalidUnixMs => "invalid health report unix_ms".to_owned(),
            HealthError::MissingChatId => "missing chat id".to_owned(),
            HealthError::InvalidChatId => "invalid chat id".to_owned(),
            HealthError::MissingChatUnixMs => "missing chat unix_ms".to_owned(),
            HealthError::InvalidChatUnixMs => "invalid chat unix_ms".to_owned(),
            HealthError::MissingChatUser => "missing chat user".to_owned(),
            HealthError::MissingChatText => "missing chat text".to_owned(),
            HealthError::UnexpectedKind => "unexpected health report row kind".to_owned(),
            HealthError::MissingEndpointId => "missing endpoint id".to_owned(),
            HealthError::InvalidEndpointRow => "invalid endpoint health row".to_owned(),
            HealthError::InvalidThroughput => "invalid achieved throughput".to_owned(),
            HealthError::InvalidLastSeq => "invalid last_seq".to_owned(),
            HealthError::InvalidMaxSeq => "invalid max_seq".to_owned(),
        }
    }
}

/// What every report begins with.
pub open spec fn magic() -> Seq<char> {
    "irohsion-health/v2"@
}

/// The text for one character of a message.
pub open spec fn encoded_char(c: char) -> Seq<char> {
    if c == '\\' {
        seq!['\\', '\\']
    } else if c == '\t' {
        seq!['\\', 't']
    } else if c == '\n' {
        seq!['\\', 'n']
    } else if c == '\r' {
        seq!['\\', 'r']
    } else {
        seq![c]
    }
}

/// A text in which no tab and no line end stands.
pub open spec fn encoded_text(text: Seq<char>) -> Seq<char>
    decreases text.len(),
{
    if text.len() == 0 {
        Seq::empty()
    } else {
        encoded_text(text.drop_last()) + encoded_char(text.last())
    }
}

/// The text for a backslash and the character after it.
pub open spec fn decoded_pair(c: char) -> Seq<char> {
    if c == '\\' {
        seq!['\\']
    } else if c == 't' {
        seq!['\t']
    } else if c == 'n' {
        seq!['\n']
    } else if c == 'r' {
        seq!['\r']
    } else {
        seq!['\\', c]
    }
}

/// The text that an encoded text stands for.
pub open spec fn decoded_text(text: Seq<char>) -> Seq<char>
    decreases text.len(),
{
    if text.len() == 0 {
        Seq::empty()
    } else if text[0] != '\\' {
        seq![text[0]] + decoded_text(text.skip(1))
    } else if text.len() == 1 {
        seq!['\\']
    } else {
        decoded_pair(text[1]) + decoded_text(text.skip(2))
    }
}

/// The text of a sequence number, or a dash if there is none.
pub open spec fn sequence_text(value: Option<u64>) -> Seq<char> {
    match value {
        Some(sequence) => text::decimal(sequence as nat),
        None => "-"@,
    }
}

pub open spec fn header_fields(report: ReportModel) -> Seq<Seq<char>> {
    seq![magic(), text::decimal(report.seq as nat), text::decimal(report.unix_ms as nat)]
}

pub open spec fn endpoint_fields(endpoint: EndpointModel) -> Seq<Seq<char>> {
    seq![
        "endpoint"@,
        endpoint.endpoint_id,
        endpoint.achieved_mbps,
        sequence_text(endpoint.last_seq),
        sequence_text(endpoint.max_seq),
    ]
}

pub open spec fn chat_fields(message: ChatModel) -> Seq<Seq<char>> {
    seq![
        "chat"@,
        text::decimal(message.id as nat),
        text::decimal(message.unix_ms as nat),
        encoded_text(message.user),
        encoded_text(message.text),
    ]
}

/// A line of fields.
pub open spec fn line_of(list: Seq<Seq<char>>) -> Seq<char> {
    text::joined(list, "\t"@)
}

/// The lines of a report: a header, a line for each endpoint and a line for each message.
pub open spec fn report_lines(report: ReportModel) -> Seq<Seq<char>> {
    seq![line_of(header_fields(report))] + report.endpoints.map_values(
        |endpoint: EndpointModel| line_of(endpoint_fields(endpoint)),
    ) + report.chat.map_values(|message: ChatModel| line_of(chat_fields(message)))
}

/// What a line of a report says.
#[verifier::ext_equal]
pub enum RowModel {
    Blank,
    Endpoint(EndpointModel),
    Chat(ChatModel),
}

/// The number of 64 bits that a field stands for.
pub open spec fn number_of(field: Seq<char>) -> Option<u64> {
    match text::unsigned_value(field, u64::MAX as nat) {
        Some(value) => Some(value as u64),
        None => None,
    }
}

/// The message that the fields after the kind of a line stand for.
pub open spec fn chat_of(list: Seq<Seq<char>>) -> Result<ChatModel, HealthError> {
    if list.len() < 2 {
        Err(HealthError::MissingChatId)
    } else if number_of(list[1]) is None {
        Err(HealthError::InvalidChatId)
    } else if list.len() < 3 {
        Err(HealthError::MissingChatUnixMs)
    } else if number_of(list[2]) is None {
        Err(HealthError::InvalidChatUnixMs)
    } else if list.len() < 4 {
        Err(HealthError::MissingChatUser)
    } else if list.len() < 5 {
        Err(HealthError::MissingChatText)
    } else {
        Ok(
            ChatModel {
                id: number_of(list[1])->0,
                unix_ms: number_of(list[2])->0,
                user: decoded_text(list[3]),
                text: decoded_text(list[4]),
            },
        )
    }
}

/// The endpoint that the fields of a line stand for. The throughput is followed by the last and,
/// since there was one, the greatest sequence number; an older form has one more number before it.
pub open spec fn endpoint_of(list: Seq<Seq<char>>) -> Result<EndpointModel, HealthError> {
    if list.len() < 2 {
        Err(HealthError::MissingEndpointId)
    } else if list.len() < 4 || list.len() > 6 {
        Err(HealthError::InvalidEndpointRow)
    } else {
        let at = if list.len() == 6 {
            3int
        } else {
            2int
        };
        let last = list[at + 1];
        let max = if list.len() == 4 {
            "-"@
        } else {
            list[at + 2]
        };
        if !number_text::is_float(list[at]) {
            Err(HealthError::InvalidThroughput)
        } else if last != "-"@ && number_of(last) is None {
            Err(HealthError::InvalidLastSeq)
        } else if max != "-"@ && number_of(max) is None {
            Err(HealthError::InvalidMaxSeq)
        } else {
            let last_seq = if last == "-"@ {
                None
            } else {
                number_of(last)
            };
            Ok(
                EndpointModel {
                    endpoint_id: list[1],
                    achieved_mbps: list[at],
                    last_seq,
                    max_seq: if max == "-"@ {
                        last_seq
                    } else {
                        number_of(max)
                    },
                },
            )
        }
    }
}

/// What a line of a report says.
pub open spec fn row_of(line: Seq<char>) -> Result<RowModel, HealthError> {
    let list = text::fields(line, '\t');
    if line.len() == 0 {
        Ok(RowModel::Blank)
    } else if list[0] == "chat"@ {
        match chat_of(list) {
            Ok(message) => Ok(RowModel::Chat(message)),
            Err(error) => Err(error),
        }
    } else if list[0] == "endpoint"@ {
        match endpoint_of(list) {
            Ok(endpoint) => Ok(RowModel::Endpoint(endpoint)),
            Err(error) => Err(error),
        }
    } else {
        Err(HealthError::UnexpectedKind)
    }
}

/// What the lines after the header say, up to the first that says nothing.
pub open spec fn rows_of(list: Seq<Seq<char>>) -> Result<
    (Seq<EndpointModel>, Seq<ChatModel>),
    HealthError,
>
    decreases list.len(),
{
    if list.len() == 0 {
        Ok((Seq::empty(), Seq::empty()))
    } else {
        match rows_of(list.drop_last()) {
            Err(error) => Err(error),
            Ok((endpoints, chat)) => match row_of(list.last()) {
                Err(error) => Err(error),
                Ok(RowModel::Blank) => Ok((endpoints, chat)),
                Ok(RowModel::Endpoint(endpoint)) => Ok((endpoints.push(endpoint), chat)),
                Ok(RowModel::Chat(message)) => Ok((endpoints, chat.push(message))),
            },
        }
    }
}

/// What the header of a report says: its number and its time.
pub open spec fn header_of(line: Seq<char>) -> Result<(u64, u64), HealthError> {
    let list = text::fields(line, '\t');
    if list[0] != magic() {
        Err(HealthError::UnexpectedMagic)
    } else if list.len() < 2 {
        Err(HealthError::MissingSeq)
    } else if number_of(list[1]) is None {
        Err(HealthError::InvalidSeq)
    } else if list.len() < 3 {
        Err(HealthError::MissingUnixMs)
    } else if number_of(list[2]) is None {
        Err(HealthError::InvalidUnixMs)
    } else {
        Ok((number_of(list[1])->0, number_of(list[2])->0))
    }
}

/// The report that a text stands for.
pub open spec fn report_of(text: Seq<char>) -> Result<ReportModel, HealthError> {
    let list = text::lines(text);
    if list.len() == 0 {
        Err(HealthError::MissingHeader)
    } else {
        match header_of(list[0]) {
            Err(error) => Err(error),
            Ok((seq, unix_ms)) => match rows_of(list.drop_first()) {
                Err(error) => Err(error),
                Ok((endpoints, chat)) => Ok(ReportModel { seq, unix_ms, endpoints, chat }),
            },
        }
    }
}

/// `std::str::from_utf8` gives the text that the bytes encode, exactly if they are valid UTF-8.
#[verifier::external_body]
fn utf8_text(data: &[u8]) -> (text: Option<String>)
    ensures
        text is Some <==> vstd::utf8::valid_utf8(data@),
        text matches Some(found) ==> found@ == vstd::utf8::decode_utf8(data@),
{
    match std::str::from_utf8(data) {
        Ok(text) => Some(text.to_owned()),
        Err(_) => None,
    }
}

pub fn encode_health_text(text: &str) -> (encoded: String)
    ensures
        encoded@ == encoded_text(text@),
{
    let chars = chars_of(text);
    let mut encoded = String::new();
    assert(text@.take(0) =~= Seq::empty());
    for i in 0..chars.len()
        invariant
            chars@ == text@,
            encoded@ == encoded_text(text@.take(i as int)),
    {
        let c = chars[i];
        assert(text@.take(i + 1).drop_last() =~= text@.take(i as int));
        let ghost before = encoded@;
        if c == '\\' {
            push_char(&mut encoded, '\\');
            push_char(&mut encoded, '\\');
        } else if c == '\t' {
            push_char(&mut encoded, '\\');
            push_char(&mut encoded, 't');
        } else if c == '\n' {
            push_char(&mut encoded, '\\');
            push_char(&mut encoded, 'n');
        } else if c == '\r' {
            push_char(&mut encoded, '\\');
            push_char(&mut encoded, 'r');
        } else {
            push_char(&mut encoded, c);
        }
        assert(encoded@ =~= before + encoded_char(c));
    }
    assert(text@.take(text@.len() as int) =~= text@);
    encoded
}

pub fn decode_health_text(text: &[char]) -> (decoded: String)
    ensures
        decoded@ == decoded_text(text@),
{
    let mut decoded = String::new();
    let mut i: usize = 0;
    assert(text@.skip(0) =~= text@);
    while i < text.len()
        invariant
            i <= text@.len(),
            decoded_text(text@) == decoded@ + decoded_text(text@.skip(i as int)),
        decreases text@.len() - i,
    {
        let ghost rest = text@.skip(i as int);
        let ghost before = decoded@;
        let c = text[i];
        if c != '\\' {
            push_char(&mut decoded, c);
            assert(rest.skip(1) =~= text@.skip(i + 1));
            assert(decoded@ + decoded_text(rest.skip(1)) =~= before + decoded_text(rest));
            i += 1;
        } else if text.len() - i == 1 {
            push_char(&mut decoded, '\\');
            assert(text@.skip(i + 1) =~= Seq::empty());
            assert(decoded@ + Seq::<char>::empty() =~= before + decoded_text(rest));
            i += 1;
        } else {
            let other = text[i + 1];
            if other == '\\' {
                push_char(&mut decoded, '\\');
            } else if other == 't' {
                push_char(&mut decoded, '\t');
            } else if other == 'n' {
                push_char(&mut decoded, '\n');
            } else if other == 'r' {
                push_char(&mut decoded, '\r');
            } else {
                push_char(&mut decoded, '\\');
                push_char(&mut decoded, other);
            }
            assert(decoded@ =~= before + decoded_pair(other));
            assert(rest.skip(2) =~= text@.skip(i + 2));
            assert(decoded@ + decoded_text(rest.skip(2)) =~= before + decoded_text(rest));
            i += 2;
        }
    }
    assert(text@.skip(i as int) =~= Seq::empty());
    assert(decoded@ =~= decoded_text(text@));
    decoded
}

fn number_text_of(value: u64) -> (text: String)
    ensures
        text@ == text::decimal(value as nat),
{
    string_of(decimal_chars(value).as_slice())
}

fn sequence_text_of(value: Option<u64>) -> (text: String)
    ensures
        text@ == sequence_text(value),
{
    match value {
        Some(sequence) => number_text_of(sequence),
        None => "-".to_owned(),
    }
}

/// Adds a line of fields to a text.
fn push_line(payload: &mut String, list: Vec<String>)
    ensures
        final(payload)@ == (old(payload)@ + line_of(text::texts(list@))).push('\n'),
{
    let line = join(list.as_slice(), "\t");
    payload.append(line.as_str());
    push_char(payload, '\n');
}

/// The report as it is sent.
pub fn encode_health_report(report: &HealthReport) -> (data: Bytes)
    ensures
        buffers::contents(data) == vstd::utf8::encode_utf8(text::terminated(report_lines(report@))),
{
    let ghost all = report_lines(report@);
    let mut payload = String::new();
    assert(all.take(0).len() == 0);
    assert(payload@ =~= text::terminated(all.take(0)));
    let mut header: Vec<String> = Vec::new();
    header.push("irohsion-health/v2".to_owned());
    header.push(number_text_of(report.seq));
    header.push(number_text_of(report.unix_ms));
    assert(text::texts(header@) =~= header_fields(report@));
    push_line(&mut payload, header);
    assert(all.take(1).drop_last() =~= all.take(0));
    assert(all.take(1).last() == line_of(header_fields(report@)));
    assert(payload@ =~= text::terminated(all.take(1)));
    for i in 0..report.endpoints.len()
        invariant
            all == report_lines(report@),
            payload@ == text::terminated(all.take(i + 1)),
    {
        let endpoint = &report.endpoints[i];
        let mut list: Vec<String> = Vec::new();
        list.push("endpoint".to_owned());
        list.push(endpoint.endpoint_id.clone());
        list.push(endpoint.achieved_mbps.clone());
        list.push(sequence_text_of(endpoint.last_seq));
        list.push(sequence_text_of(endpoint.max_seq));
        proof {
            assert(text::texts(list@) =~= endpoint_fields(endpoint@));
            assert(report@.endpoints[i as int] == endpoint@);
            assert(all[i + 1] == line_of(endpoint_fields(endpoint@)));
            assert(all.take(i + 2).drop_last() =~= all.take(i + 1));
        }
        push_line(&mut payload, list);
    }
    for i in 0..report.chat.len()
        invariant
            all == report_lines(report@),
            payload@ == text::terminated(all.take(i + 1 + report.endpoints@.len())),
    {
        let message = &report.chat[i];
        let ghost at = i + 1 + report.endpoints@.len();
        let mut list: Vec<String> = Vec::new();
        list.push("chat".to_owned());
        list.push(number_text_of(message.id));
        list.push(number_text_of(message.unix_ms));
        list.push(encode_health_text(message.user.as_str()));
        list.push(encode_health_text(message.text.as_str()));
        proof {
            assert(text::texts(list@) =~= chat_fields(message@));
            assert(report@.chat[i as int] == message@);
            assert(all[at] == line_of(chat_fields(message@)));
            assert(all.take(at + 1).drop_last() =~= all.take(at));
        }
        push_line(&mut payload, list);
    }
    assert(all.take(all.len() as int) =~= all);
    buffers::bytes_from_string(payload)
}

/// Whether a field is a word.
fn field_is(field: &Vec<char>, word: &str) -> (result: bool)
    ensures
        result == (field@ == word@),
{
    same_chars(field.as_slice(), chars_of(word).as_slice())
}

fn parse_number(field: &Vec<char>) -> (value: Option<u64>)
    ensures
        value == number_of(field@),
{
    parse_unsigned(field.as_slice(), u64::MAX)
}

fn parse_chat(list: &Vec<Vec<char>>) -> (result: Result<ChatMessage, HealthError>)
    ensures
        match chat_of(text::char_texts(list@)) {
            Ok(message) => result matches Ok(found) && found@ == message,
            Err(error) => result == Err::<ChatMessage, HealthError>(error),
        },
{
    let ghost fields = text::char_texts(list@);
    if list.len() < 2 {
        return Err(HealthError::MissingChatId);
    }
    assert(fields[1] == list@[1]@);
    let id: u64 = match parse_number(&list[1]) {
        Some(value) => value,
        None => {
            return Err(HealthError::InvalidChatId);
        },
    };
    if list.len() < 3 {
        return Err(HealthError::MissingChatUnixMs);
    }
    assert(fields[2] == list@[2]@);
    let unix_ms: u64 = match parse_number(&list[2]) {
        Some(value) => value,
        None => {
            return Err(HealthError::InvalidChatUnixMs);
        },
    };
    if list.len() < 4 {
        return Err(HealthError::MissingChatUser);
    }
    if list.len() < 5 {
        return Err(HealthError::MissingChatText);
    }
    assert(fields[3] == list@[3]@);
    assert(fields[4] == list@[4]@);
    Ok(
        ChatMessage {
            id,
            unix_ms,
            user: decode_health_text(list[3].as_slice()),
            text: decode_health_text(list[4].as_slice()),
        },
    )
}

fn parse_endpoint(list: &Vec<Vec<char>>) -> (result: Result<EndpointHealth, HealthError>)
    ensures
        match endpoint_of(text::char_texts(list@)) {
            Ok(endpoint) => result matches Ok(found) && found@ == endpoint,
            Err(error) => result == Err::<EndpointHealth, HealthError>(error),
        },
{
    let ghost fields = text::char_texts(list@);
    if list.len() < 2 {
        return Err(HealthError::MissingEndpointId);
    }
    if list.len() < 4 || list.len() > 6 {
        return Err(HealthError::InvalidEndpointRow);
    }
    let at: usize = if list.len() == 6 {
        3
    } else {
        2
    };
    assert(fields[1] == list@[1]@);
    assert(fields[at as int] == list@[at as int]@);
    assert(fields[at + 1] == list@[at + 1]@);
    if !number_text::parses_as_float(list[at].as_slice()) {
        return Err(HealthError::InvalidThroughput);
    }
    let last_seq: Option<u64> = if field_is(&list[at + 1], "-") {
        None
    } else {
        match parse_number(&list[at + 1]) {
            Some(value) => Some(value),
            None => {
                return Err(HealthError::InvalidLastSeq);
            },
        }
    };
    let max_seq: Option<u64> = if list.len() == 4 {
        last_seq
    } else {
        assert(fields[at + 2] == list@[at + 2]@);
        if field_is(&list[at + 2], "-") {
            last_seq
        } else {
            match parse_number(&list[at + 2]) {
                Some(value) => Some(value),
                None => {
                    return Err(HealthError::InvalidMaxSeq);
                },
            }
        }
    };
    Ok(
        EndpointHealth {
            endpoint_id: string_of(list[1].as_slice()),
            achieved_mbps: string_of(list[at].as_slice()),
            last_seq,
            max_seq,
        },
    )
}

fn parse_header(line: &Vec<char>) -> (result: Result<(u64, u64), HealthError>)
    ensures
        result == header_of(line@),
{
    let list = split_fields(line.as_slice(), '\t');
    let ghost fields = text::fields(line@, '\t');
    proof {
        text::lemma_split_where_nonempty(line@, text::only('\t'));
        assert(fields[0] == list@[0]@);
    }
    if !field_is(&list[0], "irohsion-health/v2") {
        return Err(HealthError::UnexpectedMagic);
    }
    if list.len() < 2 {
        return Err(HealthError::MissingSeq);
    }
    assert(fields[1] == list@[1]@);
    let seq: u64 = match parse_number(&list[1]) {
        Some(value) => value,
        None => {
            return Err(HealthError::InvalidSeq);
        },
    };
    if list.len() < 3 {
        return Err(HealthError::MissingUnixMs);
    }
    assert(fields[2] == list@[2]@);
    match parse_number(&list[2]) {
        Some(unix_ms) => Ok((seq, unix_ms)),
        None => Err(HealthError::InvalidUnixMs),
    }
}

/// Reads the lines after the header.
fn parse_rows(list: &Vec<Vec<char>>) -> (result: Result<
    (Vec<EndpointHealth>, Vec<ChatMessage>),
    HealthError,
>)
    requires
        list@.len() > 0,
    ensures
        match rows_of(text::char_texts(list@).drop_first()) {
            Ok((endpoints, chat)) => result matches Ok(found) && endpoint_models(found.0@)
                == endpoints && chat_models(found.1@) == chat,
            Err(error) => result == Err::<(Vec<EndpointHealth>, Vec<ChatMessage>), HealthError>(
                error,
            ),
        },
{
    let ghost rows = text::char_texts(list@).drop_first();
    let mut endpoints: Vec<EndpointHealth> = Vec::new();
    let mut chat: Vec<ChatMessage> = Vec::new();
    assert(rows.take(0) =~= Seq::empty());
    assert(endpoint_models(endpoints@) =~= Seq::empty());
    assert(chat_models(chat@) =~= Seq::empty());
    for i in 1..list.len()
        invariant
            list@.len() > 0,
            rows == text::char_texts(list@).drop_first(),
            rows_of(rows.take(i - 1)) == Ok::<(Seq<EndpointModel>, Seq<ChatModel>), HealthError>(
                (endpoint_models(endpoints@), chat_models(chat@)),
            ),
    {
        let line = &list[i];
        proof {
            assert(rows.take(i as int).drop_last() =~= rows.take(i - 1));
            assert(rows[i - 1] == line@);
            assert(rows.take(i as int).last() == line@);
            lemma_rows_error(rows, i as int);
        }
        if line.len() > 0 {
            let fields = split_fields(line.as_slice(), '\t');
            proof {
                text::lemma_split_where_nonempty(line@, text::only('\t'));
                assert(text::fields(line@, '\t')[0] == fields@[0]@);
            }
            if field_is(&fields[0], "chat") {
                match parse_chat(&fields) {
                    Ok(message) => {
                        let ghost before = chat@;
                        chat.push(message);
                        assert(chat_models(chat@) =~= chat_models(before).push(message@));
                    },
                    Err(error) => {
                        return Err(error);
                    },
                }
            } else if field_is(&fields[0], "endpoint") {
                match parse_endpoint(&fields) {
                    Ok(endpoint) => {
                        let ghost before = endpoints@;
                        endpoints.push(endpoint);
                        assert(endpoint_models(endpoints@) =~= endpoint_models(before).push(
                            endpoint@,
                        ));
                    },
                    Err(error) => {
                        return Err(error);
                    },
                }
            } else {
                return Err(HealthError::UnexpectedKind);
            }
        }
    }
    assert(rows.take(rows.len() as int) =~= rows);
    Ok((endpoints, chat))
}

/// The first line that says nothing decides for all lines.
proof fn lemma_rows_error(rows: Seq<Seq<char>>, count: int)
    requires
        0 <= count <= rows.len(),
    ensures
        rows_of(rows.take(count)) is Err ==> rows_of(rows) == rows_of(rows.take(count)),
    decreases rows.len(),
{
    if count < rows.len() {
        let shorter = rows.drop_last();
        lemma_rows_error(shorter, count);
        assert(shorter.take(count) =~= rows.take(count));
    } else {
        assert(rows.take(count) =~= rows);
    }
}

/// Reads a report.
pub fn decode_health_report(data: &[u8]) -> (result: Result<HealthReport, HealthError>)
    ensures
        if !vstd::utf8::valid_utf8(data@) {
            result == Err::<HealthReport, HealthError>(HealthError::NotUtf8)
        } else {
            match report_of(vstd::utf8::decode_utf8(data@)) {
                Ok(report) => result matches Ok(found) && found@ == report,
                Err(error) => result == Err::<HealthReport, HealthError>(error),
            }
        },
{
    let content = match utf8_text(data) {
        Some(content) => content,
        None => {
            return Err(HealthError::NotUtf8);
        },
    };
    let list = split_lines(chars_of(content.as_str()).as_slice());
    if list.len() == 0 {
        return Err(HealthError::MissingHeader);
    }
    assert(text::lines(content@)[0] == list@[0]@);
    let (seq, unix_ms) = match parse_header(&list[0]) {
        Ok(header) => header,
        Err(error) => {
            return Err(error);
        },
    };
    match parse_rows(&list) {
        Ok((endpoints, chat)) => Ok(HealthReport { seq, unix_ms, endpoints, chat }),
        Err(error) => Err(error),
    }
}

/// Encoding takes a text character by character, from the front as well.
proof fn lemma_encoded_front(text: Seq<char>)
    requires
        text.len() > 0,
    ensures
        encoded_text(text) == encoded_char(text[0]) + encoded_text(text.drop_first()),
    decreases text.len(),
{
    let shorter = text.drop_last();
    if text.len() == 1 {
        assert(shorter =~= Seq::empty());
        assert(text.drop_first() =~= Seq::empty());
        assert(encoded_text(text) =~= encoded_char(text[0]) + encoded_text(text.drop_first()));
    } else {
        lemma_encoded_front(shorter);
        assert(text.drop_first().drop_last() =~= shorter.drop_first());
        assert(text.drop_first().last() == text.last());
        assert(encoded_text(text) =~= encoded_char(text[0]) + encoded_text(text.drop_first()));
    }
}

/// Every text comes back from its encoding, in which no tab, line feed or carriage return stands.
pub proof fn law_health_text_round_trip(text: Seq<char>)
    ensures
        decoded_text(encoded_text(text)) == text,
        !encoded_text(text).contains('\t'),
        !encoded_text(text).contains('\n'),
        !encoded_text(text).contains('\r'),
    decreases text.len(),
{
    if text.len() == 0 {
        assert(encoded_text(text) =~= Seq::empty());
        assert(decoded_text(encoded_text(text)) =~= text);
    } else {
        let rest = text.drop_first();
        law_health_text_round_trip(rest);
        lemma_encoded_front(text);
        let first = encoded_char(text[0]);
        let tail = encoded_text(rest);
        let all = encoded_text(text);
        assert(all == first + tail);
        if first.len() == 1 {
            assert(all.skip(1) =~= tail);
        } else {
            assert(all[0] == '\\');
            assert(all[1] == first[1]);
            assert(all.skip(2) =~= tail);
        }
        assert(seq![text[0]] + rest =~= text);
        assert forall|c: char| c == '\t' || c == '\n' || c == '\r' implies !all.contains(c) by {
            if all.contains(c) {
                let i = choose|i: int| 0 <= i < all.len() && all[i] == c;
                if i < first.len() {
                    assert(first[i] == c);
                } else {
                    assert(tail[i - first.len()] == c);
                    assert(tail.contains(c));
                }
            }
        }
    }
}

/// A joined text holds only characters of its fields and of the separator.
proof fn lemma_joined_lacks(list: Seq<Seq<char>>, separator: Seq<char>, c: char)
    requires
        !separator.contains(c),
        forall|i: int| 0 <= i < list.len() ==> !(#[trigger] list[i]).contains(c),
    ensures
        !text::joined(list, separator).contains(c),
    decreases list.len(),
{
    let all = text::joined(list, separator);
    if list.len() == 1 {
        assert(!list[0].contains(c));
    } else if list.len() > 1 {
        let shorter = list.drop_last();
        assert forall|i: int| 0 <= i < shorter.len() implies !(#[trigger] shorter[i]).contains(
            c,
        ) by {
            assert(shorter[i] == list[i]);
        }
        lemma_joined_lacks(shorter, separator, c);
        let before = text::joined(shorter, separator);
        let last = list[list.len() - 1];
        assert(!last.contains(c));
        if all.contains(c) {
            let i = choose|i: int| 0 <= i < all.len() && all[i] == c;
            if i < before.len() {
                assert(before[i] == c);
            } else if i < before.len() + separator.len() {
                assert(separator[i - before.len()] == c);
            } else {
                assert(last[i - before.len() - separator.len()] == c);
            }
        }
    }
}

/// A decimal number holds digits only.
proof fn lemma_decimal_lacks(value: nat, c: char)
    requires
        !text::is_digit(c),
    ensures
        !text::decimal(value).contains(c),
        text::decimal(value).len() > 0,
        text::decimal(value) != "-"@,
{
    text::lemma_decimal_is_digits(value);
    reveal_strlit("-");
    if text::decimal(value).contains(c) {
        let i = choose|i: int| 0 <= i < text::decimal(value).len() && text::decimal(value)[i] == c;
        assert(text::is_digit(text::decimal(value)[i]));
    }
    if text::decimal(value) == "-"@ {
        assert(text::is_digit(text::decimal(value)[0]));
    }
}

proof fn lemma_sequence_lacks(value: Option<u64>, c: char)
    requires
        !text::is_digit(c),
        c != '-',
    ensures
        !sequence_text(value).contains(c),
        sequence_text(value).len() > 0,
{
    reveal_strlit("-");
    match value {
        Some(sequence) => lemma_decimal_lacks(sequence as nat, c),
        None => {},
    }
}

/// A number comes back from its text.
proof fn lemma_number_round_trip(value: u64)
    ensures
        number_of(text::decimal(value as nat)) == Some(value),
{
    text::law_decimal_round_trip(value as nat, u64::MAX as nat);
}

/// Whether an endpoint can be written as a line: no tab and no line feed stands in its name, and
/// its throughput is the text of a number.
pub open spec fn is_writable(endpoint: EndpointModel) -> bool {
    &&& !endpoint.endpoint_id.contains('\t')
    &&& !endpoint.endpoint_id.contains('\n')
    &&& number_text::is_float(endpoint.achieved_mbps)
}

/// What a reader learns of an endpoint: a missing greatest sequence number is the last one.
pub open spec fn as_read(endpoint: EndpointModel) -> EndpointModel {
    EndpointModel {
        max_seq: if endpoint.max_seq is None {
            endpoint.last_seq
        } else {
            endpoint.max_seq
        },
        ..endpoint
    }
}

proof fn lemma_float_lacks(text: Seq<char>, c: char)
    requires
        number_text::is_float(text),
        c == '\t' || c == '\n',
    ensures
        !text.contains(c),
{
    number_text::lemma_float_chars(text);
    if text.contains(c) {
        let i = choose|i: int| 0 <= i < text.len() && text[i] == c;
        assert(number_text::is_number_char(text[i]));
    }
}

proof fn lemma_tab()
    ensures
        "\t"@ == seq!['\t'],
{
    reveal_strlit("\t");
    assert("\t"@ =~= seq!['\t']);
}

/// A line whose last field is not empty ends as that field does.
proof fn lemma_line_end(list: Seq<Seq<char>>)
    requires
        list.len() > 1,
        !list.last().contains('\r'),
    ensures
        text::strip_carriage_return(line_of(list)) == line_of(list),
{
    lemma_tab();
    let line = line_of(list);
    let last = list.last();
    if last.len() > 0 {
        assert(line.last() == last.last());
        assert(last.contains(last[last.len() - 1]));
    } else {
        assert(line.last() == '\t');
    }
}

/// The line of an endpoint is read back.
proof fn lemma_endpoint_line(endpoint: EndpointModel)
    requires
        is_writable(endpoint),
    ensures
        row_of(line_of(endpoint_fields(endpoint))) == Ok::<RowModel, HealthError>(
            RowModel::Endpoint(as_read(endpoint)),
        ),
        !line_of(endpoint_fields(endpoint)).contains('\n'),
        text::strip_carriage_return(line_of(endpoint_fields(endpoint))) == line_of(
            endpoint_fields(endpoint),
        ),
{
    let list = endpoint_fields(endpoint);
    lemma_tab();
    reveal_strlit("endpoint");
    reveal_strlit("chat");
    reveal_strlit("-");
    lemma_sequence_lacks(endpoint.last_seq, '\t');
    lemma_sequence_lacks(endpoint.last_seq, '\n');
    lemma_sequence_lacks(endpoint.max_seq, '\t');
    lemma_sequence_lacks(endpoint.max_seq, '\n');
    lemma_sequence_lacks(endpoint.max_seq, '\r');
    lemma_float_lacks(endpoint.achieved_mbps, '\t');
    lemma_float_lacks(endpoint.achieved_mbps, '\n');
    text::lemma_fields_of_joined(list, '\t');
    lemma_joined_lacks(list, "\t"@, '\n');
    lemma_line_end(list);
    assert("endpoint"@[0] == 'e');
    assert("chat"@[0] == 'c');
    if let Some(last) = endpoint.last_seq {
        lemma_number_round_trip(last);
        lemma_decimal_lacks(last as nat, 'x');
    }
    if let Some(max) = endpoint.max_seq {
        lemma_number_round_trip(max);
        lemma_decimal_lacks(max as nat, 'x');
    }
    assert(line_of(list).len() > 0);
}

/// The line of a message is read back.
proof fn lemma_chat_line(message: ChatModel)
    ensures
        row_of(line_of(chat_fields(message))) == Ok::<RowModel, HealthError>(
            RowModel::Chat(message),
        ),
        !line_of(chat_fields(message)).contains('\n'),
        text::strip_carriage_return(line_of(chat_fields(message))) == line_of(
            chat_fields(message),
        ),
{
    let list = chat_fields(message);
    lemma_tab();
    reveal_strlit("chat");
    lemma_decimal_lacks(message.id as nat, '\t');
    lemma_decimal_lacks(message.id as nat, '\n');
    lemma_decimal_lacks(message.unix_ms as nat, '\t');
    lemma_decimal_lacks(message.unix_ms as nat, '\n');
    law_health_text_round_trip(message.user);
    law_health_text_round_trip(message.text);
    text::lemma_fields_of_joined(list, '\t');
    lemma_joined_lacks(list, "\t"@, '\n');
    lemma_line_end(list);
    lemma_number_round_trip(message.id);
    lemma_number_round_trip(message.unix_ms);
    assert(line_of(list).len() > 0);
}

/// The header is read back.
proof fn lemma_header_line(report: ReportModel)
    ensures
        header_of(line_of(header_fields(report))) == Ok::<(u64, u64), HealthError>(
            (report.seq, report.unix_ms),
        ),
        !line_of(header_fields(report)).contains('\n'),
        text::strip_carriage_return(line_of(header_fields(report))) == line_of(
            header_fields(report),
        ),
{
    let list = header_fields(report);
    lemma_tab();
    reveal_strlit("irohsion-health/v2");
    lemma_decimal_lacks(report.seq as nat, '\t');
    lemma_decimal_lacks(report.seq as nat, '\n');
    lemma_decimal_lacks(report.unix_ms as nat, '\t');
    lemma_decimal_lacks(report.unix_ms as nat, '\n');
    lemma_decimal_lacks(report.unix_ms as nat, '\r');
    text::lemma_fields_of_joined(list, '\t');
    lemma_joined_lacks(list, "\t"@, '\n');
    lemma_line_end(list);
    lemma_number_round_trip(report.seq);
    lemma_number_round_trip(report.unix_ms);
}

/// The lines of endpoints and of messages are read back in order.
proof fn lemma_rows_round_trip(report: ReportModel, count: int)
    requires
        0 <= count <= report.endpoints.len() + report.chat.len(),
        forall|i: int|
            0 <= i < report.endpoints.len() ==> is_writable(#[trigger] report.endpoints[i]),
    ensures
        rows_of(report_lines(report).drop_first().take(count)) == (if count
            <= report.endpoints.len() {
            Ok::<(Seq<EndpointModel>, Seq<ChatModel>), HealthError>(
                (
                    report.endpoints.take(count).map_values(|e: EndpointModel| as_read(e)),
                    Seq::empty(),
                ),
            )
        } else {
            Ok(
                (
                    report.endpoints.map_values(|e: EndpointModel| as_read(e)),
                    report.chat.take(count - report.endpoints.len()),
                ),
            )
        }),
    decreases count,
{
    let rows = report_lines(report).drop_first();
    let read = |e: EndpointModel| as_read(e);
    let n = report.endpoints.len() as int;
    if count == 0 {
        assert(rows.take(0) =~= Seq::empty());
        assert(report.endpoints.take(0).map_values(read) =~= Seq::empty());
    } else {
        lemma_rows_round_trip(report, count - 1);
        let now = rows.take(count);
        assert(now.drop_last() =~= rows.take(count - 1));
        if count <= n {
            let endpoint = report.endpoints[count - 1];
            assert(is_writable(endpoint));
            lemma_endpoint_line(endpoint);
            assert(now.last() == line_of(endpoint_fields(endpoint)));
            assert(report.endpoints.take(count).map_values(read) =~= report.endpoints.take(
                count - 1,
            ).map_values(read).push(as_read(endpoint)));
        } else {
            let message = report.chat[count - 1 - n];
            lemma_chat_line(message);
            assert(now.last() == line_of(chat_fields(message)));
            assert(report.endpoints.take(n) =~= report.endpoints);
            assert(report.chat.take(count - n) =~= report.chat.take(count - 1 - n).push(message));
            if count - 1 == n {
                assert(report.chat.take(0) =~= Seq::empty());
            }
        }
    }
}

/// The lines of a report are the lines of its text.
#[verifier::spinoff_prover]
proof fn lemma_report_lines(report: ReportModel)
    requires
        forall|i: int|
            0 <= i < report.endpoints.len() ==> is_writable(#[trigger] report.endpoints[i]),
    ensures
        text::lines(text::terminated(report_lines(report))) == report_lines(report),
{
    let all = report_lines(report);
    let n = report.endpoints.len() as int;
    assert forall|i: int| 0 <= i < all.len() implies !(#[trigger] all[i]).contains('\n')
        && text::strip_carriage_return(all[i]) == all[i] by {
        if i == 0 {
            lemma_header_line(report);
        } else if i <= n {
            assert(is_writable(report.endpoints[i - 1]));
            lemma_endpoint_line(report.endpoints[i - 1]);
        } else {
            lemma_chat_line(report.chat[i - 1 - n]);
        }
    }
    text::lemma_lines_of_terminated(all);
}

/// A report comes back from its text.
#[verifier::spinoff_prover]
proof fn lemma_report_of_text(report: ReportModel)
    requires
        forall|i: int|
            0 <= i < report.endpoints.len() ==> is_writable(#[trigger] report.endpoints[i]),
    ensures
        report_of(text::terminated(report_lines(report))) == Ok::<ReportModel, HealthError>(
            ReportModel {
                endpoints: report.endpoints.map_values(|e: EndpointModel| as_read(e)),
                ..report
            },
        ),
{
    lemma_report_lines(report);
    lemma_header_line(report);
    let n = report.endpoints.len() as int;
    let rows = report_lines(report).drop_first();
    lemma_rows_round_trip(report, rows.len() as int);
    assert(rows.take(rows.len() as int) =~= rows);
    assert(report.endpoints.take(n) =~= report.endpoints);
    if report.chat.len() == 0 {
        assert(report.chat =~= Seq::empty());
    } else {
        assert(report.chat.take(report.chat.len() as int) =~= report.chat);
    }
}

/// A report comes back from the bytes that it is sent as, but for one thing: an endpoint without a
/// greatest sequence number is read as having its last one as the greatest. Every chat message
/// comes back as it was, whatever it holds.
#[verifier::spinoff_prover]
pub proof fn law_health_report_round_trip(report: ReportModel)
    requires
        forall|i: int|
            0 <= i < report.endpoints.len() ==> is_writable(#[trigger] report.endpoints[i]),
    ensures
        ({
            let data = vstd::utf8::encode_utf8(text::terminated(report_lines(report)));
            &&& vstd::utf8::valid_utf8(data)
            &&& report_of(vstd::utf8::decode_utf8(data)) == Ok::<ReportModel, HealthError>(
                ReportModel {
                    endpoints: report.endpoints.map_values(|e: EndpointModel| as_read(e)),
                    ..report
                },
            )
        }),
{
    let content = text::terminated(report_lines(report));
    vstd::utf8::encode_utf8_decode_utf8(content);
    vstd::utf8::encode_utf8_valid_utf8(content);
    lemma_report_of_text(report);
}

} // verus!
