//! The line protocol between clients and the server: requests, responses
//! and notification messages, each with its text form and its parser.
use vstd::prelude::*;
use base64::Engine;
use crate::errors::{SerializingError, SerializingErrorView};
use crate::text::{
    splitn_char, splitn_spec, split_whitespace, ws_words, string_is, is_ws, no_ws,
    lemma_splitn_cons, lemma_splitn_plain, lemma_ws_words_cons, lemma_ws_words_single,
};

verus! {

#[verifier::external_type_specification]
#[verifier::external_body]
pub struct ExDecodeError(base64::DecodeError);

/// The text the standard base64 engine (alphabet `A-Z a-z 0-9 + /`, `=`
/// padding) produces for `bytes`.
pub uninterp spec fn base64_encoding(bytes: Seq<u8>) -> Seq<char>;

/// The bytes the standard base64 engine decodes from `text`, or `None`
/// where it reports an error.
pub uninterp spec fn base64_decoding(text: Seq<char>) -> Option<Seq<u8>>;

/// A character of the standard base64 alphabet or its padding.
pub open spec fn is_base64_char(c: char) -> bool {
    ||| ('A' <= c && c <= 'Z')
    ||| ('a' <= c && c <= 'z')
    ||| ('0' <= c && c <= '9')
    ||| c == '+'
    ||| c == '/'
    ||| c == '='
}

/// `base64::engine::general_purpose::STANDARD.encode`: the encoding named
/// `base64_encoding`; its length is `4 * ceil(n / 3)` for `n` bytes (the
/// crate's `encoded_len` with padding), it uses only alphabet and padding
/// characters, and decoding it gives the bytes back.
#[verifier::external_body]
fn base64_encode(bytes: &[u8]) -> (s: String)
    requires
        4 * ((bytes@.len() + 2) / 3) <= usize::MAX,
    ensures
        s@ == base64_encoding(bytes@),
        s@.len() == 4 * ((bytes@.len() + 2) / 3),
        forall|i: int| 0 <= i < s@.len() ==> is_base64_char(#[trigger] s@[i]),
        base64_decoding(s@) == Some(bytes@),
{
    base64::engine::general_purpose::STANDARD.encode(bytes)
}

/// `base64::engine::general_purpose::STANDARD.decode` on the bytes of
/// `text`: the decoded bytes as `base64_decoding` names them, or an error
/// exactly where `base64_decoding` has none.
#[verifier::external_body]
fn base64_decode(text: &str) -> (r: Result<Vec<u8>, base64::DecodeError>)
    ensures
        match r {
            Ok(v) => base64_decoding(text@) == Some(v@),
            Err(_) => base64_decoding(text@) is None,
        },
{
    base64::engine::general_purpose::STANDARD.decode(text)
}

/// The fields shared by every request.
#[derive(Debug, PartialEq, Eq)]
pub struct BaseMessage {
    pub id: String,
    pub key: String,
    pub client_uuid: String,
}

#[derive(Debug, PartialEq, Eq)]
pub struct PutMessage {
    pub base: BaseMessage,
    pub value: Vec<u8>,
}

#[derive(Debug, PartialEq, Eq)]
pub enum ServerRequest {
    Put(PutMessage),
    Get(BaseMessage),
    Delete(BaseMessage),
    Subscribe(BaseMessage),
    Unsubscribe(BaseMessage),
}

/// A request's fields as character sequences.
pub ghost struct BaseView {
    pub id: Seq<char>,
    pub key: Seq<char>,
    pub client_uuid: Seq<char>,
}

pub ghost enum RequestView {
    Put(BaseView, Seq<u8>),
    Get(BaseView),
    Delete(BaseView),
    Subscribe(BaseView),
    Unsubscribe(BaseView),
}

impl View for BaseMessage {
    type V = BaseView;

    open spec fn view(&self) -> BaseView {
        BaseView { id: self.id@, key: self.key@, client_uuid: self.client_uuid@ }
    }
}

impl View for ServerRequest {
    type V = RequestView;

    open spec fn view(&self) -> RequestView {
        match self {
            ServerRequest::Put(m) => RequestView::Put(m.base@, m.value@),
            ServerRequest::Get(b) => RequestView::Get(b@),
            ServerRequest::Delete(b) => RequestView::Delete(b@),
            ServerRequest::Subscribe(b) => RequestView::Subscribe(b@),
            ServerRequest::Unsubscribe(b) => RequestView::Unsubscribe(b@),
        }
    }
}

pub open spec fn sp() -> Seq<char> {
    seq![' ']
}

/// `<cmd> <id> <client-uuid> <key>`.
pub open spec fn base_line(cmd: Seq<char>, b: BaseView) -> Seq<char> {
    cmd + sp() + b.id + sp() + b.client_uuid + sp() + b.key
}

/// The text form of a request: `PUT`, `GET`, `DEL`, `SUB` or `UNSUB`, then
/// id, client id and key separated by single spaces; a `PUT` adds a space
/// and the base64 encoding of its value.
pub open spec fn request_text(r: RequestView) -> Seq<char> {
    match r {
        RequestView::Put(b, v) => base_line(seq!['P', 'U', 'T'], b) + sp() + base64_encoding(v),
        RequestView::Get(b) => base_line(seq!['G', 'E', 'T'], b),
        RequestView::Delete(b) => base_line(seq!['D', 'E', 'L'], b),
        RequestView::Subscribe(b) => base_line(seq!['S', 'U', 'B'], b),
        RequestView::Unsubscribe(b) => base_line(seq!['U', 'N', 'S', 'U', 'B'], b),
    }
}

/// Whether the value field of a `PUT` line can be read: it is empty or it
/// decodes as base64. Lines of other commands are always readable.
pub open spec fn request_payload_readable(s: Seq<char>) -> bool {
    let parts = splitn_spec(s, 5, ' ');
    parts.len() >= 5 && parts[0] == seq!['P', 'U', 'T'] ==> parts[4].len() == 0 || base64_decoding(
        parts[4],
    ) is Some
}

/// How a request line reads: split at the first four spaces into command,
/// id, client id, key and (for `PUT`) the base64 value; a missing field is
/// reported by name, an unknown command after the key is read.
pub open spec fn parse_request(s: Seq<char>) -> Result<RequestView, SerializingErrorView> {
    let parts = splitn_spec(s, 5, ' ');
    if parts.len() < 2 {
        Err(SerializingErrorView::Missing(seq!['i', 'd']))
    } else if parts.len() < 3 {
        Err(SerializingErrorView::Missing(seq!['c', 'l', 'i', 'e', 'n', 't', '-', 'u', 'u', 'i', 'd']))
    } else if parts.len() < 4 {
        Err(SerializingErrorView::Missing(seq!['k', 'e', 'y']))
    } else {
        let b = BaseView { id: parts[1], client_uuid: parts[2], key: parts[3] };
        let cmd = parts[0];
        if cmd == seq!['P', 'U', 'T'] {
            if parts.len() < 5 {
                Err(SerializingErrorView::Missing(seq!['v', 'a', 'l', 'u', 'e']))
            } else if parts[4].len() == 0 {
                Ok(RequestView::Put(b, Seq::<u8>::empty()))
            } else {
                Ok(RequestView::Put(b, base64_decoding(parts[4])->0))
            }
        } else if cmd == seq!['G', 'E', 'T'] {
            Ok(RequestView::Get(b))
        } else if cmd == seq!['D', 'E', 'L'] {
            Ok(RequestView::Delete(b))
        } else if cmd == seq!['S', 'U', 'B'] {
            Ok(RequestView::Subscribe(b))
        } else if cmd == seq!['U', 'N', 'S', 'U', 'B'] {
            Ok(RequestView::Unsubscribe(b))
        } else {
            Err(SerializingErrorView::UnknownCommand)
        }
    }
}


/// A request field that survives the line format: it holds no space.
pub open spec fn plain_field(f: Seq<char>) -> bool {
    !f.contains(' ')
}

pub open spec fn plain_base(b: BaseView) -> bool {
    plain_field(b.id) && plain_field(b.client_uuid) && plain_field(b.key)
}

/// The fields of a base line come back out of a five-way split.
proof fn lemma_base_line_split(cmd: Seq<char>, b: BaseView, tail: Seq<char>, n: int)
    requires
        plain_field(cmd),
        plain_base(b),
        n == 4 || n == 5,
        n == 4 ==> tail.len() == 0,
        n == 5 ==> tail.len() > 0 && tail[0] == ' ',
    ensures
        splitn_spec(base_line(cmd, b) + tail, 5, ' ') == if n == 4 {
            seq![cmd, b.id, b.client_uuid, b.key]
        } else {
            seq![cmd, b.id, b.client_uuid, b.key] + splitn_spec(tail.drop_first(), 1, ' ')
        },
{
    let line = base_line(cmd, b) + tail;
    let r3 = b.key + tail;
    let r2 = b.client_uuid + sp() + r3;
    let r1 = b.id + sp() + r2;
    assert(line =~= cmd + seq![' '] + r1);
    lemma_splitn_cons(cmd, r1, 5, ' ');
    assert(r1 =~= b.id + seq![' '] + r2);
    lemma_splitn_cons(b.id, r2, 4, ' ');
    assert(r2 =~= b.client_uuid + seq![' '] + r3);
    lemma_splitn_cons(b.client_uuid, r3, 3, ' ');
    if n == 4 {
        assert(r3 =~= b.key);
        lemma_splitn_plain(b.key, 2, ' ');
        assert(seq![cmd] + (seq![b.id] + (seq![b.client_uuid] + seq![b.key])) =~= seq![cmd, b.id, b.client_uuid, b.key]);
    } else {
        assert(r3 =~= b.key + seq![' '] + tail.drop_first());
        lemma_splitn_cons(b.key, tail.drop_first(), 2, ' ');
        assert(seq![cmd] + (seq![b.id] + (seq![b.client_uuid] + (seq![b.key] + splitn_spec(tail.drop_first(), 1, ' '))))
            =~= seq![cmd, b.id, b.client_uuid, b.key] + splitn_spec(tail.drop_first(), 1, ' '));
    }
}

/// Appends `piece` to `out`.
fn push_str(out: &mut String, piece: &str)
    ensures
        final(out)@ == old(out)@ + piece@,
{
    out.append(piece);
}

impl BaseMessage {
    /// `<cmd> <id> <client-uuid> <key>`.
    fn line(&self, cmd: &str) -> (s: String)
        ensures
            s@ == base_line(cmd@, self@),
    {
        let mut s = cmd.to_owned();
        push_str(&mut s, " ");
        push_str(&mut s, self.id.as_str());
        push_str(&mut s, " ");
        push_str(&mut s, self.client_uuid.as_str());
        push_str(&mut s, " ");
        push_str(&mut s, self.key.as_str());
        proof {
            reveal_strlit(" ");
        }
        s
    }
}

impl ServerRequest {
    /// The text form of this request (see `request_text`).
    pub fn to_string(&self) -> (s: String)
        requires
            self matches ServerRequest::Put(m) ==> 4 * ((m.value@.len() + 2) / 3) <= usize::MAX,
        ensures
            s@ == request_text(self@),
            match self@ {
                RequestView::Put(b, _) => plain_base(b),
                RequestView::Get(b) => plain_base(b),
                RequestView::Delete(b) => plain_base(b),
                RequestView::Subscribe(b) => plain_base(b),
                RequestView::Unsubscribe(b) => plain_base(b),
            } ==> parse_request(s@) == Ok::<RequestView, SerializingErrorView>(self@)
                && request_payload_readable(s@),
    {
        proof {
            reveal_strlit("PUT");
            reveal_strlit("GET");
            reveal_strlit("DEL");
            reveal_strlit("SUB");
            reveal_strlit("UNSUB");
            reveal_strlit(" ");
        }
        match self {
            ServerRequest::Put(m) => {
                let mut s = m.base.line("PUT");
                push_str(&mut s, " ");
                let enc = base64_encode(m.value.as_slice());
                push_str(&mut s, enc.as_str());
                proof {
                    if plain_base(m.base@) {
                        let cmd = seq!['P', 'U', 'T'];
                        let tail = sp() + enc@;
                        lemma_base_line_split(cmd, m.base@, tail, 5);
                        assert(tail.drop_first() =~= enc@);
                        assert(s@ =~= base_line(cmd, m.base@) + tail);
                        let parts = splitn_spec(s@, 5, ' ');
                        assert(parts[4] == enc@);
                        if m.value@.len() == 0 {
                            assert(enc@.len() == 0);
                            assert(m.value@ =~= Seq::<u8>::empty());
                        } else {
                            assert(enc@.len() > 0);
                        }
                    }
                }
                s
            },
            ServerRequest::Get(b) => {
                let s = b.line("GET");
                proof {
                    if plain_base(b@) {
                        lemma_base_line_split(seq!['G', 'E', 'T'], b@, Seq::<char>::empty(), 4);
                        assert(s@ =~= base_line(seq!['G', 'E', 'T'], b@) + Seq::<char>::empty());
                    }
                }
                s
            },
            ServerRequest::Delete(b) => {
                let s = b.line("DEL");
                proof {
                    if plain_base(b@) {
                        lemma_base_line_split(seq!['D', 'E', 'L'], b@, Seq::<char>::empty(), 4);
                        assert(s@ =~= base_line(seq!['D', 'E', 'L'], b@) + Seq::<char>::empty());
                    }
                }
                s
            },
            ServerRequest::Subscribe(b) => {
                let s = b.line("SUB");
                proof {
                    if plain_base(b@) {
                        lemma_base_line_split(seq!['S', 'U', 'B'], b@, Seq::<char>::empty(), 4);
                        assert(s@ =~= base_line(seq!['S', 'U', 'B'], b@) + Seq::<char>::empty());
                    }
                }
                s
            },
            ServerRequest::Unsubscribe(b) => {
                let s = b.line("UNSUB");
                proof {
                    if plain_base(b@) {
                        lemma_base_line_split(seq!['U', 'N', 'S', 'U', 'B'], b@, Seq::<char>::empty(), 4);
                        assert(s@ =~= base_line(seq!['U', 'N', 'S', 'U', 'B'], b@) + Seq::<char>::empty());
                    }
                }
                s
            },
        }
    }

    /// Reads a request line (see `parse_request`). A `PUT` whose value is
    /// neither empty nor valid base64 is outside what this accepts: see
    /// `try_from_str`.
    pub fn from_str(input: &str) -> (r: Result<Self, SerializingError>)
        requires
            request_payload_readable(input@),
        ensures
            match parse_request(input@) {
                Ok(v) => r matches Ok(req) && req@ == v,
                Err(e) => r matches Err(err) && err@ == e,
            },
    {
        let parts = splitn_char(input, 5, ' ');
        let ghost pv = splitn_spec(input@, 5, ' ');
        assert(parts@.len() == pv.len());
        proof {
            reveal_strlit("PUT");
            reveal_strlit("GET");
            reveal_strlit("DEL");
            reveal_strlit("SUB");
            reveal_strlit("UNSUB");
            reveal_strlit("id");
            reveal_strlit("client-uuid");
            reveal_strlit("key");
            reveal_strlit("value");
        }
        assert("id"@ == seq!['i', 'd']);
        assert("key"@ == seq!['k', 'e', 'y']);
        assert("value"@ == seq!['v', 'a', 'l', 'u', 'e']);
        assert("PUT"@ == seq!['P', 'U', 'T']);
        assert("GET"@ == seq!['G', 'E', 'T']);
        assert("DEL"@ == seq!['D', 'E', 'L']);
        assert("SUB"@ == seq!['S', 'U', 'B']);
        assert("UNSUB"@ == seq!['U', 'N', 'S', 'U', 'B']);
        assert("client-uuid"@ =~= seq!['c', 'l', 'i', 'e', 'n', 't', '-', 'u', 'u', 'i', 'd']);
        if parts.len() < 2 {
            return Err(SerializingError::Missing("id".to_owned()));
        }
        if parts.len() < 3 {
            return Err(SerializingError::Missing("client-uuid".to_owned()));
        }
        if parts.len() < 4 {
            return Err(SerializingError::Missing("key".to_owned()));
        }
        assert(parts@[0]@ == pv[0] && parts@[1]@ == pv[1] && parts@[2]@ == pv[2] && parts@[3]@ == pv[3]);
        let base = BaseMessage {
            id: parts[1].clone(),
            client_uuid: parts[2].clone(),
            key: parts[3].clone(),
        };
        let cmd = &parts[0];
        if string_is(cmd, "PUT") {
            if parts.len() < 5 {
                return Err(SerializingError::Missing("value".to_owned()));
            }
            assert(parts@[4]@ == pv[4]);
            let value: Vec<u8> = if parts[4].as_str().is_empty() {
                Vec::new()
            } else {
                match base64_decode(parts[4].as_str()) {
                    Ok(v) => v,
                    Err(_) => {
                        assert(false);
                        Vec::new()
                    },
                }
            };
            Ok(ServerRequest::Put(PutMessage { base, value }))
        } else if string_is(cmd, "GET") {
            Ok(ServerRequest::Get(base))
        } else if string_is(cmd, "DEL") {
            Ok(ServerRequest::Delete(base))
        } else if string_is(cmd, "SUB") {
            Ok(ServerRequest::Subscribe(base))
        } else if string_is(cmd, "UNSUB") {
            Ok(ServerRequest::Unsubscribe(base))
        } else {
            Err(SerializingError::UnknownCommand)
        }
    }

    /// Reads a request line like `from_str`, first checking that a `PUT`
    /// value can be decoded; `None` where it cannot.
    pub fn try_from_str(input: &str) -> (r: Option<Result<Self, SerializingError>>)
        ensures
            r is None <==> !request_payload_readable(input@),
            r matches Some(res) ==> match parse_request(input@) {
                Ok(v) => res matches Ok(req) && req@ == v,
                Err(e) => res matches Err(err) && err@ == e,
            },
    {
        let parts = splitn_char(input, 5, ' ');
        let ghost pv = splitn_spec(input@, 5, ' ');
        assert(parts@.len() == pv.len());
        proof {
            reveal_strlit("PUT");
        }
        assert("PUT"@ == seq!['P', 'U', 'T']);
        if parts.len() >= 5 && string_is(&parts[0], "PUT") && !parts[4].as_str().is_empty() {
            assert(parts@[0]@ == pv[0] && parts@[4]@ == pv[4]);
            if base64_decode(parts[4].as_str()).is_err() {
                return None;
            }
        }
        proof {
            if parts@.len() >= 5 {
                assert(parts@[0]@ == pv[0] && parts@[4]@ == pv[4]);
            }
        }
        Some(Self::from_str(input))
    }
}


/// A reply to a request: its id and whether it succeeded.
#[derive(Debug)]
pub struct BaseResp {
    pub id: String,
    pub status: bool,
}

/// A reply carrying values, each sent in base64.
#[derive(Debug)]
pub struct DataResp {
    pub base: BaseResp,
    pub data: Vec<Vec<u8>>,
}

#[derive(Debug)]
pub enum ServerResponse {
    Base(BaseResp),
    Data(DataResp),
}

pub ghost struct BaseRespView {
    pub id: Seq<char>,
    pub status: bool,
}

pub ghost enum ResponseView {
    Base(BaseRespView),
    Data(BaseRespView, Seq<Seq<u8>>),
}

impl View for BaseResp {
    type V = BaseRespView;

    open spec fn view(&self) -> BaseRespView {
        BaseRespView { id: self.id@, status: self.status }
    }
}

pub open spec fn byte_lists_view(d: Seq<Vec<u8>>) -> Seq<Seq<u8>> {
    d.map_values(|v: Vec<u8>| v@)
}

impl View for ServerResponse {
    type V = ResponseView;

    open spec fn view(&self) -> ResponseView {
        match self {
            ServerResponse::Base(b) => ResponseView::Base(b@),
            ServerResponse::Data(d) => ResponseView::Data(d.base@, byte_lists_view(d.data@)),
        }
    }
}

pub open spec fn ok_text() -> Seq<char> {
    seq!['O', 'K']
}

pub open spec fn failed_text() -> Seq<char> {
    seq!['F', 'A', 'I', 'L', 'E', 'D']
}

/// `<id> OK` or `<id> FAILED`.
pub open spec fn base_resp_text(b: BaseRespView) -> Seq<char> {
    b.id + sp() + if b.status {
        ok_text()
    } else {
        failed_text()
    }
}

/// A space and the base64 encoding of each value, in order.
pub open spec fn data_suffix(data: Seq<Seq<u8>>) -> Seq<char>
    decreases data.len(),
{
    if data.len() == 0 {
        Seq::<char>::empty()
    } else {
        data_suffix(data.drop_last()) + sp() + base64_encoding(data.last())
    }
}

/// The text form of a response: the base reply, then for a data reply a
/// space and the base64 encoding of each value.
pub open spec fn response_text(r: ResponseView) -> Seq<char> {
    match r {
        ResponseView::Base(b) => base_resp_text(b),
        ResponseView::Data(b, data) => base_resp_text(b) + data_suffix(data),
    }
}

/// Reads `OK` as success and `FAILED` as failure.
pub open spec fn parse_status(s: Seq<char>) -> Option<bool> {
    if s == ok_text() {
        Some(true)
    } else if s == failed_text() {
        Some(false)
    } else {
        None
    }
}

/// How a base reply reads: split at the first two spaces into id and
/// status (the rest ignored).
pub open spec fn parse_base_resp(s: Seq<char>) -> Result<BaseRespView, SerializingErrorView> {
    let parts = splitn_spec(s, 3, ' ');
    if parts.len() < 2 {
        Err(SerializingErrorView::Missing(seq!['s', 't', 'a', 't', 'u', 's']))
    } else {
        match parse_status(parts[1]) {
            Some(st) => Ok(BaseRespView { id: parts[0], status: st }),
            None => Err(SerializingErrorView::UnknownCommand),
        }
    }
}

/// Whether every word decodes as base64.
pub open spec fn all_decode(words: Seq<Seq<char>>) -> bool {
    forall|i: int| 0 <= i < words.len() ==> #[trigger] base64_decoding(words[i]) is Some
}

/// How a data reply reads: whitespace-separated id, status and base64
/// values; a value that does not decode makes it a parse error.
pub open spec fn parse_data_resp(s: Seq<char>) -> Result<(BaseRespView, Seq<Seq<u8>>), SerializingErrorView> {
    let w = ws_words(s);
    if w.len() < 1 {
        Err(SerializingErrorView::Missing(seq!['i', 'd']))
    } else if w.len() < 2 {
        Err(SerializingErrorView::Missing(seq!['s', 't', 'a', 't', 'u', 's']))
    } else {
        match parse_status(w[1]) {
            None => Err(SerializingErrorView::UnknownCommand),
            Some(st) => {
                let vals = w.skip(2);
                if all_decode(vals) {
                    Ok(
                        (
                            BaseRespView { id: w[0], status: st },
                            vals.map_values(|t: Seq<char>| base64_decoding(t)->0),
                        ),
                    )
                } else {
                    Err(SerializingErrorView::ParseError)
                }
            },
        }
    }
}

/// How a response reads: two words make a base reply, three or more a data
/// reply carrying one value per word after the status; fewer than two
/// words are refused.
pub open spec fn parse_response(s: Seq<char>) -> Result<ResponseView, SerializingErrorView> {
    let n = ws_words(s).len();
    if n == 2 {
        match parse_base_resp(s) {
            Ok(b) => Ok(ResponseView::Base(b)),
            Err(e) => Err(e),
        }
    } else if n >= 3 {
        match parse_data_resp(s) {
            Ok((b, d)) => Ok(ResponseView::Data(b, d)),
            Err(e) => Err(e),
        }
    } else {
        Err(SerializingErrorView::UnknownCommand)
    }
}


/// What the encoder promises of the text for `x`: it holds no whitespace,
/// it is empty exactly when `x` is, and it decodes back to `x`.
pub open spec fn encoding_reads_back(x: Seq<u8>) -> bool {
    &&& no_ws(base64_encoding(x))
    &&& (base64_encoding(x).len() == 0 <==> x.len() == 0)
    &&& base64_decoding(base64_encoding(x)) == Some(x)
}

/// A response that survives the line format: a non-empty id without
/// whitespace and, for a data reply, at least one value, none empty.
pub open spec fn response_fields_plain(r: ResponseView) -> bool {
    match r {
        ResponseView::Base(b) => b.id.len() > 0 && no_ws(b.id),
        ResponseView::Data(b, d) => b.id.len() > 0 && no_ws(b.id) && d.len() >= 1 && forall|i: int|
            0 <= i < d.len() ==> (#[trigger] d[i]).len() > 0,
    }
}

/// The suffix of a data reply read from the front: a space and the first
/// value's encoding, then the suffix of the rest.
proof fn lemma_data_suffix_front(d: Seq<Seq<u8>>)
    requires
        d.len() >= 1,
    ensures
        data_suffix(d) == sp() + base64_encoding(d[0]) + data_suffix(d.drop_first()),
    decreases d.len(),
{
    if d.len() == 1 {
        assert(d.drop_last() =~= Seq::<Seq<u8>>::empty());
        assert(d.drop_first() =~= Seq::<Seq<u8>>::empty());
        assert(d.last() == d[0]);
        assert(data_suffix(d) =~= sp() + base64_encoding(d[0]) + data_suffix(d.drop_first()));
    } else {
        let dl = d.drop_last();
        lemma_data_suffix_front(dl);
        assert(dl[0] == d[0]);
        assert(d.drop_first().drop_last() =~= dl.drop_first());
        assert(d.drop_first().last() == d.last());
        assert(data_suffix(d) =~= sp() + base64_encoding(d[0]) + data_suffix(d.drop_first()));
    }
}

/// The words of a word followed by a data suffix: the word, then each
/// value's encoding.
proof fn lemma_suffix_words(x: Seq<char>, d: Seq<Seq<u8>>)
    requires
        x.len() > 0,
        no_ws(x),
        forall|i: int| 0 <= i < d.len() ==> encoding_reads_back(#[trigger] d[i]) && d[i].len() > 0,
    ensures
        ws_words(x + data_suffix(d)) == seq![x] + d.map_values(|v: Seq<u8>| base64_encoding(v)),
    decreases d.len(),
{
    if d.len() == 0 {
        assert(x + data_suffix(d) =~= x);
        lemma_ws_words_single(x);
        assert(seq![x] + d.map_values(|v: Seq<u8>| base64_encoding(v)) =~= seq![x]);
    } else {
        lemma_data_suffix_front(d);
        let e0 = base64_encoding(d[0]);
        let rest = d.drop_first();
        assert(encoding_reads_back(d[0]) && d[0].len() > 0);
        assert(e0.len() > 0);
        assert forall|i: int| 0 <= i < rest.len() implies encoding_reads_back(#[trigger] rest[i]) && rest[i].len() > 0 by {
            assert(rest[i] == d[i + 1]);
        }
        lemma_suffix_words(e0, rest);
        assert(x + data_suffix(d) =~= x + seq![' '] + (e0 + data_suffix(rest)));
        lemma_ws_words_cons(x, e0 + data_suffix(rest));
        assert(seq![x] + (seq![e0] + rest.map_values(|v: Seq<u8>| base64_encoding(v))) =~= seq![x]
            + d.map_values(|v: Seq<u8>| base64_encoding(v)));
    }
}

proof fn lemma_status_word(st: bool)
    ensures
        no_ws(if st { ok_text() } else { failed_text() }),
        !(if st { ok_text() } else { failed_text() }).contains(' '),
        parse_status(if st { ok_text() } else { failed_text() }) == Some(st),
{
    let w = if st { ok_text() } else { failed_text() };
    assert forall|i: int| 0 <= i < w.len() implies !is_ws(#[trigger] w[i]) by {}
    if w.contains(' ') {
        let k = choose|k: int| 0 <= k < w.len() && w[k] == ' ';
        assert(!is_ws(w[k]));
    }
    assert(ok_text() != failed_text()) by {
        assert(ok_text().len() != failed_text().len());
    }
}

proof fn lemma_no_ws_no_space(a: Seq<char>)
    requires
        no_ws(a),
    ensures
        !a.contains(' '),
{
    if a.contains(' ') {
        let k = choose|k: int| 0 <= k < a.len() && a[k] == ' ';
        assert(!is_ws(a[k]));
    }
}

fn read_status(s: &String) -> (r: Option<bool>)
    ensures
        r == parse_status(s@),
{
    proof {
        reveal_strlit("OK");
        reveal_strlit("FAILED");
    }
    assert("OK"@ == ok_text());
    assert("FAILED"@ == failed_text());
    if string_is(s, "OK") {
        Some(true)
    } else if string_is(s, "FAILED") {
        Some(false)
    } else {
        None
    }
}

impl BaseResp {
    /// `<id> OK` or `<id> FAILED`.
    pub fn to_string(&self) -> (s: String)
        ensures
            s@ == base_resp_text(self@),
    {
        proof {
            reveal_strlit(" ");
            reveal_strlit("OK");
            reveal_strlit("FAILED");
        }
        let mut s = self.id.clone();
        push_str(&mut s, " ");
        if self.status {
            push_str(&mut s, "OK");
        } else {
            push_str(&mut s, "FAILED");
        }
        s
    }

    /// Reads a base reply (see `parse_base_resp`).
    pub fn from_str(input: &str) -> (r: Result<Self, SerializingError>)
        ensures
            match parse_base_resp(input@) {
                Ok(v) => r matches Ok(b) && b@ == v,
                Err(e) => r matches Err(err) && err@ == e,
            },
    {
        proof {
            reveal_strlit("status");
        }
        assert("status"@ == seq!['s', 't', 'a', 't', 'u', 's']);
        let parts = splitn_char(input, 3, ' ');
        let ghost pv = splitn_spec(input@, 3, ' ');
        assert(parts@.len() == pv.len());
        proof {
            crate::text::lemma_splitn_nonempty(input@, 3int, ' ');
        }
        assert(parts@[0]@ == pv[0]);
        let id = parts[0].clone();
        if parts.len() < 2 {
            return Err(SerializingError::Missing("status".to_owned()));
        }
        assert(parts@[1]@ == pv[1]);
        match read_status(&parts[1]) {
            Some(status) => Ok(BaseResp { id, status }),
            None => Err(SerializingError::UnknownCommand),
        }
    }
}

impl DataResp {
    /// The base reply, then a space and the base64 encoding of each value.
    pub fn to_string(&self) -> (s: String)
        requires
            forall|i: int| 0 <= i < self.data@.len() ==> 4 * ((#[trigger] self.data@[i]@.len() + 2) / 3) <= usize::MAX,
        ensures
            s@ == base_resp_text(self.base@) + data_suffix(byte_lists_view(self.data@)),
            forall|i: int| 0 <= i < self.data@.len() ==> encoding_reads_back(#[trigger] self.data@[i]@),
    {
        proof {
            reveal_strlit(" ");
        }
        let mut s = self.base.to_string();
        let mut i: usize = 0;
        assert(byte_lists_view(self.data@).take(0) =~= Seq::<Seq<u8>>::empty());
        while i < self.data.len()
            invariant
                i <= self.data@.len(),
                forall|k: int| 0 <= k < self.data@.len() ==> 4 * ((#[trigger] self.data@[k]@.len() + 2) / 3) <= usize::MAX,
                s@ == base_resp_text(self.base@) + data_suffix(byte_lists_view(self.data@).take(i as int)),
                forall|k: int| 0 <= k < i ==> encoding_reads_back(#[trigger] self.data@[k]@),
            decreases self.data@.len() - i,
        {
            let ghost d = byte_lists_view(self.data@);
            assert(d.take(i + 1).drop_last() =~= d.take(i as int));
            assert(d.take(i + 1).last() == self.data@[i as int]@);
            assert(data_suffix(d.take(i + 1)) == data_suffix(d.take(i as int)) + sp() + base64_encoding(self.data@[i as int]@));
            proof {
                reveal_strlit(" ");
            }
            assert(" "@ == sp());
            push_str(&mut s, " ");
            let enc = base64_encode(self.data[i].as_slice());
            push_str(&mut s, enc.as_str());
            proof {
                lemma_base64_no_ws(enc@);
            }
            i = i + 1;
        }
        assert(byte_lists_view(self.data@).take(self.data@.len() as int) =~= byte_lists_view(self.data@));
        s
    }

    /// Reads a data reply (see `parse_data_resp`).
    pub fn from_str(input: &str) -> (r: Result<Self, SerializingError>)
        ensures
            match parse_data_resp(input@) {
                Ok((b, d)) => r matches Ok(x) && x.base@ == b && byte_lists_view(x.data@) == d,
                Err(e) => r matches Err(err) && err@ == e,
            },
    {
        proof {
            reveal_strlit("status");
            reveal_strlit("id");
        }
        assert("status"@ == seq!['s', 't', 'a', 't', 'u', 's']);
        assert("id"@ == seq!['i', 'd']);
        let words = split_whitespace(input);
        let ghost w = ws_words(input@);
        assert(words@.len() == w.len());
        if words.len() < 1 {
            return Err(SerializingError::Missing("id".to_owned()));
        }
        if words.len() < 2 {
            return Err(SerializingError::Missing("status".to_owned()));
        }
        assert(words@[0]@ == w[0] && words@[1]@ == w[1]);
        let status = match read_status(&words[1]) {
            Some(st) => st,
            None => {
                return Err(SerializingError::UnknownCommand);
            },
        };
        let base = BaseResp { id: words[0].clone(), status };
        let ghost vals = w.skip(2);
        let mut data: Vec<Vec<u8>> = Vec::new();
        let mut i: usize = 2;
        while i < words.len()
            invariant
                2 <= i <= words@.len(),
                w == ws_words(input@),
                words@.map_values(|p: String| p@) == w,
                vals == w.skip(2),
                data@.len() == i - 2,
                w.len() >= 2,
                parse_status(w[1]) == Some(base.status),
                base.id@ == w[0],
                all_decode(vals.take(i - 2)),
                byte_lists_view(data@) == vals.take(i - 2).map_values(|t: Seq<char>| base64_decoding(t)->0),
            decreases words@.len() - i,
        {
            assert(words@[i as int]@ == w[i as int]);
            match base64_decode(words[i].as_str()) {
                Ok(v) => {
                    let ghost before = byte_lists_view(data@);
                    data.push(v);
                    proof {
                        assert(byte_lists_view(data@) =~= before.push(v@));
                        assert(vals.take(i - 1).map_values(|t: Seq<char>| base64_decoding(t)->0) =~= vals.take(i - 2).map_values(|t: Seq<char>| base64_decoding(t)->0).push(base64_decoding(vals[i - 2])->0));
                        assert(vals[i - 2] == w[i as int]);
                        assert(vals.take(i - 1).drop_last() =~= vals.take(i - 2));
                        assert forall|k: int| 0 <= k < vals.take(i - 1).len() implies #[trigger] base64_decoding(vals.take(i - 1)[k]) is Some by {
                            if k < i - 2 {
                                assert(vals.take(i - 1)[k] == vals.take(i - 2)[k]);
                            }
                        }
                        assert(byte_lists_view(data@) =~= vals.take(i - 1).map_values(|t: Seq<char>| base64_decoding(t)->0));
                    }
                },
                Err(_) => {
                    proof {
                        assert(vals[i - 2] == w[i as int]);
                        assert(!all_decode(vals));
                    }
                    return Err(SerializingError::ParseError);
                },
            }
            i = i + 1;
        }
        assert(vals.take(words@.len() - 2) =~= vals);
        Ok(DataResp { base, data })
    }
}

impl ServerResponse {
    /// The text form of this response (see `response_text`).
    pub fn to_string(&self) -> (s: String)
        requires
            self matches ServerResponse::Data(d) ==> forall|i: int| 0 <= i < d.data@.len() ==> 4 * ((#[trigger] d.data@[i]@.len() + 2) / 3) <= usize::MAX,
        ensures
            s@ == response_text(self@),
            response_fields_plain(self@) ==> parse_response(s@) == Ok::<ResponseView, SerializingErrorView>(self@),
    {
        match self {
            ServerResponse::Base(b) => {
                let s = b.to_string();
                proof {
                    if response_fields_plain(self@) {
                        let st = if b.status { ok_text() } else { failed_text() };
                        lemma_status_word(b.status);
                        lemma_no_ws_no_space(b.id@);
                        assert(s@ =~= b.id@ + seq![' '] + st);
                        lemma_ws_words_cons(b.id@, st);
                        assert(st.len() > 0);
                        lemma_ws_words_single(st);
                        assert(ws_words(s@) =~= seq![b.id@, st]);
                        lemma_splitn_cons(b.id@, st, 3, ' ');
                        lemma_splitn_plain(st, 2, ' ');
                        assert(splitn_spec(s@, 3, ' ') =~= seq![b.id@, st]);
                    }
                }
                s
            },
            ServerResponse::Data(d) => {
                let s = d.to_string();
                proof {
                    if response_fields_plain(self@) {
                        let b = d.base;
                        let st = if b.status { ok_text() } else { failed_text() };
                        let dv = byte_lists_view(d.data@);
                        let encs = dv.map_values(|v: Seq<u8>| base64_encoding(v));
                        assert forall|i: int| 0 <= i < dv.len() implies encoding_reads_back(#[trigger] dv[i])
                            && dv[i].len() > 0 by {
                            assert(dv[i] == d.data@[i]@);
                        }
                        lemma_status_word(b.status);
                        assert(st.len() > 0);
                        lemma_suffix_words(st, dv);
                        assert(s@ =~= b.id@ + seq![' '] + (st + data_suffix(dv)));
                        lemma_ws_words_cons(b.id@, st + data_suffix(dv));
                        let w = ws_words(s@);
                        assert(w =~= seq![b.id@, st] + encs);
                        assert(w.skip(2) =~= encs);
                        assert(w.len() >= 3);
                        assert forall|i: int| 0 <= i < w.skip(2).len() implies #[trigger] base64_decoding(w.skip(2)[i]) is Some by {
                            assert(w.skip(2)[i] == base64_encoding(dv[i]));
                        }
                        assert(all_decode(w.skip(2)));
                        assert(w.skip(2).map_values(|t: Seq<char>| base64_decoding(t)->0) =~= dv);
                    }
                }
                s
            },
        }
    }

    /// Reads a response (see `parse_response`).
    pub fn from_str(input: &str) -> (r: Result<Self, SerializingError>)
        ensures
            match parse_response(input@) {
                Ok(v) => r matches Ok(x) && x@ == v,
                Err(e) => r matches Err(err) && err@ == e,
            },
    {
        let words = split_whitespace(input);
        assert(words@.len() == ws_words(input@).len());
        let n = words.len();
        if n == 2 {
            match BaseResp::from_str(input) {
                Ok(b) => Ok(ServerResponse::Base(b)),
                Err(e) => Err(e),
            }
        } else if n >= 3 {
            match DataResp::from_str(input) {
                Ok(d) => Ok(ServerResponse::Data(d)),
                Err(e) => Err(e),
            }
        } else {
            Err(SerializingError::UnknownCommand)
        }
    }
}


/// A notification sent to a subscriber.
#[derive(Debug, PartialEq, Clone)]
pub enum Message {
    Hello,
    Update { key: String, value: Vec<u8> },
    Close { key: String },
    NotFound,
}

pub ghost enum MessageView {
    Hello,
    Update(Seq<char>, Seq<u8>),
    Close(Seq<char>),
    NotFound,
}

impl View for Message {
    type V = MessageView;

    open spec fn view(&self) -> MessageView {
        match self {
            Message::Hello => MessageView::Hello,
            Message::Update { key, value } => MessageView::Update(key@, value@),
            Message::Close { key } => MessageView::Close(key@),
            Message::NotFound => MessageView::NotFound,
        }
    }
}

pub open spec fn hello_text() -> Seq<char> {
    seq!['H', 'E', 'L', 'L', 'O']
}

pub open spec fn update_text() -> Seq<char> {
    seq!['U', 'P', 'D', 'A', 'T', 'E']
}

pub open spec fn close_text() -> Seq<char> {
    seq!['C', 'L', 'O', 'S', 'E']
}

pub open spec fn notfound_text() -> Seq<char> {
    seq!['N', 'O', 'T', 'F', 'O', 'U', 'N', 'D']
}

/// The text form of a message: `HELLO`, `UPDATE <key> <base64 value>`,
/// `CLOSE <key>` or `NOTFOUND`.
pub open spec fn message_text(m: MessageView) -> Seq<char> {
    match m {
        MessageView::Hello => hello_text(),
        MessageView::Update(k, v) => update_text() + sp() + k + sp() + base64_encoding(v),
        MessageView::Close(k) => close_text() + sp() + k,
        MessageView::NotFound => notfound_text(),
    }
}

/// Whether the value of an `UPDATE` line can be read: lines of other kinds,
/// and `UPDATE` lines missing a field, always can.
pub open spec fn message_payload_readable(s: Seq<char>) -> bool {
    let w = ws_words(s);
    w.len() >= 3 && w[0] == update_text() ==> base64_decoding(w[2]) is Some
}

/// How a message line reads: whitespace-separated words, the first naming
/// the kind; a missing field is reported by name.
pub open spec fn parse_message(s: Seq<char>) -> Result<MessageView, SerializingErrorView> {
    let w = ws_words(s);
    if w.len() < 1 {
        Err(SerializingErrorView::Missing(seq!['t', 'y', 'p', 'e']))
    } else if w[0] == hello_text() {
        Ok(MessageView::Hello)
    } else if w[0] == update_text() {
        if w.len() < 2 {
            Err(SerializingErrorView::Missing(seq!['k', 'e', 'y']))
        } else if w.len() < 3 {
            Err(SerializingErrorView::Missing(seq!['v', 'a', 'l', 'u', 'e']))
        } else {
            Ok(MessageView::Update(w[1], base64_decoding(w[2])->0))
        }
    } else if w[0] == close_text() {
        if w.len() < 2 {
            Err(SerializingErrorView::Missing(seq!['k', 'e', 'y']))
        } else {
            Ok(MessageView::Close(w[1]))
        }
    } else if w[0] == notfound_text() {
        Ok(MessageView::NotFound)
    } else {
        Err(SerializingErrorView::UnknownCommand)
    }
}


/// A message whose fields survive the line format: keys are non-empty
/// words without whitespace, and an update carries a non-empty value.
pub open spec fn message_fields_plain(m: MessageView) -> bool {
    match m {
        MessageView::Update(k, v) => k.len() > 0 && no_ws(k) && v.len() > 0,
        MessageView::Close(k) => k.len() > 0 && no_ws(k),
        _ => true,
    }
}

/// Base64 text holds no whitespace.
proof fn lemma_base64_no_ws(enc: Seq<char>)
    requires
        forall|i: int| 0 <= i < enc.len() ==> is_base64_char(#[trigger] enc[i]),
    ensures
        no_ws(enc),
{
    assert forall|i: int| 0 <= i < enc.len() implies !is_ws(#[trigger] enc[i]) by {
        assert(is_base64_char(enc[i]));
    }
}

proof fn lemma_word_plain_hello()
    ensures
        ws_words(hello_text()) == seq![hello_text()],
{
    assert(no_ws(hello_text())) by {
        assert forall|i: int| 0 <= i < hello_text().len() implies !is_ws(#[trigger] hello_text()[i]) by {}
    }
    lemma_ws_words_single(hello_text());
}

proof fn lemma_word_plain_notfound()
    ensures
        ws_words(notfound_text()) == seq![notfound_text()],
{
    assert(no_ws(notfound_text())) by {
        assert forall|i: int| 0 <= i < notfound_text().len() implies !is_ws(#[trigger] notfound_text()[i]) by {}
    }
    lemma_ws_words_single(notfound_text());
}

proof fn lemma_word_plain_update()
    ensures
        no_ws(update_text()),
{
    assert forall|i: int| 0 <= i < update_text().len() implies !is_ws(#[trigger] update_text()[i]) by {}
}

proof fn lemma_word_plain_close()
    ensures
        no_ws(close_text()),
{
    assert forall|i: int| 0 <= i < close_text().len() implies !is_ws(#[trigger] close_text()[i]) by {}
}

impl Message {
    /// The text form of this message (see `message_text`).
    pub fn to_string(&self) -> (s: String)
        requires
            self matches Message::Update { value, .. } ==> 4 * ((value@.len() + 2) / 3) <= usize::MAX,
        ensures
            s@ == message_text(self@),
            message_fields_plain(self@) ==> parse_message(s@) == Ok::<MessageView, SerializingErrorView>(self@)
                && message_payload_readable(s@),
    {
        proof {
            reveal_strlit("HELLO");
            reveal_strlit("UPDATE ");
            reveal_strlit("CLOSE ");
            reveal_strlit("NOTFOUND");
            reveal_strlit(" ");
        }
        assert("UPDATE "@ == update_text() + sp());
        assert("CLOSE "@ == close_text() + sp());
        match self {
            Message::Hello => {
                proof {
                    lemma_word_plain_hello();
                }
                let s = "HELLO".to_owned();
                assert(s@ == hello_text());
                assert(ws_words(s@)[0] == hello_text());
                s
            },
            Message::Update { key, value } => {
                let mut s = "UPDATE ".to_owned();
                push_str(&mut s, key.as_str());
                push_str(&mut s, " ");
                let enc = base64_encode(value.as_slice());
                push_str(&mut s, enc.as_str());
                proof {
                    if message_fields_plain(self@) {
                        lemma_base64_no_ws(enc@);
                        assert(enc@.len() > 0);
                        lemma_word_plain_update();
                        lemma_ws_words_cons(update_text(), key@ + sp() + enc@);
                        lemma_ws_words_cons(key@, enc@);
                        lemma_ws_words_single(enc@);
                        assert(s@ =~= update_text() + seq![' '] + (key@ + seq![' '] + enc@));
                        assert(ws_words(s@) =~= seq![update_text(), key@, enc@]);
                    }
                }
                s
            },
            Message::Close { key } => {
                let mut s = "CLOSE ".to_owned();
                push_str(&mut s, key.as_str());
                proof {
                    if message_fields_plain(self@) {
                        lemma_word_plain_close();
                        lemma_ws_words_cons(close_text(), key@);
                        lemma_ws_words_single(key@);
                        assert(s@ =~= close_text() + seq![' '] + key@);
                        assert(ws_words(s@) =~= seq![close_text(), key@]);
                    }
                }
                s
            },
            Message::NotFound => {
                proof {
                    lemma_word_plain_notfound();
                }
                let s = "NOTFOUND".to_owned();
                assert(s@ == notfound_text());
                assert(ws_words(s@)[0] == notfound_text());
                assert(notfound_text() != hello_text() && notfound_text() != update_text() && notfound_text() != close_text()) by {
                    assert(notfound_text()[0] != hello_text()[0]);
                    assert(notfound_text()[0] != update_text()[0]);
                    assert(notfound_text()[0] != close_text()[0]);
                }
                s
            },
        }
    }

    /// Reads a message line (see `parse_message`). An `UPDATE` whose value
    /// is not valid base64 is outside what this accepts: see `try_from_str`.
    pub fn from_str(input: &str) -> (r: Result<Self, SerializingError>)
        requires
            message_payload_readable(input@),
        ensures
            match parse_message(input@) {
                Ok(v) => r matches Ok(m) && m@ == v,
                Err(e) => r matches Err(err) && err@ == e,
            },
    {
        proof {
            reveal_strlit("HELLO");
            reveal_strlit("UPDATE");
            reveal_strlit("CLOSE");
            reveal_strlit("NOTFOUND");
            reveal_strlit("type");
            reveal_strlit("key");
            reveal_strlit("value");
        }
        assert("HELLO"@ == hello_text());
        assert("UPDATE"@ == update_text());
        assert("CLOSE"@ == close_text());
        assert("NOTFOUND"@ == notfound_text());
        assert("type"@ == seq!['t', 'y', 'p', 'e']);
        assert("key"@ == seq!['k', 'e', 'y']);
        assert("value"@ == seq!['v', 'a', 'l', 'u', 'e']);
        let words = split_whitespace(input);
        let ghost w = ws_words(input@);
        assert(words@.len() == w.len());
        if words.len() < 1 {
            return Err(SerializingError::Missing("type".to_owned()));
        }
        assert(words@[0]@ == w[0]);
        let kind = &words[0];
        if string_is(kind, "HELLO") {
            Ok(Message::Hello)
        } else if string_is(kind, "UPDATE") {
            if words.len() < 2 {
                return Err(SerializingError::Missing("key".to_owned()));
            }
            if words.len() < 3 {
                return Err(SerializingError::Missing("value".to_owned()));
            }
            assert(words@[1]@ == w[1] && words@[2]@ == w[2]);
            let key = words[1].clone();
            match base64_decode(words[2].as_str()) {
                Ok(value) => Ok(Message::Update { key, value }),
                Err(_) => {
                    assert(false);
                    Err(SerializingError::ParseError)
                },
            }
        } else if string_is(kind, "CLOSE") {
            if words.len() < 2 {
                return Err(SerializingError::Missing("key".to_owned()));
            }
            assert(words@[1]@ == w[1]);
            Ok(Message::Close { key: words[1].clone() })
        } else if string_is(kind, "NOTFOUND") {
            Ok(Message::NotFound)
        } else {
            Err(SerializingError::UnknownCommand)
        }
    }

    /// Reads a message line like `from_str`, first checking that an
    /// `UPDATE` value decodes; `None` where it does not.
    pub fn try_from_str(input: &str) -> (r: Option<Result<Self, SerializingError>>)
        ensures
            r is None <==> !message_payload_readable(input@),
            r matches Some(res) ==> match parse_message(input@) {
                Ok(v) => res matches Ok(m) && m@ == v,
                Err(e) => res matches Err(err) && err@ == e,
            },
    {
        proof {
            reveal_strlit("UPDATE");
        }
        assert("UPDATE"@ == update_text());
        let words = split_whitespace(input);
        let ghost w = ws_words(input@);
        assert(words@.len() == w.len());
        if words.len() >= 3 && string_is(&words[0], "UPDATE") {
            assert(words@[0]@ == w[0] && words@[2]@ == w[2]);
            if base64_decode(words[2].as_str()).is_err() {
                return None;
            }
        }
        proof {
            if words@.len() >= 3 {
                assert(words@[0]@ == w[0] && words@[2]@ == w[2]);
            }
        }
        Some(Self::from_str(input))
    }
}


/// Whether two byte vectors hold the same bytes.
fn bytes_equal(a: &Vec<u8>, b: &Vec<u8>) -> (r: bool)
    ensures
        r == (a@ == b@),
{
    if a.len() != b.len() {
        return false;
    }
    let mut i: usize = 0;
    while i < a.len()
        invariant
            a@.len() == b@.len(),
            i <= a@.len(),
            forall|k: int| 0 <= k < i ==> a@[k] == b@[k],
        decreases a@.len() - i,
    {
        if a[i] != b[i] {
            return false;
        }
        i = i + 1;
    }
    assert(a@ =~= b@);
    true
}

/// Whether two lists of byte vectors hold the same values in the same order.
fn byte_lists_equal(a: &Vec<Vec<u8>>, b: &Vec<Vec<u8>>) -> (r: bool)
    ensures
        r == (byte_lists_view(a@) == byte_lists_view(b@)),
{
    if a.len() != b.len() {
        assert(byte_lists_view(a@).len() != byte_lists_view(b@).len());
        return false;
    }
    let mut i: usize = 0;
    while i < a.len()
        invariant
            a@.len() == b@.len(),
            i <= a@.len(),
            forall|k: int| 0 <= k < i ==> a@[k]@ == b@[k]@,
        decreases a@.len() - i,
    {
        if !bytes_equal(&a[i], &b[i]) {
            assert(byte_lists_view(a@)[i as int] != byte_lists_view(b@)[i as int]);
            return false;
        }
        i = i + 1;
    }
    assert(byte_lists_view(a@) =~= byte_lists_view(b@));
    true
}

/// Two base replies are equal when their statuses are; ids are not compared.
impl PartialEq for BaseResp {
    fn eq(&self, other: &Self) -> (r: bool) {
        self.status == other.status
    }
}

impl vstd::std_specs::cmp::PartialEqSpecImpl for BaseResp {
    open spec fn obeys_eq_spec() -> bool {
        true
    }

    open spec fn eq_spec(&self, other: &Self) -> bool {
        self.status == other.status
    }
}

/// Two data replies are equal when their statuses and values are.
impl PartialEq for DataResp {
    fn eq(&self, other: &Self) -> (r: bool) {
        self.base.status == other.base.status && byte_lists_equal(&self.data, &other.data)
    }
}

impl vstd::std_specs::cmp::PartialEqSpecImpl for DataResp {
    open spec fn obeys_eq_spec() -> bool {
        true
    }

    open spec fn eq_spec(&self, other: &Self) -> bool {
        self.base.status == other.base.status && byte_lists_view(self.data@) == byte_lists_view(
            other.data@,
        )
    }
}

/// Responses are equal when they are of the same kind and equal as such.
impl PartialEq for ServerResponse {
    fn eq(&self, other: &Self) -> (r: bool) {
        match (self, other) {
            (ServerResponse::Base(a), ServerResponse::Base(b)) => a.status == b.status,
            (ServerResponse::Data(a), ServerResponse::Data(b)) => a.base.status == b.base.status
                && byte_lists_equal(&a.data, &b.data),
            _ => false,
        }
    }
}

impl vstd::std_specs::cmp::PartialEqSpecImpl for ServerResponse {
    open spec fn obeys_eq_spec() -> bool {
        true
    }

    open spec fn eq_spec(&self, other: &Self) -> bool {
        match (self, other) {
            (ServerResponse::Base(a), ServerResponse::Base(b)) => a.status == b.status,
            (ServerResponse::Data(a), ServerResponse::Data(b)) => a.base.status == b.base.status
                && byte_lists_view(a.data@) == byte_lists_view(b.data@),
            _ => false,
        }
    }
}


impl std::str::FromStr for BaseResp {
    type Err = SerializingError;

    fn from_str(input: &str) -> (r: Result<Self, SerializingError>)
        ensures
            match parse_base_resp(input@) {
                Ok(v) => r matches Ok(b) && b@ == v,
                Err(e) => r matches Err(err) && err@ == e,
            },
    {
        BaseResp::from_str(input)
    }
}

impl std::str::FromStr for DataResp {
    type Err = SerializingError;

    fn from_str(input: &str) -> (r: Result<Self, SerializingError>)
        ensures
            match parse_data_resp(input@) {
                Ok((b, d)) => r matches Ok(x) && x.base@ == b && byte_lists_view(x.data@) == d,
                Err(e) => r matches Err(err) && err@ == e,
            },
    {
        DataResp::from_str(input)
    }
}

impl std::str::FromStr for ServerResponse {
    type Err = SerializingError;

    fn from_str(input: &str) -> (r: Result<Self, SerializingError>)
        ensures
            match parse_response(input@) {
                Ok(v) => r matches Ok(x) && x@ == v,
                Err(e) => r matches Err(err) && err@ == e,
            },
    {
        ServerResponse::from_str(input)
    }
}

} // verus!
