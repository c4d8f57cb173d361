//! The packet exchanged between client and server, and its wire form: eleven
//! fields in a fixed order, separated by `|`.

use vstd::prelude::*;
use crate::text::{
    all_free_of, decimal_string, decimal_text, free_of, is_decimal_char, join, lemma_decimal_chars,
    lemma_split_append, lemma_split_join, lemma_split_pieces, same_text, split, split_text,
    terminate_each, terminate_each_text,
};

verus! {

/// The number of fields of a packet on the wire.
pub const FIELD_COUNT: usize = 11;

/// The character that separates the fields on the wire.
pub const SEPARATOR: char = '|';

/// The service a packet is addressed to. `UNKNOWN` stands for every service
/// name that is not recognised.
#[derive(PartialEq, Eq, Clone, Copy, Debug, Structural)]
pub enum Service {
    SHELL,
    DOCKER,
    AWS,
    UNKNOWN,
}

/// What a packet is: a request, the answer to one, or a test. `ERROR` stands
/// for every type name that is not recognised.
#[derive(PartialEq, Eq, Clone, Copy, Debug, Structural)]
pub enum RequestType {
    REQUEST,
    RETURN,
    TEST,
    ERROR,
}

/// The status of a packet: a tag that carries a numeric code. On the wire
/// only the code counts.
#[derive(PartialEq, Eq, Clone, Copy, Debug, Structural)]
pub enum Status {
    FINE { code: i32 },
    ERROR { code: i32 },
    TEST { code: i32 },
    MALFORMED { code: i32 },
}

#[derive(PartialEq, Clone, Debug)]
pub struct Header {
    /// The protocol and its version, as in `NORMAN/0.1`.
    pub version: String,
    /// Whether the sender wants the output delivered back.
    pub return_output: bool,
    pub service: Service,
}

#[derive(PartialEq, Clone, Debug)]
pub struct Metadata {
    pub req_type: RequestType,
    pub status: Status,
    /// Reserved for matching answers to requests.
    pub uid: i32,
}

/// Reserved for an encrypted payload; no field of it drives any behaviour.
#[derive(PartialEq, Clone, Debug)]
pub struct Encryption {
    pub encoding_type: String,
    pub key: String,
}

#[derive(PartialEq, Clone, Debug)]
pub struct Data {
    /// The command of a request, or the captured output of an answer.
    pub data: String,
}

#[derive(PartialEq, Clone, Debug)]
pub struct Terminator {
    /// Reserved for payloads that span several packets.
    pub multi_packet: bool,
    pub term_string: String,
}

#[derive(PartialEq, Clone, Debug)]
pub struct NormanPacket {
    pub header: Header,
    pub meta: Metadata,
    pub encryption: Encryption,
    pub data: Data,
    pub terminator: Terminator,
}

/// A packet as a mathematical value: its eleven fields in wire order.
pub struct PacketView {
    pub version: Seq<char>,
    pub return_output: bool,
    pub service: Service,
    pub req_type: RequestType,
    pub status: Status,
    pub uid: int,
    pub encoding_type: Seq<char>,
    pub key: Seq<char>,
    pub data: Seq<char>,
    pub multi_packet: bool,
    pub term_string: Seq<char>,
}

impl View for NormanPacket {
    type V = PacketView;

    open spec fn view(&self) -> PacketView {
        PacketView {
            version: self.header.version@,
            return_output: self.header.return_output,
            service: self.header.service,
            req_type: self.meta.req_type,
            status: self.meta.status,
            uid: self.meta.uid as int,
            encoding_type: self.encryption.encoding_type@,
            key: self.encryption.key@,
            data: self.data.data@,
            multi_packet: self.terminator.multi_packet,
            term_string: self.terminator.term_string@,
        }
    }
}

/// Why a wire text is not a packet.
#[derive(PartialEq, Clone, Debug)]
pub enum ParseError {
    /// The text does not split into exactly `expected` fields. `actual` is
    /// the number found, `remainder` the fields found, each followed by a
    /// comma.
    FieldCountMismatch { expected: usize, actual: usize, remainder: String },
}

/// A parse error as a mathematical value.
pub enum ParseErrorView {
    FieldCountMismatch { expected: nat, actual: nat, remainder: Seq<char> },
}

impl View for ParseError {
    type V = ParseErrorView;

    open spec fn view(&self) -> ParseErrorView {
        match self {
            ParseError::FieldCountMismatch { expected, actual, remainder } => {
                ParseErrorView::FieldCountMismatch {
                    expected: *expected as nat,
                    actual: *actual as nat,
                    remainder: remainder@,
                }
            },
        }
    }
}

/// The text of the terminator field.
pub open spec fn terminator_text() -> Seq<char> {
    "NORMAN/END"@
}

/// The key that every newly made packet carries: a single space.
pub open spec fn placeholder_key() -> Seq<char> {
    " "@
}

/// The wire text of a flag.
pub open spec fn flag_text(flag: bool) -> Seq<char> {
    if flag {
        "true"@
    } else {
        "false"@
    }
}

/// The flag that a wire text stands for; a text that is neither `true` nor
/// `false` stands for `fallback`.
pub open spec fn flag_of_text(text: Seq<char>, fallback: bool) -> bool {
    if text == "true"@ {
        true
    } else if text == "false"@ {
        false
    } else {
        fallback
    }
}

/// The wire text of a service.
pub open spec fn service_text(service: Service) -> Seq<char> {
    match service {
        Service::SHELL => "SHELL"@,
        Service::DOCKER => "DOCKER"@,
        Service::AWS => "AWS"@,
        Service::UNKNOWN => "UNKNOWN"@,
    }
}

/// The service that a wire text stands for; an unrecognised text stands for
/// `UNKNOWN`.
pub open spec fn service_of_text(text: Seq<char>) -> Service {
    if text == "SHELL"@ {
        Service::SHELL
    } else if text == "AWS"@ {
        Service::AWS
    } else if text == "DOCKER"@ {
        Service::DOCKER
    } else {
        Service::UNKNOWN
    }
}

/// The wire text of a request type.
pub open spec fn request_type_text(req_type: RequestType) -> Seq<char> {
    match req_type {
        RequestType::REQUEST => "REQUEST"@,
        RequestType::RETURN => "RETURN"@,
        RequestType::TEST => "TEST"@,
        RequestType::ERROR => "ERROR"@,
    }
}

/// The request type that a wire text stands for; an unrecognised text
/// stands for `ERROR`.
pub open spec fn request_type_of_text(text: Seq<char>) -> RequestType {
    if text == "REQUEST"@ {
        RequestType::REQUEST
    } else if text == "RETURN"@ {
        RequestType::RETURN
    } else if text == "TEST"@ {
        RequestType::TEST
    } else {
        RequestType::ERROR
    }
}

/// The numeric code that a status carries.
pub open spec fn status_code(status: Status) -> int {
    match status {
        Status::FINE { code } => code as int,
        Status::ERROR { code } => code as int,
        Status::TEST { code } => code as int,
        Status::MALFORMED { code } => code as int,
    }
}

/// The wire text of a status, looked up by its code. Every code other than
/// 200, 500 and 100 is written as `505 MALFORMED`.
pub open spec fn status_text(status: Status) -> Seq<char> {
    let code: int = status_code(status);
    if code == 200 {
        "200 OK"@
    } else if code == 500 {
        "500 ERR"@
    } else if code == 100 {
        "100 TEST"@
    } else {
        "505 MALFORMED"@
    }
}

/// The status that a wire text stands for; an unrecognised text stands for
/// `MALFORMED` with code 505.
pub open spec fn status_of_text(text: Seq<char>) -> Status {
    if text == "200 OK"@ {
        Status::FINE { code: 200 }
    } else if text == "500 ERR"@ {
        Status::ERROR { code: 500 }
    } else if text == "100 TEST"@ {
        Status::TEST { code: 100 }
    } else {
        Status::MALFORMED { code: 505 }
    }
}

/// The eleven fields of a packet as they stand on the wire, in order.
pub open spec fn fields(packet: PacketView) -> Seq<Seq<char>> {
    seq![
        packet.version,
        flag_text(packet.return_output),
        service_text(packet.service),
        request_type_text(packet.req_type),
        status_text(packet.status),
        decimal_text(packet.uid),
        packet.encoding_type,
        packet.key,
        packet.data,
        flag_text(packet.multi_packet),
        packet.term_string,
    ]
}

/// The wire form of a packet: its fields joined by the separator.
pub open spec fn wire_text(packet: PacketView) -> Seq<char> {
    join(fields(packet), SEPARATOR)
}

/// The packet that eleven wire fields stand for. The fields of the version,
/// the encoding type, the key and the data are taken as they are; flags,
/// service, request type and status are looked up, each with its fallback;
/// the fields of the identifier and of the terminator are not read: the
/// packet gets the identifier 0 and the terminator `NORMAN/END`.
pub open spec fn packet_of_fields(f: Seq<Seq<char>>) -> PacketView {
    PacketView {
        version: f[0],
        return_output: flag_of_text(f[1], true),
        service: service_of_text(f[2]),
        req_type: request_type_of_text(f[3]),
        status: status_of_text(f[4]),
        uid: 0,
        encoding_type: f[6],
        key: f[7],
        data: f[8],
        multi_packet: flag_of_text(f[9], false),
        term_string: terminator_text(),
    }
}

/// What decoding a wire text gives: the packet of its fields where there
/// are exactly eleven, and else the count mismatch with the fields found.
pub open spec fn decoded(wire: Seq<char>) -> Result<PacketView, ParseErrorView> {
    let found = split(wire, SEPARATOR);
    if found.len() == FIELD_COUNT {
        Ok(packet_of_fields(found))
    } else {
        Err(
            ParseErrorView::FieldCountMismatch {
                expected: FIELD_COUNT as nat,
                actual: found.len(),
                remainder: terminate_each(found, ","@),
            },
        )
    }
}

/// The view of a decoding result.
pub open spec fn result_view(res: Result<NormanPacket, ParseError>) -> Result<
    PacketView,
    ParseErrorView,
> {
    match res {
        Ok(packet) => Ok(packet@),
        Err(error) => Err(error@),
    }
}

fn flag_name(flag: bool) -> (name: &'static str)
    ensures
        name@ == flag_text(flag),
{
    if flag {
        "true"
    } else {
        "false"
    }
}

fn flag_of(token: &str, fallback: bool) -> (flag: bool)
    ensures
        flag == flag_of_text(token@, fallback),
{
    if same_text(token, "true") {
        true
    } else if same_text(token, "false") {
        false
    } else {
        fallback
    }
}

impl Service {
    /// The name of the service on the wire.
    pub fn name(&self) -> (name: &'static str)
        ensures
            name@ == service_text(*self),
    {
        match self {
            Service::SHELL => "SHELL",
            Service::DOCKER => "DOCKER",
            Service::AWS => "AWS",
            Service::UNKNOWN => "UNKNOWN",
        }
    }

    /// The service with the given wire name, `UNKNOWN` for any other text.
    pub fn from_name(name: &str) -> (service: Service)
        ensures
            service == service_of_text(name@),
    {
        if same_text(name, "SHELL") {
            Service::SHELL
        } else if same_text(name, "AWS") {
            Service::AWS
        } else if same_text(name, "DOCKER") {
            Service::DOCKER
        } else {
            Service::UNKNOWN
        }
    }
}

impl RequestType {
    /// The name of the request type on the wire.
    pub fn name(&self) -> (name: &'static str)
        ensures
            name@ == request_type_text(*self),
    {
        match self {
            RequestType::REQUEST => "REQUEST",
            RequestType::RETURN => "RETURN",
            RequestType::TEST => "TEST",
            RequestType::ERROR => "ERROR",
        }
    }

    /// The request type with the given wire name, `ERROR` for any other
    /// text.
    pub fn from_name(name: &str) -> (req_type: RequestType)
        ensures
            req_type == request_type_of_text(name@),
    {
        if same_text(name, "REQUEST") {
            RequestType::REQUEST
        } else if same_text(name, "RETURN") {
            RequestType::RETURN
        } else if same_text(name, "TEST") {
            RequestType::TEST
        } else {
            RequestType::ERROR
        }
    }
}

impl Status {
    /// The numeric code of the status.
    pub fn code(&self) -> (code: i32)
        ensures
            code == status_code(*self),
    {
        match self {
            Status::FINE { code } => *code,
            Status::ERROR { code } => *code,
            Status::TEST { code } => *code,
            Status::MALFORMED { code } => *code,
        }
    }

    /// The text of the status on the wire.
    pub fn name(&self) -> (name: &'static str)
        ensures
            name@ == status_text(*self),
    {
        let code: i32 = self.code();
        if code == 200 {
            "200 OK"
        } else if code == 500 {
            "500 ERR"
        } else if code == 100 {
            "100 TEST"
        } else {
            "505 MALFORMED"
        }
    }

    /// The status with the given wire text, `MALFORMED` with code 505 for
    /// any other text.
    pub fn from_name(name: &str) -> (status: Status)
        ensures
            status == status_of_text(name@),
    {
        if same_text(name, "200 OK") {
            Status::FINE { code: 200 }
        } else if same_text(name, "500 ERR") {
            Status::ERROR { code: 500 }
        } else if same_text(name, "100 TEST") {
            Status::TEST { code: 100 }
        } else {
            Status::MALFORMED { code: 505 }
        }
    }
}

/// Appends the separator and one more field to a wire text under
/// construction.
fn append_field(wire: &mut String, field: &str, Ghost(done): Ghost<Seq<Seq<char>>>)
    requires
        done.len() >= 1,
        old(wire)@ == join(done, SEPARATOR),
    ensures
        final(wire)@ == join(done.push(field@), SEPARATOR),
{
    proof {
        reveal_strlit("|");
    }
    let ghost so_far = wire@;
    wire.append("|");
    wire.append(field);
    proof {
        assert("|"@ =~= seq![SEPARATOR]);
        assert(done.push(field@).drop_last() =~= done);
        assert(wire@ =~= so_far.push(SEPARATOR) + field@);
    }
}

impl NormanPacket {
    /// A packet with the given fields, the identifier 0, a single space as
    /// key and the terminator `NORMAN/END`.
    pub fn new(
        ver: String,
        ret_out: bool,
        service: Service,
        req_type: RequestType,
        status: Status,
        enc_type: String,
        data: String,
        multi_packet: bool,
    ) -> (packet: NormanPacket)
        ensures
            packet@ == (PacketView {
                version: ver@,
                return_output: ret_out,
                service: service,
                req_type: req_type,
                status: status,
                uid: 0,
                encoding_type: enc_type@,
                key: placeholder_key(),
                data: data@,
                multi_packet: multi_packet,
                term_string: terminator_text(),
            }),
    {
        NormanPacket {
            header: Header { version: ver, return_output: ret_out, service: service },
            meta: Metadata { req_type: req_type, status: status, uid: 0 },
            encryption: Encryption { encoding_type: enc_type, key: String::from_str(" ") },
            data: Data { data },
            terminator: Terminator {
                multi_packet: multi_packet,
                term_string: String::from_str("NORMAN/END"),
            },
        }
    }

    /// The wire form of the packet.
    pub fn as_string(&self) -> (wire: String)
        ensures
            wire@ == wire_text(self@),
    {
        let ghost f = fields(self@);
        let mut wire = self.header.version.clone();
        let uid = decimal_string(self.meta.uid);
        assert(wire@ == join(f.take(1), SEPARATOR));
        append_field(&mut wire, flag_name(self.header.return_output), Ghost(f.take(1)));
        assert(f.take(1).push(f[1]) =~= f.take(2));
        append_field(&mut wire, self.header.service.name(), Ghost(f.take(2)));
        assert(f.take(2).push(f[2]) =~= f.take(3));
        append_field(&mut wire, self.meta.req_type.name(), Ghost(f.take(3)));
        assert(f.take(3).push(f[3]) =~= f.take(4));
        append_field(&mut wire, self.meta.status.name(), Ghost(f.take(4)));
        assert(f.take(4).push(f[4]) =~= f.take(5));
        append_field(&mut wire, uid.as_str(), Ghost(f.take(5)));
        assert(f.take(5).push(f[5]) =~= f.take(6));
        append_field(&mut wire, self.encryption.encoding_type.as_str(), Ghost(f.take(6)));
        assert(f.take(6).push(f[6]) =~= f.take(7));
        append_field(&mut wire, self.encryption.key.as_str(), Ghost(f.take(7)));
        assert(f.take(7).push(f[7]) =~= f.take(8));
        append_field(&mut wire, self.data.data.as_str(), Ghost(f.take(8)));
        assert(f.take(8).push(f[8]) =~= f.take(9));
        append_field(&mut wire, flag_name(self.terminator.multi_packet), Ghost(f.take(9)));
        assert(f.take(9).push(f[9]) =~= f.take(10));
        append_field(&mut wire, self.terminator.term_string.as_str(), Ghost(f.take(10)));
        assert(f.take(10).push(f[10]) =~= f);
        wire
    }

    /// The packet that eleven wire fields stand for.
    fn of_fields(found: &Vec<String>) -> (packet: NormanPacket)
        requires
            found.len() == FIELD_COUNT,
        ensures
            packet@ == packet_of_fields(found.deep_view()),
    {
        let mut packet = NormanPacket::new(
            found[0].clone(),
            flag_of(found[1].as_str(), true),
            Service::from_name(found[2].as_str()),
            RequestType::from_name(found[3].as_str()),
            Status::from_name(found[4].as_str()),
            found[6].clone(),
            found[8].clone(),
            flag_of(found[9].as_str(), false),
        );
        packet.encryption.key = found[7].clone();
        packet
    }

    /// Reads a packet from its wire form. The text is split on the
    /// separator; with exactly eleven fields it is a packet, whatever the
    /// fields hold, and with any other number it is refused.
    pub fn decode(wire: &str) -> (res: Result<NormanPacket, ParseError>)
        ensures
            result_view(res) == decoded(wire@),
    {
        let found = split_text(wire, SEPARATOR);
        if found.len() == FIELD_COUNT {
            Ok(NormanPacket::of_fields(&found))
        } else {
            Err(
                ParseError::FieldCountMismatch {
                    expected: FIELD_COUNT,
                    actual: found.len(),
                    remainder: terminate_each_text(&found, ","),
                },
            )
        }
    }

    /// Reads a packet from a wire form that has exactly eleven fields.
    pub fn from_string(packet_string: String) -> (packet: NormanPacket)
        requires
            split(packet_string@, SEPARATOR).len() == FIELD_COUNT,
        ensures
            Ok::<PacketView, ParseErrorView>(packet@) == decoded(packet_string@),
    {
        let found = split_text(packet_string.as_str(), SEPARATOR);
        NormanPacket::of_fields(&found)
    }
}

/// Whether decoding the wire form of the packet gives the packet back: the
/// separator occurs in none of its text fields, it has the identifier 0 and
/// the terminator `NORMAN/END`, and its status is one of `FINE` with 200,
/// `ERROR` with 500, `TEST` with 100 and `MALFORMED` with 505.
pub open spec fn canonical(packet: PacketView) -> bool {
    &&& texts_free_of_separator(packet)
    &&& packet.uid == 0
    &&& packet.term_string == terminator_text()
    &&& canonical_status(packet.status)
}

/// Whether the separator occurs in none of the text fields of the packet.
pub open spec fn texts_free_of_separator(packet: PacketView) -> bool {
    &&& free_of(packet.version, SEPARATOR)
    &&& free_of(packet.encoding_type, SEPARATOR)
    &&& free_of(packet.key, SEPARATOR)
    &&& free_of(packet.data, SEPARATOR)
    &&& free_of(packet.term_string, SEPARATOR)
}

/// Whether the tag of the status is the one that belongs to its code.
pub open spec fn canonical_status(status: Status) -> bool {
    ||| status == Status::FINE { code: 200 }
    ||| status == Status::ERROR { code: 500 }
    ||| status == Status::TEST { code: 100 }
    ||| status == Status::MALFORMED { code: 505 }
}

/// The packet that comes back when `packet` is encoded and decoded again:
/// the identifier is 0, the terminator is `NORMAN/END`, and the status is
/// the one that its wire text stands for.
pub open spec fn normalized(packet: PacketView) -> PacketView {
    PacketView {
        status: status_of_text(status_text(packet.status)),
        uid: 0,
        term_string: terminator_text(),
        ..packet
    }
}

/// The texts of flags, services, request types and statuses are distinct
/// and free of the separator, and each is read back as what it was written
/// for, up to the collapse of the unknown status codes.
pub proof fn lemma_lookup_tables(
    flag: bool,
    fallback: bool,
    service: Service,
    req_type: RequestType,
    status: Status,
)
    ensures
        free_of(flag_text(flag), SEPARATOR),
        free_of(service_text(service), SEPARATOR),
        free_of(request_type_text(req_type), SEPARATOR),
        free_of(status_text(status), SEPARATOR),
        flag_of_text(flag_text(flag), fallback) == flag,
        service_of_text(service_text(service)) == service,
        request_type_of_text(request_type_text(req_type)) == req_type,
        canonical_status(status) ==> status_of_text(status_text(status)) == status,
        canonical_status(status_of_text(status_text(status))),
{
    reveal_strlit("true");
    reveal_strlit("false");
    reveal_strlit("SHELL");
    reveal_strlit("DOCKER");
    reveal_strlit("AWS");
    reveal_strlit("UNKNOWN");
    reveal_strlit("REQUEST");
    reveal_strlit("RETURN");
    reveal_strlit("TEST");
    reveal_strlit("ERROR");
    reveal_strlit("200 OK");
    reveal_strlit("500 ERR");
    reveal_strlit("100 TEST");
    reveal_strlit("505 MALFORMED");
    assert("true"@.len() != "false"@.len());
    assert("SHELL"@[0] != "AWS"@[0] && "SHELL"@[0] != "DOCKER"@[0] && "AWS"@[0] != "DOCKER"@[0]);
    assert("UNKNOWN"@[0] != "SHELL"@[0] && "UNKNOWN"@[0] != "AWS"@[0] && "UNKNOWN"@[0]
        != "DOCKER"@[0]);
    assert("REQUEST"@[2] != "RETURN"@[2] && "REQUEST"@[0] != "TEST"@[0] && "RETURN"@[0]
        != "TEST"@[0]);
    assert("ERROR"@[0] != "REQUEST"@[0] && "ERROR"@[0] != "TEST"@[0]);
    assert("200 OK"@[0] != "500 ERR"@[0] && "200 OK"@[0] != "100 TEST"@[0] && "500 ERR"@[0]
        != "100 TEST"@[0]);
    assert("505 MALFORMED"@[2] != "500 ERR"@[2] && "505 MALFORMED"@[0] != "200 OK"@[0]
        && "505 MALFORMED"@[0] != "100 TEST"@[0]);
}

/// A code other than 200, 500 and 100 is written as `505 MALFORMED`,
/// whatever the code and the tag, and read back as `MALFORMED` with code
/// 505: the code itself is lost on the way.
pub proof fn lemma_unknown_code_collapses(status: Status)
    requires
        status_code(status) != 200,
        status_code(status) != 500,
        status_code(status) != 100,
    ensures
        status_text(status) == "505 MALFORMED"@,
        status_of_text(status_text(status)) == (Status::MALFORMED { code: 505 }),
{
    lemma_lookup_tables(true, true, Service::SHELL, RequestType::REQUEST, status);
    reveal_strlit("200 OK");
    reveal_strlit("500 ERR");
    reveal_strlit("100 TEST");
    reveal_strlit("505 MALFORMED");
    assert("505 MALFORMED"@[2] != "500 ERR"@[2] && "505 MALFORMED"@[0] != "200 OK"@[0]
        && "505 MALFORMED"@[0] != "100 TEST"@[0]);
}

/// The wire form of a packet whose text fields are free of the separator
/// has exactly eleven fields, and they are the fields of the packet.
pub proof fn lemma_wire_fields(packet: PacketView)
    requires
        texts_free_of_separator(packet),
    ensures
        split(wire_text(packet), SEPARATOR) == fields(packet),
        fields(packet).len() == FIELD_COUNT,
{
    let f = fields(packet);
    lemma_lookup_tables(
        packet.return_output,
        true,
        packet.service,
        packet.req_type,
        packet.status,
    );
    lemma_lookup_tables(
        packet.multi_packet,
        false,
        packet.service,
        packet.req_type,
        packet.status,
    );
    lemma_decimal_chars(packet.uid);
    assert(free_of(decimal_text(packet.uid), SEPARATOR)) by {
        assert forall|i: int| 0 <= i < decimal_text(packet.uid).len() implies decimal_text(
            packet.uid,
        )[i] != SEPARATOR by {
            assert(is_decimal_char(decimal_text(packet.uid)[i]));
        }
    }
    assert(all_free_of(f, SEPARATOR));
    lemma_split_join(f, SEPARATOR);
}

/// Encoding and then decoding never fails on a packet whose text fields are
/// free of the separator, and gives the packet back with the identifier 0,
/// the terminator `NORMAN/END` and the status that its code stands for.
pub proof fn lemma_decode_encode(packet: PacketView)
    requires
        texts_free_of_separator(packet),
    ensures
        decoded(wire_text(packet)) == Ok::<PacketView, ParseErrorView>(normalized(packet)),
{
    lemma_wire_fields(packet);
    lemma_lookup_tables(
        packet.return_output,
        true,
        packet.service,
        packet.req_type,
        packet.status,
    );
    lemma_lookup_tables(
        packet.multi_packet,
        false,
        packet.service,
        packet.req_type,
        packet.status,
    );
}

/// What follows the terminator on the wire, up to the next separator, is
/// not read: a wire form with such a trailer decodes like the wire form
/// alone.
pub proof fn lemma_decode_ignores_trailer(packet: PacketView, trailer: Seq<char>)
    requires
        texts_free_of_separator(packet),
        free_of(trailer, SEPARATOR),
    ensures
        decoded(wire_text(packet) + trailer) == Ok::<PacketView, ParseErrorView>(
            normalized(packet),
        ),
{
    let f = fields(packet);
    let front = f.drop_last();
    let last = f.last() + trailer;
    lemma_wire_fields(packet);
    lemma_decode_encode(packet);
    assert(all_free_of(front, SEPARATOR)) by {
        lemma_split_pieces(wire_text(packet), SEPARATOR);
        assert forall|k: int| 0 <= k < front.len() implies free_of(#[trigger] front[k], SEPARATOR) by {
            assert(front[k] == f[k]);
            assert(free_of(f[k], SEPARATOR));
        }
    }
    lemma_split_join(front, SEPARATOR);
    assert(free_of(last, SEPARATOR)) by {
        assert(free_of(f[10], SEPARATOR));
    }
    lemma_split_append(join(front, SEPARATOR), last, SEPARATOR);
    assert(wire_text(packet) + trailer =~= join(front, SEPARATOR).push(SEPARATOR) + last);
    let found = split(wire_text(packet) + trailer, SEPARATOR);
    assert(found == front.push(last));
    assert(found.len() == FIELD_COUNT);
    assert(forall|k: int| 0 <= k < 10 ==> found[k] == f[k]);
}

/// Decoding the wire form of a canonical packet gives the packet back, for
/// every service, every request type and every canonical status.
pub proof fn lemma_round_trip(packet: PacketView)
    requires
        canonical(packet),
    ensures
        decoded(wire_text(packet)) == Ok::<PacketView, ParseErrorView>(packet),
{
    lemma_decode_encode(packet);
    lemma_lookup_tables(
        packet.return_output,
        true,
        packet.service,
        packet.req_type,
        packet.status,
    );
}

/// Decoding fails exactly on the texts that do not split into eleven
/// fields, and then with a count mismatch that tells the number found.
pub proof fn lemma_decode_fails_on_count(wire: Seq<char>)
    ensures
        decoded(wire) is Err <==> split(wire, SEPARATOR).len() != FIELD_COUNT,
        decoded(wire) matches Err(ParseErrorView::FieldCountMismatch { expected, actual, .. })
            ==> expected == FIELD_COUNT && actual == split(wire, SEPARATOR).len(),
{
}

} // verus!
