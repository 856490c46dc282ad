use vstd::prelude::*;
use vstd::string::StrSliceExecFns;
use vstd::string::StringExecFns;

verus! {

/// A signal of the game: its kind and its name.
#[derive(Debug, PartialEq, Eq)]
pub struct Signal {
    pub cat: String,
    pub name: String,
}

/// One line of a constant combinator.
#[derive(Debug, PartialEq, Eq)]
pub struct Filter {
    pub signal: Signal,
    pub count: i32,
    pub index: u32,
}

/// The other end of a wire: an entity and the circuit of it that the wire
/// attaches to.
#[derive(Debug, Clone, Copy, PartialEq, Eq)]
pub struct Connection {
    pub entity_id: u32,
    pub circuit_id: Option<u32>,
}

/// The wires at one circuit of an entity, by colour.
#[derive(Debug, PartialEq, Eq)]
pub struct Connections {
    pub red: Option<Vec<Connection>>,
    pub green: Option<Vec<Connection>>,
}

/// What an arithmetic combinator computes.
#[derive(Debug, PartialEq, Eq)]
pub struct ArithmeticConditions {
    pub first_signal: Option<Signal>,
    pub first_constant: Option<i32>,
    pub second_signal: Option<Signal>,
    pub second_constant: Option<i32>,
    pub output_signal: Option<Signal>,
    pub operation: String,
}

/// What a decider combinator tests and puts out.
#[derive(Debug, PartialEq, Eq)]
pub struct DeciderConditions {
    pub first_signal: Signal,
    pub second_signal: Option<Signal>,
    pub constant: Option<i32>,
    pub output_signal: Option<Signal>,
    pub comparator: String,
    pub copy_count_from_input: bool,
}

/// The settings of an entity; which of them is present depends on its kind.
#[derive(Debug, PartialEq, Eq)]
pub struct ControlBehavior {
    pub arithmetic_conditions: Option<ArithmeticConditions>,
    pub decider_conditions: Option<DeciderConditions>,
    pub filters: Option<Vec<Filter>>,
}

/// A place on the map, in half cells.
#[derive(Debug, Clone, Copy, PartialEq, Eq)]
pub struct Position {
    pub x: i64,
    pub y: i64,
}

/// One entity of a blueprint. An entity has at most two circuits: the one
/// it reads from, which is the only one of a constant combinator or a pole,
/// and the one it writes to.
#[derive(Debug, PartialEq, Eq)]
pub struct Entity {
    pub entity_number: u32,
    pub name: String,
    pub position: Position,
    pub direction: u32,
    pub control_behavior: ControlBehavior,
    pub circuit_one: Connections,
    pub circuit_two: Connections,
}

/// A blueprint: its entities, numbered from 1 in order.
#[derive(Debug, PartialEq, Eq)]
pub struct Blueprint {
    pub entities: Vec<Entity>,
}

impl Signal {
    /// A copy of the signal.
    pub fn duplicate(&self) -> (r: Signal)
        ensures
            r == *self,
    {
        Signal { cat: self.cat.clone(), name: self.name.clone() }
    }
}

impl Connections {
    /// No wires.
    pub fn new() -> (r: Connections)
        ensures
            r.red is None,
            r.green is None,
    {
        Connections { red: None, green: None }
    }

    /// The red wires, or the green ones.
    pub open spec fn wires(&self, red: bool) -> Seq<Connection> {
        let list = if red {
            self.red
        } else {
            self.green
        };
        match list {
            Some(v) => v@,
            None => seq![],
        }
    }

    /// Adds a wire of the given colour.
    pub fn add(&mut self, red: bool, wire: Connection)
        ensures
            final(self).wires(red) == old(self).wires(red).push(wire),
            final(self).wires(!red) == old(self).wires(!red),
    {
        if red {
            let mut list = match self.red.take() {
                Some(v) => v,
                None => Vec::new(),
            };
            list.push(wire);
            self.red = Some(list);
        } else {
            let mut list = match self.green.take() {
                Some(v) => v,
                None => Vec::new(),
            };
            list.push(wire);
            self.green = Some(list);
        }
    }
}

impl Entity {
    /// The entity has no wires.
    pub open spec fn bare(&self) -> bool {
        &&& self.circuit_one.red is None
        &&& self.circuit_one.green is None
        &&& self.circuit_two.red is None
        &&& self.circuit_two.green is None
    }

    /// The wires of one colour at circuit 1 or 2 of the entity; none at any
    /// other circuit.
    pub open spec fn wires(&self, circuit: u32, red: bool) -> Seq<Connection> {
        if circuit == 1 {
            self.circuit_one.wires(red)
        } else if circuit == 2 {
            self.circuit_two.wires(red)
        } else {
            seq![]
        }
    }
}

/// Why a blueprint string cannot be read.
#[derive(Debug, Clone, Copy, PartialEq, Eq, Structural)]
pub enum EnvelopeError {
    /// The string does not start with the version digit `0`.
    BadVersion,
    /// What follows the version is no Base64 text.
    BadBase64,
    /// The bytes are no zlib stream, or could not be compressed into one.
    BadZlib,
}

/// `base64::DecodeError`: why a text is no Base64. It is carried through
/// and never looked into.
#[verifier::external_type_specification]
#[verifier::external_body]
pub struct ExDecodeError(base64::DecodeError);

/// `std::io::Error`: why a stream could not be written or read. It is
/// carried through and never looked into.
#[verifier::external_type_specification]
#[verifier::external_body]
pub struct ExIoError(std::io::Error);

/// The Base64 text that `base64::encode` gives for some bytes.
pub uninterp spec fn base64_text(data: Seq<u8>) -> Seq<char>;

/// The bytes that `base64::decode` gives for a text, if it gives any.
pub uninterp spec fn base64_bytes(text: Seq<char>) -> Option<Seq<u8>>;

/// The zlib stream that `flate2` gives for some bytes at its best
/// compression, if it gives one.
pub uninterp spec fn deflated(data: Seq<u8>) -> Option<Seq<u8>>;

/// The bytes that `flate2` reads out of a zlib stream, if it reads it to
/// its end without an error.
pub uninterp spec fn inflated(data: Seq<u8>) -> Option<Seq<u8>>;

/// `base64::encode`: the standard Base64 text of the bytes, which here has
/// a name and no definition.
#[verifier::external_body]
fn base64_encode(data: &Vec<u8>) -> (r: String)
    ensures
        r@ == base64_text(data@),
{
    base64::encode(data)
}

/// `base64::decode`: the bytes that a standard Base64 text stands for, or
/// the error of the crate where the text is none. Both have a name and no
/// definition.
#[verifier::external_body]
fn base64_decode(text: &str) -> (r: Result<Vec<u8>, base64::DecodeError>)
    ensures
        match r {
            Ok(bytes) => base64_bytes(text@) == Some(bytes@),
            Err(_) => base64_bytes(text@) is None,
        },
{
    base64::decode(text)
}

/// `flate2::write::ZlibEncoder` at `Compression::best()`: writes the bytes
/// through the encoder into a vector. The result is the zlib stream of the
/// bytes, or the error of the encoder; which of the two, and the stream,
/// depend on the bytes alone. Both have a name and no definition.
#[verifier::external_body]
fn zlib_deflate(data: &Vec<u8>) -> (r: Result<Vec<u8>, std::io::Error>)
    ensures
        match r {
            Ok(bytes) => deflated(data@) == Some(bytes@),
            Err(_) => deflated(data@) is None,
        },
{
    let mut encoder = flate2::write::ZlibEncoder::new(Vec::new(), flate2::Compression::best());
    std::io::Write::write_all(&mut encoder, data)?;
    encoder.finish()
}

/// `flate2::read::ZlibDecoder`: reads the bytes through the decoder to
/// their end. The result is what the decoder gives out, or its error. Both
/// have a name and no definition.
#[verifier::external_body]
fn zlib_inflate(data: &Vec<u8>) -> (r: Result<Vec<u8>, std::io::Error>)
    ensures
        match r {
            Ok(bytes) => inflated(data@) == Some(bytes@),
            Err(_) => inflated(data@) is None,
        },
{
    let mut decoder = flate2::read::ZlibDecoder::new(data.as_slice());
    let mut out = Vec::new();
    std::io::Read::read_to_end(&mut decoder, &mut out)?;
    Ok(out)
}

/// The blueprint string of a JSON document: the digit `0`, then the Base64
/// text of the zlib stream of the document. `None` where the document has
/// no zlib stream.
pub open spec fn envelope_of(json: Seq<u8>) -> Option<Seq<char>> {
    match deflated(json) {
        Some(stream) => Some(seq!['0'] + base64_text(stream)),
        None => None,
    }
}

/// The JSON document of a blueprint string.
pub open spec fn content_of(text: Seq<char>) -> Result<Seq<u8>, EnvelopeError> {
    if text.len() == 0 || text[0] != '0' {
        Err(EnvelopeError::BadVersion)
    } else {
        match base64_bytes(text.subrange(1, text.len() as int)) {
            None => Err(EnvelopeError::BadBase64),
            Some(stream) => match inflated(stream) {
                None => Err(EnvelopeError::BadZlib),
                Some(json) => Ok(json),
            },
        }
    }
}

/// Wraps a JSON document into a blueprint string. `BadZlib` where the
/// compression fails.
pub fn write_blueprint(json: &Vec<u8>) -> (r: Result<String, EnvelopeError>)
    ensures
        match envelope_of(json@) {
            Some(text) => r is Ok && r->Ok_0@ == text,
            None => r == Err::<String, EnvelopeError>(EnvelopeError::BadZlib),
        },
{
    let stream = match zlib_deflate(json) {
        Ok(stream) => stream,
        Err(_) => {
            return Err(EnvelopeError::BadZlib);
        },
    };
    let b64 = base64_encode(&stream);
    proof {
        reveal_strlit("0");
        assert("0"@ =~= seq!['0']);
    }
    Ok(String::from_str("0").concat(b64.as_str()))
}

/// Unwraps the JSON document of a blueprint string.
pub fn read_blueprint(blueprint: &str) -> (r: Result<Vec<u8>, EnvelopeError>)
    ensures
        match content_of(blueprint@) {
            Ok(json) => r is Ok && r->Ok_0@ == json,
            Err(e) => r is Err && r->Err_0 == e,
        },
{
    let n = blueprint.unicode_len();
    if n == 0 {
        return Err(EnvelopeError::BadVersion);
    }
    if blueprint.get_char(0) != '0' {
        return Err(EnvelopeError::BadVersion);
    }
    let b64 = blueprint.substring_char(1, n);
    let stream = match base64_decode(b64) {
        Ok(stream) => stream,
        Err(_) => {
            return Err(EnvelopeError::BadBase64);
        },
    };
    match zlib_inflate(&stream) {
        Ok(json) => Ok(json),
        Err(_) => Err(EnvelopeError::BadZlib),
    }
}

} // verus!
