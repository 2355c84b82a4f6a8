//! The codec layer: the supported on-disk formats, one serializer per
//! format behind a single contract, and the format manager that looks
//! codecs up, sniffs content, and converts between formats.

use vstd::prelude::*;
use crate::value::{JsonValue, Val, val_of};
use crate::jsontext::{ser_val, parse_text, val_wf, to_json_bytes, from_json_bytes,
    lemma_text_round_trip, confirm_val_wf};
use crate::binformat::{bin_wrap, bin_unwrap, bin_encode, bin_decode, lemma_bin_round_trip};
use crate::strutil::{lower_chars, ext_of};

verus! {

/// The closed set of sidecar encodings. The zero-copy variant is an
/// extension point: today it shares the binary envelope byte for byte.
#[derive(Clone, Copy, PartialEq, Eq, Structural, Debug, Hash)]
pub enum SidecarFormat {
    Json,
    Binary,
    Rkyv,
}

impl SidecarFormat {
    /// The fixed file extension of a format.
    pub open spec fn ext_token(self) -> Seq<char> {
        match self {
            SidecarFormat::Json => "json"@,
            SidecarFormat::Binary => "bin"@,
            SidecarFormat::Rkyv => "rkyv"@,
        }
    }

    /// The format an extension names, compared without regard to ASCII
    /// case.
    pub open spec fn from_ext_token(cs: Seq<char>) -> Option<SidecarFormat> {
        if lower_chars(cs) == "json"@ {
            Some(SidecarFormat::Json)
        } else if lower_chars(cs) == "bin"@ {
            Some(SidecarFormat::Binary)
        } else if lower_chars(cs) == "rkyv"@ {
            Some(SidecarFormat::Rkyv)
        } else {
            None
        }
    }

    /// The format a path's extension names.
    pub open spec fn from_path_spec(p: Seq<char>) -> Option<SidecarFormat> {
        match ext_of(p) {
            Some(e) => Self::from_ext_token(e),
            None => None,
        }
    }

    pub fn extension(&self) -> (r: &'static str)
        ensures
            r@ == self.ext_token(),
    {
        match self {
            SidecarFormat::Json => "json",
            SidecarFormat::Binary => "bin",
            SidecarFormat::Rkyv => "rkyv",
        }
    }

    pub fn from_extension(ext: &str) -> (r: Option<Self>)
        ensures
            r == Self::from_ext_token(ext@),
    {
        if crate::strutil::eq_lowered(ext, "json") {
            Some(SidecarFormat::Json)
        } else if crate::strutil::eq_lowered(ext, "bin") {
            Some(SidecarFormat::Binary)
        } else if crate::strutil::eq_lowered(ext, "rkyv") {
            Some(SidecarFormat::Rkyv)
        } else {
            None
        }
    }

    pub fn from_path(path: &str) -> (r: Option<Self>)
        ensures
            r == Self::from_path_spec(path@),
    {
        match crate::strutil::path_extension(path) {
            Some(e) => Self::from_extension(e.as_str()),
            None => None,
        }
    }

    /// The format new files default to.
    pub fn default() -> (r: Self)
        ensures
            r == SidecarFormat::Binary,
    {
        SidecarFormat::Binary
    }

    pub fn is_binary(&self) -> (r: bool)
        ensures
            r == (*self == SidecarFormat::Binary || *self == SidecarFormat::Rkyv),
    {
        match self {
            SidecarFormat::Json => false,
            SidecarFormat::Binary => true,
            SidecarFormat::Rkyv => true,
        }
    }

    pub fn description(&self) -> (r: &'static str)
        ensures
            r@.len() > 0,
    {
        proof {
            reveal_strlit("JSON (human-readable, slower)");
            reveal_strlit("Binary (fast, compact)");
            reveal_strlit("Rkyv (zero-copy, fastest)");
        }
        match self {
            SidecarFormat::Json => "JSON (human-readable, slower)",
            SidecarFormat::Binary => "Binary (fast, compact)",
            SidecarFormat::Rkyv => "Rkyv (zero-copy, fastest)",
        }
    }

    /// Resolution probes formats in this fixed order: binary-family
    /// formats first, text last.
    pub open spec fn priority_spec() -> Seq<SidecarFormat> {
        seq![SidecarFormat::Binary, SidecarFormat::Rkyv, SidecarFormat::Json]
    }

    pub fn priority_order() -> (r: Vec<SidecarFormat>)
        ensures
            r@ == Self::priority_spec(),
    {
        let mut v: Vec<SidecarFormat> = Vec::new();
        v.push(SidecarFormat::Binary);
        v.push(SidecarFormat::Rkyv);
        v.push(SidecarFormat::Json);
        proof {
            assert(v@ =~= Self::priority_spec());
        }
        v
    }
}

/// What serialization can report. A malformed input is blamed on the
/// format that was being read.
#[derive(Clone, Copy, PartialEq, Eq, Structural, Debug)]
pub enum SerializationError {
    Json,
    Binary,
    Rkyv,
    UnsupportedFormat(SidecarFormat),
    FormatDetectionFailed,
}

/// The malformed-content error of a format.
pub open spec fn malformed_err(f: SidecarFormat) -> SerializationError {
    match f {
        SidecarFormat::Json => SerializationError::Json,
        SidecarFormat::Binary => SerializationError::Binary,
        SidecarFormat::Rkyv => SerializationError::Rkyv,
    }
}

/// The bytes a format stores for a value: the text rendering, wrapped in
/// the length-prefixed envelope for the binary-family formats.
pub open spec fn encode_spec(f: SidecarFormat, v: Val) -> Seq<u8> {
    match f {
        SidecarFormat::Json => ser_val(v),
        SidecarFormat::Binary => bin_wrap(ser_val(v)),
        SidecarFormat::Rkyv => bin_wrap(ser_val(v)),
    }
}

/// The value a format reads from bytes, when the bytes are well-formed.
pub open spec fn decode_spec(f: SidecarFormat, s: Seq<u8>) -> Option<Val> {
    match f {
        SidecarFormat::Json => parse_text(s),
        _ => match bin_unwrap(s) {
            Some(p) => parse_text(p),
            None => None,
        },
    }
}

/// Round trip: every codec reads back exactly the value it wrote, for
/// every well-formed value.
pub proof fn lemma_codec_round_trip(f: SidecarFormat, v: Val)
    requires
        val_wf(v),
        ser_val(v).len() < 0x1_0000_0000_0000_0000,
    ensures
        decode_spec(f, encode_spec(f, v)) == Some(v),
{
    lemma_text_round_trip(v);
    if f != SidecarFormat::Json {
        lemma_bin_round_trip(ser_val(v));
    }
}

/// One codec: a serialize/deserialize pair bound to one format.
pub trait SidecarSerializer {
    /// The format this codec handles.
    spec fn fmt_spec(&self) -> SidecarFormat;

    /// Serialization always succeeds for the closed value type and
    /// produces exactly the format's encoding.
    fn serialize(&self, data: &JsonValue) -> (r: Result<Vec<u8>, SerializationError>)
        ensures
            r matches Ok(b) && b@ == encode_spec(self.fmt_spec(), data@),
    ;

    /// Deserialization yields the decoded value, and fails exactly on
    /// bytes the format cannot decode.
    fn deserialize(&self, bytes: &[u8]) -> (r: Result<JsonValue, SerializationError>)
        ensures
            match r {
                Ok(v) => decode_spec(self.fmt_spec(), bytes@) == Some(val_of(&v)),
                Err(e) => decode_spec(self.fmt_spec(), bytes@) is None && e == malformed_err(
                    self.fmt_spec()),
            },
    ;

    fn format(&self) -> (r: SidecarFormat)
        ensures
            r == self.fmt_spec(),
    ;
}

/// The text codec.
pub struct JsonSerializer;

impl SidecarSerializer for JsonSerializer {
    open spec fn fmt_spec(&self) -> SidecarFormat {
        SidecarFormat::Json
    }

    fn serialize(&self, data: &JsonValue) -> (r: Result<Vec<u8>, SerializationError>) {
        Ok(to_json_bytes(data))
    }

    fn deserialize(&self, bytes: &[u8]) -> (r: Result<JsonValue, SerializationError>) {
        match from_json_bytes(bytes) {
            Some(v) => Ok(v),
            None => Err(SerializationError::Json),
        }
    }

    fn format(&self) -> (r: SidecarFormat) {
        SidecarFormat::Json
    }
}

/// The length-prefixed binary codec.
pub struct BinarySerializer;

impl SidecarSerializer for BinarySerializer {
    open spec fn fmt_spec(&self) -> SidecarFormat {
        SidecarFormat::Binary
    }

    fn serialize(&self, data: &JsonValue) -> (r: Result<Vec<u8>, SerializationError>) {
        let text = to_json_bytes(data);
        Ok(bin_encode(&text))
    }

    fn deserialize(&self, bytes: &[u8]) -> (r: Result<JsonValue, SerializationError>) {
        match bin_decode(bytes) {
            Some(payload) => match from_json_bytes(payload.as_slice()) {
                Some(v) => Ok(v),
                None => Err(SerializationError::Binary),
            },
            None => Err(SerializationError::Binary),
        }
    }

    fn format(&self) -> (r: SidecarFormat) {
        SidecarFormat::Binary
    }
}

/// The zero-copy placeholder codec: byte-identical to the binary codec
/// today; a true zero-copy layout can replace it behind the same
/// contract.
pub struct RkyvSerializer;

impl SidecarSerializer for RkyvSerializer {
    open spec fn fmt_spec(&self) -> SidecarFormat {
        SidecarFormat::Rkyv
    }

    fn serialize(&self, data: &JsonValue) -> (r: Result<Vec<u8>, SerializationError>) {
        let text = to_json_bytes(data);
        Ok(bin_encode(&text))
    }

    fn deserialize(&self, bytes: &[u8]) -> (r: Result<JsonValue, SerializationError>) {
        match bin_decode(bytes) {
            Some(payload) => match from_json_bytes(payload.as_slice()) {
                Some(v) => Ok(v),
                None => Err(SerializationError::Rkyv),
            },
            None => Err(SerializationError::Rkyv),
        }
    }

    fn format(&self) -> (r: SidecarFormat) {
        SidecarFormat::Rkyv
    }
}

/// Holds one codec per supported format, performs detection and
/// conversion.
pub struct FormatManager {
    pub json_serializer: JsonSerializer,
    pub binary_serializer: BinarySerializer,
    pub rkyv_serializer: RkyvSerializer,
}

/// What content sniffing finds: text first, then the binary envelope.
pub open spec fn detect_spec(s: Seq<u8>) -> Option<SidecarFormat> {
    if parse_text(s) is Some {
        Some(SidecarFormat::Json)
    } else if decode_spec(SidecarFormat::Binary, s) is Some {
        Some(SidecarFormat::Binary)
    } else {
        None
    }
}

impl FormatManager {
    pub fn new() -> (r: Self) {
        FormatManager { json_serializer: JsonSerializer, binary_serializer: BinarySerializer,
            rkyv_serializer: RkyvSerializer }
    }

    /// Serializes under the given format; a pure lookup that succeeds for
    /// all three formats.
    pub fn serialize_with(&self, format: SidecarFormat, data: &JsonValue) -> (r: Result<
        Vec<u8>,
        SerializationError,
    >)
        ensures
            r matches Ok(b) && b@ == encode_spec(format, data@),
    {
        match format {
            SidecarFormat::Json => self.json_serializer.serialize(data),
            SidecarFormat::Binary => self.binary_serializer.serialize(data),
            SidecarFormat::Rkyv => self.rkyv_serializer.serialize(data),
        }
    }

    /// Deserializes under the given format.
    pub fn deserialize_with(&self, format: SidecarFormat, bytes: &[u8]) -> (r: Result<
        JsonValue,
        SerializationError,
    >)
        ensures
            match r {
                Ok(v) => decode_spec(format, bytes@) == Some(val_of(&v)),
                Err(e) => decode_spec(format, bytes@) is None && e == malformed_err(format),
            },
    {
        match format {
            SidecarFormat::Json => self.json_serializer.deserialize(bytes),
            SidecarFormat::Binary => self.binary_serializer.deserialize(bytes),
            SidecarFormat::Rkyv => self.rkyv_serializer.deserialize(bytes),
        }
    }

    /// Sniffs the format from content: used only when a file's extension
    /// is absent or unrecognized.
    pub fn detect_format_from_content(&self, bytes: &[u8]) -> (r: Result<
        SidecarFormat,
        SerializationError,
    >)
        ensures
            match r {
                Ok(f) => detect_spec(bytes@) == Some(f),
                Err(e) => detect_spec(bytes@) is None && e
                    == SerializationError::FormatDetectionFailed,
            },
    {
        match self.json_serializer.deserialize(bytes) {
            Ok(_) => Ok(SidecarFormat::Json),
            Err(_) => match self.binary_serializer.deserialize(bytes) {
                Ok(_) => Ok(SidecarFormat::Binary),
                Err(_) => Err(SerializationError::FormatDetectionFailed),
            },
        }
    }

    /// Converts a value between formats: a short-circuit serialize when
    /// the formats agree, a full re-encode otherwise. Either way the
    /// output is exactly the target format's encoding of the value.
    pub fn convert_format(&self, data: &JsonValue, from_format: SidecarFormat,
        to_format: SidecarFormat) -> (r: Result<Vec<u8>, SerializationError>)
        ensures
            r matches Ok(b) && b@ == encode_spec(to_format, data@),
    {
        if from_format == to_format {
            return self.serialize_with(to_format, data);
        }
        let source_bytes = match self.serialize_with(from_format, data) {
            Ok(b) => b,
            Err(e) => {
                proof {
                    assert(false);
                }
                return Err(e);
            }
        };
        let n = source_bytes.len();
        confirm_val_wf(data);
        proof {
            assert(n as int == source_bytes@.len());
            assert(ser_val(data@).len() <= n as int);
            assert((n as int) < 0x1_0000_0000_0000_0000);
            lemma_codec_round_trip(from_format, data@);
        }
        let roundtripped = match self.deserialize_with(from_format, source_bytes.as_slice()) {
            Ok(v) => v,
            Err(e) => {
                proof {
                    assert(false);
                }
                return Err(e);
            }
        };
        match self.serialize_with(to_format, &roundtripped) {
            Ok(b) => {
                proof {
                    assert(val_of(&roundtripped) == data@);
                }
                Ok(b)
            }
            Err(e) => {
                proof {
                    assert(false);
                }
                Err(e)
            }
        }
    }
}

impl Default for FormatManager {
    fn default() -> (r: Self) {
        FormatManager::new()
    }
}

} // verus!
