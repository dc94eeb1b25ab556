//! Web cryptography: random values for integer typed arrays, random UUIDs,
//! and the crypto key, subtle crypto and RTP sender objects.
use vstd::prelude::*;
use vstd::string::StringExecFns;
use rand::TryRng;

verus! {

/// The element type of a typed array.
#[derive(Clone, Copy, PartialEq, Eq, Structural, Debug)]
pub enum ArrayType {
    Int8,
    Uint8,
    Int16,
    Uint16,
    Int32,
    Uint32,
    Float32,
    Float64,
    Uint8Clamped,
    BigInt64,
    BigUint64,
    Float16,
    MaxTypedArrayViewType,
    Int64,
    Simd128,
}

/// The integer element types.
pub open spec fn integer_type(t: ArrayType) -> bool {
    t == ArrayType::Uint8 || t == ArrayType::Uint8Clamped || t == ArrayType::Int8 || t
        == ArrayType::Uint16 || t == ArrayType::Int16 || t == ArrayType::Uint32 || t
        == ArrayType::Int32 || t == ArrayType::BigInt64 || t == ArrayType::BigUint64
}

/// The element types that are not integers: the floating-point ones, and
/// the kinds that are no typed-array element type.
pub open spec fn non_integer_kind(t: ArrayType) -> bool {
    t is Float16 || t is Float32 || t is Float64 || t is Int64 || t is Simd128 || t is MaxTypedArrayViewType
}

/// Every typed-array element type but the floating-point ones holds
/// integers: 8-, 16-, 32- and 64-bit, signed and unsigned, and clamped
/// bytes.
pub proof fn lemma_integer_element_types(t: ArrayType)
    ensures
        integer_type(t) == !non_integer_kind(t),
{
}

/// Whether a typed array of this element type holds integers.
pub fn is_integer_buffer(array_type: ArrayType) -> (b: bool)
    ensures
        b == integer_type(array_type),
{
    match array_type {
        ArrayType::Uint8 | ArrayType::Uint8Clamped | ArrayType::Int8 | ArrayType::Uint16
        | ArrayType::Int16 | ArrayType::Uint32 | ArrayType::Int32 | ArrayType::BigInt64
        | ArrayType::BigUint64 => true,
        _ => false,
    }
}

/// Why getting random values fails.
#[derive(Clone, Copy, PartialEq, Eq, Structural, Debug)]
pub enum CryptoError {
    NonIntegerBuffer,
    InputTooLong,
    RandomGenerationFailed,
}

pub open spec fn crypto_error_message(e: CryptoError) -> Seq<char> {
    match e {
        CryptoError::NonIntegerBuffer => "Non-integer buffer provided"@,
        CryptoError::InputTooLong => "Input buffer exceeded 64kb"@,
        CryptoError::RandomGenerationFailed => "Failed to generate random values"@,
    }
}

impl CryptoError {
    /// The message of the error.
    pub fn into_string(self) -> (s: String)
        ensures
            s@ == crypto_error_message(self),
    {
        match self {
            CryptoError::NonIntegerBuffer => String::from_str("Non-integer buffer provided"),
            CryptoError::InputTooLong => String::from_str("Input buffer exceeded 64kb"),
            CryptoError::RandomGenerationFailed => String::from_str("Failed to generate random values"),
        }
    }
}

/// An error of an interface method, by the kind of exception it throws.
#[derive(Clone, Copy, PartialEq, Eq, Structural, Debug)]
pub enum InterfaceError {
    TypeMismatch(CryptoError),
    QuotaExceeded(CryptoError),
    Operation(CryptoError),
}

/// The most bytes that one call can fill with random values.
pub const MAX_RANDOM_BYTES: usize = 65536;

/// Fills `data` with random bytes from the operating system with
/// `rand::rngs::SysRng` (`try_fill_bytes`); returns whether it succeeded.
/// The length stays; what the bytes are is not stated.
#[verifier::external_body]
fn fill_random(data: &mut Vec<u8>) -> (ok: bool)
    ensures
        final(data)@.len() == old(data)@.len(),
{
    rand::rngs::SysRng.try_fill_bytes(data.as_mut_slice()).is_ok()
}

/// `crypto.getRandomValues`: refuses a typed array that does not hold
/// integers (type mismatch) and one of more than 65536 bytes (quota
/// exceeded); else fills its bytes with random values (an operation error
/// when the system cannot).
pub fn get_random_values(array_type: ArrayType, data: &mut Vec<u8>) -> (r: Result<(), InterfaceError>)
    ensures
        final(data)@.len() == old(data)@.len(),
        !integer_type(array_type) ==> r == Err::<(), InterfaceError>(InterfaceError::TypeMismatch(CryptoError::NonIntegerBuffer))
            && final(data)@ == old(data)@,
        integer_type(array_type) && old(data)@.len() > MAX_RANDOM_BYTES ==> r == Err::<(), InterfaceError>(InterfaceError::QuotaExceeded(CryptoError::InputTooLong))
            && final(data)@ == old(data)@,
        integer_type(array_type) && old(data)@.len() <= MAX_RANDOM_BYTES ==> (r is Ok || r == Err::<(), InterfaceError>(InterfaceError::Operation(CryptoError::RandomGenerationFailed))),
        non_integer_kind(array_type) ==> r == Err::<(), InterfaceError>(InterfaceError::TypeMismatch(CryptoError::NonIntegerBuffer)),
        !non_integer_kind(array_type) ==> !(r matches Err(InterfaceError::TypeMismatch(_))),
{
    proof {
        lemma_integer_element_types(array_type);
    }
    if !is_integer_buffer(array_type) {
        return Err(InterfaceError::TypeMismatch(CryptoError::NonIntegerBuffer));
    }
    if data.len() > MAX_RANDOM_BYTES {
        return Err(InterfaceError::QuotaExceeded(CryptoError::InputTooLong));
    }
    if !fill_random(data) {
        return Err(InterfaceError::Operation(CryptoError::RandomGenerationFailed));
    }
    Ok(())
}

pub open spec fn is_lower_hex(c: char) -> bool {
    ('0' <= c && c <= '9') || ('a' <= c && c <= 'f')
}

/// A version-4 UUID in hyphenated lowercase form: 36 characters, hyphens
/// at 8, 13, 18 and 23, lowercase hex digits elsewhere, the version digit
/// '4' at 14 and a variant digit 8, 9, a or b at 19.
pub open spec fn is_v4_uuid(s: Seq<char>) -> bool {
    &&& s.len() == 36
    &&& forall|i: int| 0 <= i < 36 ==> if i == 8 || i == 13 || i == 18 || i == 23 {
        #[trigger] s[i] == '-'
    } else {
        is_lower_hex(s[i])
    }
    &&& s[14] == '4'
    &&& (s[19] == '8' || s[19] == '9' || s[19] == 'a' || s[19] == 'b')
}

/// The text of the version-4 UUID that `uuid::Builder::from_random_bytes`
/// makes of 16 random bytes, hyphenated in lowercase.
pub uninterp spec fn v4_uuid_text(bytes: Seq<u8>) -> Seq<char>;

/// The version-4 UUID made of 16 random bytes with
/// `uuid::Builder::from_random_bytes` (which sets the version and variant
/// bits), written with `Hyphenated::encode_lower`: its text is a function of
/// the bytes, and it has the shape of a version-4 UUID.
#[verifier::external_body]
fn v4_uuid_from_bytes(bytes: &Vec<u8>) -> (s: String)
    requires
        bytes@.len() == 16,
    ensures
        s@ == v4_uuid_text(bytes@),
        is_v4_uuid(s@),
{
    let mut b = [0u8; 16];
    b.copy_from_slice(bytes.as_slice());
    let id = uuid::Builder::from_random_bytes(b).into_uuid();
    id.hyphenated().encode_lower(&mut uuid::Uuid::encode_buffer()).to_owned()
}

/// `crypto.randomUUID`: a version-4 UUID (see [`is_v4_uuid`]) made of 16
/// random bytes from the system; `None` when the system gives none.
pub fn random_uuid() -> (s: Option<String>)
    ensures
        s matches Some(u) ==> is_v4_uuid(u@) && exists|b: Seq<u8>| b.len() == 16 && u@ == #[trigger] v4_uuid_text(b),
{
    let mut bytes: Vec<u8> = Vec::new();
    let mut i: usize = 0;
    while i < 16
        invariant
            i <= 16,
            bytes@.len() == i,
        decreases 16 - i,
    {
        bytes.push(0);
        i = i + 1;
    }
    if fill_random(&mut bytes) {
        let u = v4_uuid_from_bytes(&bytes);
        assert(u@ == v4_uuid_text(bytes@));
        Some(u)
    } else {
        None
    }
}

/// The kind of a crypto key.
#[derive(Clone, Copy, PartialEq, Eq, Structural, Debug)]
pub enum KeyType {
    Public,
    Private,
    Secret,
}

/// What a crypto key may be used for.
#[derive(Clone, Copy, PartialEq, Eq, Structural, Debug)]
pub enum KeyUsage {
    Encrypt,
    Decrypt,
    Sign,
    Verify,
    DeriveKey,
    DeriveBits,
    WrapKey,
    UnwrapKey,
}

/// The algorithm of a crypto key, by name.
pub struct KeyAlgorithm {
    pub name: String,
}

/// A crypto key: its kind, whether it can be exported, its algorithm and
/// usages.
pub struct CryptoKey {
    key_type: KeyType,
    extractable: bool,
    algorithm: KeyAlgorithm,
    usages: Vec<KeyUsage>,
}

impl CryptoKey {
    pub closed spec fn key_type_view(&self) -> KeyType {
        self.key_type
    }

    pub closed spec fn extractable_view(&self) -> bool {
        self.extractable
    }

    pub closed spec fn algorithm_name(&self) -> Seq<char> {
        self.algorithm.name@
    }

    pub closed spec fn usages_view(&self) -> Seq<KeyUsage> {
        self.usages@
    }

    pub fn new_inherited(key_type: KeyType, extractable: bool, algorithm: KeyAlgorithm, usages: Vec<KeyUsage>) -> (k: CryptoKey)
        ensures
            k.key_type_view() == key_type,
            k.extractable_view() == extractable,
            k.algorithm_name() == algorithm.name@,
            k.usages_view() == usages@,
    {
        CryptoKey { key_type, extractable, algorithm, usages }
    }

    pub fn new(key_type: KeyType, extractable: bool, algorithm: KeyAlgorithm, usages: Vec<KeyUsage>) -> (k: CryptoKey)
        ensures
            k.key_type_view() == key_type,
            k.extractable_view() == extractable,
            k.algorithm_name() == algorithm.name@,
            k.usages_view() == usages@,
    {
        CryptoKey::new_inherited(key_type, extractable, algorithm, usages)
    }

    /// `CryptoKey.type`.
    pub fn key_type(&self) -> (t: KeyType)
        ensures
            t == self.key_type_view(),
    {
        self.key_type
    }

    /// `CryptoKey.extractable`.
    pub fn extractable(&self) -> (b: bool)
        ensures
            b == self.extractable_view(),
    {
        self.extractable
    }

    /// `CryptoKey.algorithm`.
    pub fn algorithm(&self) -> (a: &KeyAlgorithm)
        ensures
            a.name@ == self.algorithm_name(),
    {
        &self.algorithm
    }

    /// `CryptoKey.usages`.
    pub fn usages(&self) -> (u: &Vec<KeyUsage>)
        ensures
            u@ == self.usages_view(),
    {
        &self.usages
    }
}

/// The subtle crypto interface.
pub struct SubtleCrypto {}

impl SubtleCrypto {
    pub fn new_inherited() -> (s: SubtleCrypto)
        ensures
            s == (SubtleCrypto {}),
    {
        SubtleCrypto {}
    }

    pub fn new() -> (s: SubtleCrypto)
        ensures
            s == (SubtleCrypto {}),
    {
        SubtleCrypto::new_inherited()
    }

    /// `deriveKey` does nothing yet.
    pub fn derive_key(&self) {
    }
}

/// The crypto interface: its subtle crypto object, made on first use.
pub struct Crypto {
    subtle: Option<SubtleCrypto>,
}

impl Crypto {
    pub closed spec fn has_subtle(&self) -> bool {
        self.subtle is Some
    }

    pub fn new_inherited() -> (c: Crypto)
        ensures
            !c.has_subtle(),
    {
        Crypto { subtle: None }
    }

    /// `crypto.subtle`: the subtle crypto object, made on first use.
    pub fn subtle(&mut self) -> (s: &SubtleCrypto)
        ensures
            final(self).has_subtle(),
            old(self).has_subtle() ==> *final(self) == *old(self),
    {
        if self.subtle.is_none() {
            self.subtle = Some(SubtleCrypto::new());
        }
        self.subtle.as_ref().unwrap()
    }
}

/// RTCP parameters.
pub struct RTCRtcpParameters {
    pub cname: Option<String>,
    pub reduced_size: Option<bool>,
}

/// A header extension of RTP parameters.
pub struct RTCRtpHeaderExtensionParameters {
    pub uri: String,
    pub id: u16,
    pub encrypted: bool,
}

/// A codec of RTP parameters.
pub struct RTCRtpCodecParameters {
    pub payload_type: u8,
    pub mime_type: String,
    pub clock_rate: u32,
    pub channels: Option<u16>,
    pub sdp_fmtp_line: String,
}

/// An encoding of RTP send parameters.
pub struct RTCRtpEncodingParameters {
    pub rid: String,
    pub active: bool,
    pub max_bitrate: Option<u32>,
}

/// RTP parameters.
pub struct RTCRtpParameters {
    pub header_extensions: Vec<RTCRtpHeaderExtensionParameters>,
    pub rtcp: RTCRtcpParameters,
    pub codecs: Vec<RTCRtpCodecParameters>,
}

/// RTP send parameters.
pub struct RTCRtpSendParameters {
    pub parent: RTCRtpParameters,
    pub transaction_id: String,
    pub encodings: Vec<RTCRtpEncodingParameters>,
}

/// An RTP sender.
pub struct RTCRtpSender {}

/// The state a promise is returned in.
#[derive(Clone, Copy, PartialEq, Eq, Structural, Debug)]
pub enum PromiseState {
    Pending,
    Resolved,
    Rejected,
}

impl RTCRtpSender {
    pub fn new_inherited() -> (s: RTCRtpSender)
        ensures
            s == (RTCRtpSender {}),
    {
        RTCRtpSender {}
    }

    pub fn new() -> (s: RTCRtpSender)
        ensures
            s == (RTCRtpSender {}),
    {
        RTCRtpSender::new_inherited()
    }

    /// `getParameters`: empty parameters (no header extensions, codecs or
    /// encodings, no RTCP name or reduced size, an empty transaction id).
    pub fn get_parameters(&self) -> (p: RTCRtpSendParameters)
        ensures
            p.parent.header_extensions@.len() == 0,
            p.parent.rtcp.cname is None,
            p.parent.rtcp.reduced_size is None,
            p.parent.codecs@.len() == 0,
            p.transaction_id@.len() == 0,
            p.encodings@.len() == 0,
    {
        RTCRtpSendParameters {
            parent: RTCRtpParameters {
                header_extensions: Vec::new(),
                rtcp: RTCRtcpParameters { cname: None, reduced_size: None },
                codecs: Vec::new(),
            },
            transaction_id: String::new(),
            encodings: Vec::new(),
        }
    }

    /// `setParameters`: a promise that is resolved at once.
    pub fn set_parameters(&self, parameters: &RTCRtpSendParameters) -> (p: PromiseState)
        ensures
            p == PromiseState::Resolved,
    {
        PromiseState::Resolved
    }
}

} // verus!
