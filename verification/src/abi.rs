//! The runtime's side of its boundary with the host: values handed out
//! behind handles, byte buffers for text, results of fallible calls, and
//! references to host functions.

use vstd::prelude::*;
use vstd::string::StrSliceExecFns;
use vstd::utf8::{decode_utf8, encode_utf8, valid_utf8};

verus! {

/// A runtime value handed to the host: the runtime owns the value, the host
/// holds the handle and passes it back to refer to it.
pub struct Abi<T> {
    value: Box<T>,
}

impl<T> Abi<T> {
    /// The value behind the handle.
    pub closed spec fn value(&self) -> T {
        *self.value
    }

    /// Hands `object` out behind a new handle.
    pub fn into_abi(object: T) -> (r: Abi<T>)
        ensures
            r.value() == object,
    {
        Abi { value: Box::new(object) }
    }

    /// Takes the value back from the host; the handle is gone.
    pub fn into_runtime(self) -> (r: Box<T>)
        ensures
            *r == self.value(),
    {
        self.value
    }

    /// Works on the value while the host keeps the handle.
    pub fn into_runtime_temporary(&mut self) -> (r: &mut T)
        ensures
            *r == old(self).value(),
            final(self).value() == *final(r),
    {
        &mut *self.value
    }

    /// Reads the value while the host keeps the handle.
    pub fn runtime(&self) -> (r: &T)
        ensures
            *r == self.value(),
    {
        &*self.value
    }
}

/// Bytes shared with the host, most often the UTF-8 encoding of a text.
pub struct AbiBuffer {
    bytes: Vec<u8>,
}

/// Reads UTF-8 text.
///
/// Trusted: `std::str::from_utf8` accepts exactly the valid UTF-8 byte
/// sequences and gives the characters they encode.
#[verifier::external_body]
fn decode_text(bytes: &Vec<u8>) -> (r: Option<String>)
    ensures
        r is Some <==> valid_utf8(bytes@),
        r matches Some(s) ==> s@ == decode_utf8(bytes@),
{
    match std::str::from_utf8(bytes.as_slice()) {
        Ok(s) => Some(s.to_owned()),
        Err(_) => None,
    }
}

impl AbiBuffer {
    /// The bytes of the buffer.
    pub closed spec fn contents(&self) -> Seq<u8> {
        self.bytes@
    }

    /// A buffer of `size` zero bytes, for the host to fill.
    pub fn new(size: usize) -> (r: AbiBuffer)
        ensures
            r.contents() == Seq::new(size as nat, |i: int| 0u8),
    {
        let mut bytes: Vec<u8> = Vec::new();
        let mut i: usize = 0;
        while i < size
            invariant
                i <= size,
                bytes@ == Seq::new(i as nat, |j: int| 0u8),
            decreases size - i,
        {
            bytes.push(0u8);
            i = i + 1;
            assert(bytes@ =~= Seq::new(i as nat, |j: int| 0u8));
        }
        AbiBuffer { bytes }
    }

    /// A buffer holding the UTF-8 encoding of `s`.
    pub fn from_string(s: String) -> (r: AbiBuffer)
        ensures
            r.contents() == encode_utf8(s@),
    {
        AbiBuffer { bytes: s.as_str().as_bytes_vec() }
    }

    /// The text the buffer encodes, which must be valid UTF-8.
    pub fn to_string(&self) -> (r: String)
        requires
            valid_utf8(self.contents()),
        ensures
            r@ == decode_utf8(self.contents()),
            encode_utf8(r@) == self.contents(),
    {
        proof {
            vstd::utf8::decode_utf8_encode_utf8(self.bytes@);
        }
        match decode_text(&self.bytes) {
            Some(s) => s,
            None => String::new(),
        }
    }

    /// The number of bytes.
    pub fn len(&self) -> (r: usize)
        ensures
            r == self.contents().len(),
    {
        self.bytes.len()
    }

    /// The bytes themselves, for the host to read or fill.
    pub fn ptr(&mut self) -> (r: &mut Vec<u8>)
        ensures
            (*r)@ == old(self).contents(),
            final(self).contents() == (*final(r))@,
    {
        &mut self.bytes
    }
}

/// A text survives the trip through a buffer.
pub proof fn lemma_buffer_round_trip(s: Seq<char>)
    ensures
        valid_utf8(encode_utf8(s)),
        decode_utf8(encode_utf8(s)) == s,
{
    vstd::utf8::encode_utf8_valid_utf8(s);
    vstd::utf8::encode_utf8_decode_utf8(s);
}

/// The number of bytes in the buffer behind the handle.
#[allow(non_snake_case)]
pub fn abi_buffer__len(abi_buffer: &Abi<AbiBuffer>) -> (r: usize)
    ensures
        r == abi_buffer.value().contents().len(),
{
    abi_buffer.runtime().len()
}

/// A new buffer of `size` zero bytes, behind a handle.
#[allow(non_snake_case)]
pub fn abi_buffer__new(size: usize) -> (r: Abi<AbiBuffer>)
    ensures
        r.value().contents() == Seq::new(size as nat, |i: int| 0u8),
{
    Abi::into_abi(AbiBuffer::new(size))
}

/// The bytes of the buffer behind the handle, for the host to read or fill.
#[allow(non_snake_case)]
pub fn abi_buffer__ptr(abi_buffer: &mut Abi<AbiBuffer>) -> (r: &mut Vec<u8>)
    ensures
        (*r)@ == old(abi_buffer).value().contents(),
        final(abi_buffer).value().contents() == (*final(r))@,
{
    abi_buffer.into_runtime_temporary().ptr()
}

/// Releases the buffer behind the handle.
#[allow(non_snake_case)]
pub fn abi_buffer__drop(abi_buffer: Abi<AbiBuffer>) {
    let _ = abi_buffer.into_runtime();
}

/// The result of a call the host makes that may fail: no message while it
/// has not failed, the failure's message once it has.
pub struct AbiResult(Option<String>);

/// The text of a result's message: empty if it has not failed.
pub open spec fn message_text(m: Option<Seq<char>>) -> Seq<char> {
    match m {
        Some(t) => t,
        None => Seq::empty(),
    }
}

impl AbiResult {
    /// The failure's message, if the call failed.
    pub closed spec fn failure(&self) -> Option<Seq<char>> {
        match self.0 {
            Some(m) => Some(m@),
            None => None,
        }
    }

    /// A result that has not failed.
    pub fn new() -> (r: AbiResult)
        ensures
            r.failure() is None,
    {
        AbiResult(None)
    }

    /// Marks the result as a success.
    pub fn ok(&mut self)
        ensures
            final(self).failure() is None,
    {
        self.0 = None;
    }

    /// Marks the result as a failure with `message`.
    pub fn err(&mut self, message: String)
        ensures
            final(self).failure() == Some(message@),
    {
        self.0 = Some(message);
    }

    /// Whether the call succeeded.
    pub fn is_ok(&self) -> (r: bool)
        ensures
            r == (self.failure() is None),
    {
        self.0.is_none()
    }

    /// Whether the call failed.
    pub fn is_err(&self) -> (r: bool)
        ensures
            r == (self.failure() is Some),
    {
        self.0.is_some()
    }

    /// The failure's message, or an empty text if the call succeeded.
    pub fn message(&self) -> (r: String)
        ensures
            r@ == message_text(self.failure()),
    {
        match &self.0 {
            Some(m) => m.clone(),
            None => String::new(),
        }
    }
}

/// A new result that has not failed, behind a handle.
#[allow(non_snake_case)]
pub fn abi_result__new() -> (r: Abi<AbiResult>)
    ensures
        r.value().failure() is None,
{
    Abi::into_abi(AbiResult::new())
}

/// Whether the call behind the handle succeeded.
#[allow(non_snake_case)]
pub fn abi_result__is_ok(abi_result: &Abi<AbiResult>) -> (r: bool)
    ensures
        r == (abi_result.value().failure() is None),
{
    abi_result.runtime().is_ok()
}

/// Whether the call behind the handle failed.
#[allow(non_snake_case)]
pub fn abi_result__is_err(abi_result: &Abi<AbiResult>) -> (r: bool)
    ensures
        r == (abi_result.value().failure() is Some),
{
    abi_result.runtime().is_err()
}

/// The message of the result behind the handle, encoded in a new buffer.
#[allow(non_snake_case)]
pub fn abi_result__message(abi_result: &Abi<AbiResult>) -> (r: Abi<AbiBuffer>)
    ensures
        r.value().contents() == encode_utf8(message_text(abi_result.value().failure())),
{
    let message = abi_result.runtime().message();
    Abi::into_abi(AbiBuffer::from_string(message))
}

/// Releases the result behind the handle.
#[allow(non_snake_case)]
pub fn abi_result__drop(abi_result: Abi<AbiResult>) {
    let _ = abi_result.into_runtime();
}

/// A function of the host, by its address there; address zero is no
/// function.
pub struct AbiFunction(usize);

impl AbiFunction {
    /// The function at `address`.
    pub fn new(address: usize) -> (r: AbiFunction)
        ensures
            r.address_of() == address,
    {
        AbiFunction(address)
    }

    /// The address of the function.
    pub closed spec fn address_of(&self) -> usize {
        self.0
    }

    /// The address of the function, to call it through.
    pub fn address(&self) -> (r: usize)
        ensures
            r == self.address_of(),
    {
        self.0
    }

    /// Whether this is no function at all.
    pub fn is_null(&self) -> (r: bool)
        ensures
            r == (self.address_of() == 0),
    {
        self.0 == 0
    }
}

/// The layout of a layout element's children.
#[derive(PartialEq, Eq, Structural, Clone, Copy, Debug)]
pub enum Layout {
    Row,
    Column,
}

impl Layout {
    /// The layout of an element that sets none.
    pub fn default() -> (r: Layout)
        ensures
            r == Layout::Row,
    {
        Layout::Row
    }

    /// The number the host uses for the layout.
    pub fn code(&self) -> (r: u32)
        ensures
            r == (if *self == Layout::Row { 0u32 } else { 1u32 }),
    {
        match self {
            Layout::Row => 0,
            Layout::Column => 1,
        }
    }
}

/// Reading a failed result gives back the message it failed with; reading
/// a successful one gives an empty message.
pub proof fn lemma_result_reads_back(m: Seq<char>)
    ensures
        message_text(Some(m)) == m,
        message_text(None) == Seq::<char>::empty(),
{
}

/// The standard base64 encoding of some bytes, as `base64::encode` writes it.
pub uninterp spec fn base64_of(bytes: Seq<u8>) -> Seq<char>;

/// Encodes bytes in base64.
///
/// Trusted: `base64::encode` (standard alphabet, with padding) is a
/// function of the bytes alone; its result is named `base64_of`.
#[verifier::external_body]
fn base64_encode(bytes: &Vec<u8>) -> (r: String)
    ensures
        r@ == base64_of(bytes@),
{
    base64::encode(bytes.as_slice())
}

/// The JavaScript module that loads the runtime compiled to WebAssembly,
/// with the compiled bytes `wasm` embedded as a base64 data URL.
pub open spec fn loader_text(wasm: Seq<u8>) -> Seq<char> {
    "const wasmEncoded = \"data:application/wasm;base64,"@ + base64_of(wasm)
        + "\";\n\t\texport const loadRuntime = imports => WebAssembly.instantiateStreaming(fetch(wasmEncoded), imports);\n"@
}

/// Writes the JavaScript module that loads the runtime from `wasm`.
pub fn runtime_loader(wasm: &Vec<u8>) -> (r: String)
    ensures
        r@ == loader_text(wasm@),
{
    let mut out = "const wasmEncoded = \"data:application/wasm;base64,".to_owned();
    out.append(base64_encode(wasm).as_str());
    out.append("\";\n\t\texport const loadRuntime = imports => WebAssembly.instantiateStreaming(fetch(wasmEncoded), imports);\n");
    out
}

} // verus!
