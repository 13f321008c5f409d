//! The encoder: the safe-byte scan, the escape emitter, and the owned and
//! appended output modes.

use vstd::prelude::*;
use vstd::slice::slice_subrange;
use vstd::string::StringExecFns;
use vstd::utf8::decode_utf8;
use vstd::utf8::encode_utf8;
use vstd::utf8::valid_utf8;

use crate::model::all_safe;
use crate::model::ascii_chars_of;
use crate::model::default_safe;
use crate::model::encoded_byte;
use crate::model::encoded_bytes;
use crate::model::hex_digit;
use crate::model::lemma_all_safe_identity;
use crate::model::lemma_ascii_chars_roundtrip;
use crate::model::lemma_ascii_decode;
use crate::model::lemma_encoded_extend_safe_run;
use crate::model::lemma_encoded_snoc;
use crate::model::lemma_output_ascii;
use crate::model::lemma_safe_byte_ascii;
use crate::model::safe_byte;
use crate::sink::ByteSink;

verus! {

/// Escaped text: a borrowed view of the input when nothing needed escaping,
/// else a freshly built string.
pub enum Escaped<'a> {
    Borrowed(&'a str),
    Owned(String),
}

impl<'a> View for Escaped<'a> {
    type V = Seq<char>;

    open spec fn view(&self) -> Seq<char> {
        match self {
            Escaped::Borrowed(s) => s@,
            Escaped::Owned(s) => s@,
        }
    }
}

impl<'a> Escaped<'a> {
    /// The escaped text as a borrowed string slice.
    pub fn as_str(&self) -> (r: &str)
        ensures
            r@ == self@,
    {
        match self {
            Escaped::Borrowed(s) => *s,
            Escaped::Owned(s) => s.as_str(),
        }
    }

    /// The escaped text as an owned string; only the borrowed case copies.
    pub fn into_string(self) -> (r: String)
        ensures
            r@ == self@,
    {
        match self {
            Escaped::Borrowed(s) => s.to_owned(),
            Escaped::Owned(s) => s,
        }
    }

    /// Whether the text is a borrowed view of the input (the zero-copy case).
    pub fn is_borrowed(&self) -> (r: bool)
        ensures
            r == (self is Borrowed),
    {
        match self {
            Escaped::Borrowed(_) => true,
            Escaped::Owned(_) => false,
        }
    }
}

/// Relies on core::str::from_utf8: bytes that form a valid UTF-8 encoding
/// view as exactly the characters they encode, without allocation.
#[verifier::external_body]
fn bytes_as_str(bytes: &[u8]) -> (r: &str)
    requires
        valid_utf8(bytes@),
    ensures
        r@ == decode_utf8(bytes@),
{
    match core::str::from_utf8(bytes) {
        Ok(s) => s,
        Err(_) => "",
    }
}

/// Whether a byte is in the default safe set.
fn ascii_checker(b: u8) -> (r: bool)
    ensures
        r == default_safe(b),
{
    (0x30 <= b && b <= 0x39) || (0x41 <= b && b <= 0x5a) || (0x61 <= b && b <= 0x7a) || b == 0x2d
        || b == 0x2e || b == 0x5f || b == 0x7e
}

/// Whether a byte passes through unescaped under the exclusion list.
fn byte_is_safe(b: u8, exclude: &[char]) -> (r: bool)
    ensures
        r == safe_byte(b, exclude@),
{
    if ascii_checker(b) {
        true
    } else if b < 0x80 {
        let c = b as char;
        let mut k: usize = 0;
        while k < exclude.len()
            invariant
                k <= exclude@.len(),
                b < 0x80,
                c == b as char,
                forall|m: int| 0 <= m < k ==> exclude@[m] != b as char,
            decreases exclude@.len() - k,
        {
            if exclude[k] == c {
                assert(exclude@.contains(b as char));
                return true;
            }
            k += 1;
        }
        assert(!exclude@.contains(b as char));
        false
    } else {
        false
    }
}

/// Scans forward from `from` and returns the end of the run of safe bytes:
/// the first position holding an unsafe byte, or the input's length.
fn scan_safe_run(data: &[u8], from: usize, exclude: &[char]) -> (end: usize)
    requires
        from <= data@.len(),
    ensures
        from <= end <= data@.len(),
        forall|k: int| from <= k < end ==> safe_byte(data@[k], exclude@),
        end < data@.len() ==> !safe_byte(data@[end as int], exclude@),
{
    let mut end = from;
    while end < data.len()
        invariant
            from <= end <= data@.len(),
            forall|k: int| from <= k < end ==> safe_byte(data@[k], exclude@),
        decreases data@.len() - end,
    {
        if !byte_is_safe(data[end], exclude) {
            return end;
        }
        end += 1;
    }
    end
}

/// The ASCII code of the uppercase hexadecimal digit of a value below 16.
fn to_hex_digit(digit: u8) -> (r: u8)
    requires
        digit < 16,
    ensures
        r == hex_digit(digit),
{
    if digit < 10 {
        0x30 + digit
    } else {
        0x41 + (digit - 10)
    }
}

/// Appends the encoding of `data` to `out`: each safe byte itself, three
/// bytes `%XX` for every other byte.
fn append_encoded_bytes(data: &[u8], exclude: &[char], out: &mut Vec<u8>)
    ensures
        final(out)@ == old(out)@ + encoded_bytes(data@, exclude@),
{
    let ghost orig = out@;
    let mut i: usize = 0;
    proof {
        assert(data@.take(0) =~= Seq::<u8>::empty());
        assert(orig + encoded_bytes(data@.take(0), exclude@) =~= orig);
    }
    while i < data.len()
        invariant
            i <= data@.len(),
            out@ == orig + encoded_bytes(data@.take(i as int), exclude@),
        decreases data@.len() - i,
    {
        let b = data[i];
        proof {
            lemma_encoded_snoc(data@, exclude@, i as int);
        }
        if byte_is_safe(b, exclude) {
            out.push(b);
            proof {
                assert(encoded_byte(b, exclude@) =~= seq![b]);
                assert(out@ =~= orig + encoded_bytes(data@.take(i + 1), exclude@));
            }
        } else {
            out.push(0x25);
            out.push(to_hex_digit(b / 16));
            out.push(to_hex_digit(b % 16));
            proof {
                assert(encoded_byte(b, exclude@) =~= seq![0x25u8, hex_digit(b / 16), hex_digit(b % 16)]);
                assert(out@ =~= orig + encoded_bytes(data@.take(i + 1), exclude@));
            }
        }
        i += 1;
    }
    proof {
        assert(data@.take(data@.len() as int) =~= data@);
    }
}

/// The shared scan-and-escape routine behind every owned-result entry point:
/// scans the input once, hands back a borrowed view when every byte was safe,
/// and otherwise builds the escaped output in a fresh buffer.
fn encode_binary_internal<'a>(data: &'a [u8], exclude: &[char]) -> (r: Escaped<'a>)
    ensures
        r@ == ascii_chars_of(encoded_bytes(data@, exclude@)),
        encode_utf8(r@) == encoded_bytes(data@, exclude@),
        (r is Borrowed) <==> all_safe(data@, exclude@),
        all_safe(data@, exclude@) ==> r@ == ascii_chars_of(data@),
{
    proof {
        lemma_output_ascii(data@, exclude@);
        lemma_ascii_chars_roundtrip(encoded_bytes(data@, exclude@));
    }
    let safe_len = scan_safe_run(data, 0, exclude);
    if safe_len == data.len() {
        // The zero-copy fast path: nothing needed escaping, so the input is
        // its own encoding and can be handed back as text without allocating.
        proof {
            assert forall|i: int| 0 <= i < data@.len() implies #[trigger] data@[i] < 0x80 by {
                lemma_safe_byte_ascii(data@[i], exclude@);
            }
            lemma_ascii_decode(data@);
            lemma_all_safe_identity(data@, exclude@);
        }
        Escaped::Borrowed(bytes_as_str(data))
    } else {
        // Reserve near the input length, rounded up a little, as a heuristic.
        let mut out: Vec<u8> = Vec::with_capacity(data.len() | 15);
        append_encoded_bytes(data, exclude, &mut out);
        proof {
            lemma_ascii_decode(out@);
        }
        let text = bytes_as_str(out.as_slice());
        Escaped::Owned(text.to_owned())
    }
}

/// Wrapper value that defers encoding: it holds a borrowed view of the
/// input's bytes and exposes the owned, streaming and appending output
/// modes, all over the default safe set.
#[derive(Clone, Copy, Debug, PartialEq, Eq, Hash)]
pub struct Encoded<'a>(pub &'a [u8]);

impl<'a> View for Encoded<'a> {
    type V = Seq<u8>;

    open spec fn view(&self) -> Seq<u8> {
        self.0@
    }
}

impl<'a> Encoded<'a> {
    /// Long way of writing `Encoded(data)`.
    pub fn new(data: &'a [u8]) -> (r: Self)
        ensures
            r@ == data@,
    {
        Encoded(data)
    }

    /// Same as [`Encoded::new`], but takes text and hints the borrowed type.
    pub fn str(data: &'a str) -> (r: Self)
        ensures
            r@ == encode_utf8(data@),
    {
        Encoded(data.as_bytes())
    }

    /// Performs the encoding, handing back a borrowed view of the input when
    /// no byte needed escaping.
    pub fn to_str(&self) -> (r: Escaped<'a>)
        ensures
            r@ == ascii_chars_of(encoded_bytes(self@, Seq::<char>::empty())),
            encode_utf8(r@) == encoded_bytes(self@, Seq::<char>::empty()),
            (r is Borrowed) <==> all_safe(self@, Seq::<char>::empty()),
            all_safe(self@, Seq::<char>::empty()) ==> r@ == ascii_chars_of(self@),
    {
        let none: Vec<char> = Vec::new();
        encode_binary_internal(self.0, none.as_slice())
    }

    /// Performs the encoding into a fresh owned string.
    pub fn to_string(&self) -> (r: String)
        ensures
            r@ == ascii_chars_of(encoded_bytes(self@, Seq::<char>::empty())),
    {
        self.to_str().into_string()
    }

    /// Streams the encoding to a sink, chunk by chunk: every safe run as one
    /// chunk and every `%XX` escape as one three-byte chunk.  A failed write
    /// aborts the encoding and hands the sink's error back.
    pub fn write<S: ByteSink>(&self, sink: &mut S) -> (r: Result<(), S::Error>)
        ensures
            r is Ok ==> final(sink).sunk() == old(sink).sunk() + encoded_bytes(
                self@,
                Seq::<char>::empty(),
            ),
            old(sink).infallible() ==> r is Ok,
            self@.len() == 0 ==> r is Ok,
    {
        let data = self.0;
        let none: Vec<char> = Vec::new();
        let exclude = none.as_slice();
        let ghost start = sink.sunk();
        let mut i: usize = 0;
        proof {
            assert(data@.take(0) =~= Seq::<u8>::empty());
            assert(start + encoded_bytes(data@.take(0), exclude@) =~= start);
        }
        while i < data.len()
            invariant
                i <= data@.len(),
                data@ == self@,
                exclude@ == Seq::<char>::empty(),
                sink.sunk() == start + encoded_bytes(data@.take(i as int), exclude@),
                old(sink).infallible() ==> sink.infallible(),
            decreases data@.len() - i,
        {
            let j = scan_safe_run(data, i, exclude);
            proof {
                lemma_encoded_extend_safe_run(data@, exclude@, i as int, j as int);
            }
            if j > i {
                let chunk = slice_subrange(data, i, j);
                match sink.write_chunk(chunk) {
                    Ok(_) => {
                        proof {
                            assert(sink.sunk() =~= start + encoded_bytes(
                                data@.take(j as int),
                                exclude@,
                            ));
                        }
                    },
                    Err(e) => {
                        return Err(e);
                    },
                }
            }
            if j < data.len() {
                let b = data[j];
                let mut esc: Vec<u8> = Vec::with_capacity(3);
                esc.push(0x25);
                esc.push(to_hex_digit(b / 16));
                esc.push(to_hex_digit(b % 16));
                proof {
                    lemma_encoded_snoc(data@, exclude@, j as int);
                    assert(encoded_byte(b, exclude@) =~= esc@);
                }
                match sink.write_chunk(esc.as_slice()) {
                    Ok(_) => {
                        proof {
                            assert(sink.sunk() =~= start + encoded_bytes(
                                data@.take(j + 1),
                                exclude@,
                            ));
                        }
                    },
                    Err(e) => {
                        return Err(e);
                    },
                }
                i = j + 1;
            } else {
                i = j;
            }
        }
        proof {
            assert(data@.take(data@.len() as int) =~= data@);
        }
        Ok(())
    }

    /// Appends the encoding in place to a caller-owned string.
    pub fn append_to(&self, string: &mut String)
        ensures
            final(string)@ == old(string)@ + ascii_chars_of(
                encoded_bytes(self@, Seq::<char>::empty()),
            ),
    {
        let none: Vec<char> = Vec::new();
        let mut out: Vec<u8> = Vec::new();
        append_encoded_bytes(self.0, none.as_slice(), &mut out);
        proof {
            lemma_output_ascii(self@, none@);
            lemma_ascii_decode(out@);
        }
        string.append(bytes_as_str(out.as_slice()));
    }
}

/// Safe input reads back as itself: when every
/// byte of a string's UTF-8 encoding is safe, those bytes are the string's
/// characters, one per byte.
proof fn lemma_safe_input_reads_back(text: Seq<char>, exclude: Seq<char>)
    requires
        all_safe(encode_utf8(text), exclude),
    ensures
        ascii_chars_of(encode_utf8(text)) == text,
{
    let bytes = encode_utf8(text);
    assert forall|i: int| 0 <= i < bytes.len() implies #[trigger] bytes[i] < 0x80 by {
        lemma_safe_byte_ascii(bytes[i], exclude);
    }
    lemma_ascii_decode(bytes);
    vstd::utf8::encode_utf8_decode_utf8(text);
}

/// Percent-encodes every byte except ASCII alphanumerics and `- . _ ~`.
/// Returns a borrowed view of the input when no byte needed escaping.
pub fn encode<'a>(data: &'a str) -> (r: Escaped<'a>)
    ensures
        r@ == ascii_chars_of(encoded_bytes(encode_utf8(data@), Seq::<char>::empty())),
        encode_utf8(r@) == encoded_bytes(encode_utf8(data@), Seq::<char>::empty()),
        (r is Borrowed) <==> all_safe(encode_utf8(data@), Seq::<char>::empty()),
        all_safe(encode_utf8(data@), Seq::<char>::empty()) ==> r@ == data@,
{
    proof {
        if all_safe(encode_utf8(data@), Seq::<char>::empty()) {
            lemma_safe_input_reads_back(data@, Seq::<char>::empty());
        }
    }
    let none: Vec<char> = Vec::new();
    encode_binary_internal(data.as_bytes(), none.as_slice())
}

/// The same as [`encode`], but the characters of `exclude` are additionally
/// passed through unescaped (only ASCII characters can widen the safe set:
/// the output stays ASCII).
pub fn encode_exclude<'a>(data: &'a str, exclude: &'a [char]) -> (r: Escaped<'a>)
    ensures
        r@ == ascii_chars_of(encoded_bytes(encode_utf8(data@), exclude@)),
        encode_utf8(r@) == encoded_bytes(encode_utf8(data@), exclude@),
        (r is Borrowed) <==> all_safe(encode_utf8(data@), exclude@),
        all_safe(encode_utf8(data@), exclude@) ==> r@ == data@,
{
    proof {
        if all_safe(encode_utf8(data@), exclude@) {
            lemma_safe_input_reads_back(data@, exclude@);
        }
    }
    encode_binary_internal(data.as_bytes(), exclude)
}

/// Percent-encodes raw bytes, with no assumption that they are valid text.
pub fn encode_binary<'a>(data: &'a [u8]) -> (r: Escaped<'a>)
    ensures
        r@ == ascii_chars_of(encoded_bytes(data@, Seq::<char>::empty())),
        encode_utf8(r@) == encoded_bytes(data@, Seq::<char>::empty()),
        (r is Borrowed) <==> all_safe(data@, Seq::<char>::empty()),
        all_safe(data@, Seq::<char>::empty()) ==> r@ == ascii_chars_of(data@),
{
    let none: Vec<char> = Vec::new();
    encode_binary_internal(data, none.as_slice())
}

} // verus!
