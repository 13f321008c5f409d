//! The mathematical model of percent-encoding: which bytes pass through
//! unescaped, what the escape of a single byte is, and what the encoding of a
//! whole byte sequence is.

use vstd::prelude::*;
use vstd::utf8::decode_utf8;
use vstd::utf8::valid_utf8;
use vstd::utf8::is_leading_byte_width_1;
use vstd::utf8::partial_valid_utf8;
use vstd::utf8::partial_valid_utf8_extend_ascii_block;
use vstd::utf8::pop_first_scalar;
use vstd::utf8::length_of_first_scalar;
use vstd::utf8::decode_first_scalar;
use vstd::utf8::encode_utf8;
use vstd::utf8::is_ascii_chars;
use vstd::utf8::is_ascii_chars_encode_utf8;

verus! {

/// A byte the default policy passes through unescaped: ASCII letters,
/// digits, and the four characters `- . _ ~`.
pub open spec fn default_safe(b: u8) -> bool {
    ||| 0x30 <= b <= 0x39  // '0' ..= '9'
    ||| 0x41 <= b <= 0x5a  // 'A' ..= 'Z'
    ||| 0x61 <= b <= 0x7a  // 'a' ..= 'z'
    ||| b == 0x2d  // '-'
    ||| b == 0x2e  // '.'
    ||| b == 0x5f  // '_'
    ||| b == 0x7e  // '~'
}

/// A byte that passes through unescaped when the characters of `exclude` are
/// additionally treated as safe.  Only ASCII bytes can be widened into the
/// safe set: the output must stay valid ASCII.
pub open spec fn safe_byte(b: u8, exclude: Seq<char>) -> bool {
    default_safe(b) || (b < 0x80 && exclude.contains(b as char))
}

/// Every byte of `data` passes through unescaped.
pub open spec fn all_safe(data: Seq<u8>, exclude: Seq<char>) -> bool {
    forall|i: int| 0 <= i < data.len() ==> safe_byte(data[i], exclude)
}

/// The ASCII code of the uppercase hexadecimal digit for a value below 16.
pub open spec fn hex_digit(v: u8) -> u8
    recommends
        v < 16,
{
    if v < 10 {
        (0x30 + v) as u8
    } else {
        (0x41 + (v - 10)) as u8
    }
}

/// The output bytes produced for one input byte: the byte itself when it is
/// safe, else `%` followed by the two uppercase hex digits of its value.
pub open spec fn encoded_byte(b: u8, exclude: Seq<char>) -> Seq<u8> {
    if safe_byte(b, exclude) {
        seq![b]
    } else {
        seq![0x25, hex_digit(b / 16), hex_digit(b % 16)]
    }
}

/// The percent-encoding of a whole byte sequence, byte by byte from the left.
pub open spec fn encoded_bytes(data: Seq<u8>, exclude: Seq<char>) -> Seq<u8>
    decreases data.len(),
{
    if data.len() == 0 {
        seq![]
    } else {
        encoded_byte(data[0], exclude) + encoded_bytes(data.drop_first(), exclude)
    }
}

/// The characters of an ASCII byte sequence, one character per byte.
pub open spec fn ascii_chars_of(bytes: Seq<u8>) -> Seq<char> {
    bytes.map_values(|b: u8| b as char)
}

/// An uppercase hexadecimal digit: `0` to `9` or `A` to `F`.
pub open spec fn is_upper_hex_digit(b: u8) -> bool {
    (0x30 <= b <= 0x39) || (0x41 <= b <= 0x46)
}

/// The value of an uppercase hexadecimal digit.
pub open spec fn hex_value(b: u8) -> u8
    recommends
        is_upper_hex_digit(b),
{
    if b <= 0x39 {
        (b - 0x30) as u8
    } else {
        (b - 0x41 + 10) as u8
    }
}

/// A reference percent-decoder: `%` followed by two uppercase hexadecimal
/// digits becomes the byte they spell; every other byte passes through.
pub open spec fn percent_decoded(s: Seq<u8>) -> Seq<u8>
    decreases s.len(),
{
    if s.len() == 0 {
        seq![]
    } else if s[0] == 0x25 && s.len() >= 3 && is_upper_hex_digit(s[1]) && is_upper_hex_digit(s[2]) {
        seq![(hex_value(s[1]) * 16 + hex_value(s[2])) as u8] + percent_decoded(s.skip(3))
    } else {
        seq![s[0]] + percent_decoded(s.skip(1))
    }
}

/// Every byte the encoder emits is ASCII, whatever the exclusion list says:
/// the safe bytes are ASCII by construction, and so are `%` and the
/// hexadecimal digits.
pub proof fn lemma_output_ascii(data: Seq<u8>, exclude: Seq<char>)
    ensures
        forall|i: int|
            0 <= i < encoded_bytes(data, exclude).len() ==> #[trigger] encoded_bytes(
                data,
                exclude,
            )[i] < 0x80,
    decreases data.len(),
{
    if data.len() > 0 {
        lemma_output_ascii(data.drop_first(), exclude);
        let eb = encoded_byte(data[0], exclude);
        let rest = encoded_bytes(data.drop_first(), exclude);
        assert(forall|i: int| 0 <= i < eb.len() ==> #[trigger] eb[i] < 0x80);
        assert forall|i: int|
            0 <= i < encoded_bytes(data, exclude).len() implies #[trigger] encoded_bytes(
            data,
            exclude,
        )[i] < 0x80 by {
            if i < eb.len() {
                assert(encoded_bytes(data, exclude)[i] == eb[i]);
            } else {
                assert(encoded_bytes(data, exclude)[i] == rest[i - eb.len()]);
            }
        }
    }
}

/// The encoder's output is valid UTF-8: it is ASCII throughout.
pub proof fn lemma_output_valid_utf8(data: Seq<u8>, exclude: Seq<char>)
    ensures
        valid_utf8(encoded_bytes(data, exclude)),
{
    let e = encoded_bytes(data, exclude);
    lemma_output_ascii(data, exclude);
    lemma_ascii_valid_utf8(e);
}

/// An all-ASCII byte sequence is valid UTF-8.
pub proof fn lemma_ascii_valid_utf8(bytes: Seq<u8>)
    requires
        forall|i: int| 0 <= i < bytes.len() ==> bytes[i] < 0x80,
    ensures
        valid_utf8(bytes),
{
    assert(bytes.subrange(0, 0) =~= Seq::<u8>::empty());
    assert(valid_utf8(bytes.subrange(0, 0)));
    assert(partial_valid_utf8(bytes, 0));
    assert forall|i: int| 0 <= 0 <= i < bytes.len() <= bytes.len() implies #[trigger] is_leading_byte_width_1(
        bytes[i],
    ) by {}
    partial_valid_utf8_extend_ascii_block(bytes, 0, bytes.len() as int);
    assert(bytes.subrange(0, bytes.len() as int) =~= bytes);
}

/// Decoding an all-ASCII byte sequence yields one character per byte.
pub proof fn lemma_ascii_decode(bytes: Seq<u8>)
    requires
        forall|i: int| 0 <= i < bytes.len() ==> bytes[i] < 0x80,
    ensures
        valid_utf8(bytes),
        decode_utf8(bytes) == ascii_chars_of(bytes),
    decreases bytes.len(),
{
    lemma_ascii_valid_utf8(bytes);
    if bytes.len() == 0 {
        assert(decode_utf8(bytes) =~= ascii_chars_of(bytes));
    } else {
        let b = bytes[0];
        assert(is_leading_byte_width_1(b));
        assert(b & 0x7f == b) by (bit_vector)
            requires
                b < 0x80,
        ;
        assert(length_of_first_scalar(bytes) == 1);
        assert(pop_first_scalar(bytes) =~= bytes.drop_first());
        assert forall|i: int| 0 <= i < bytes.drop_first().len() implies #[trigger] bytes.drop_first()[i]
            < 0x80 by {
            assert(bytes.drop_first()[i] == bytes[i + 1]);
        }
        lemma_ascii_decode(bytes.drop_first());
        assert(decode_first_scalar(bytes) == b as u32);
        assert((b as u32) as char == b as char);
        assert(decode_utf8(bytes) =~= ascii_chars_of(bytes));
    }
}

/// The encoding of a concatenation is the concatenation of the encodings.
pub proof fn lemma_encoded_concat(a: Seq<u8>, b: Seq<u8>, exclude: Seq<char>)
    ensures
        encoded_bytes(a + b, exclude) == encoded_bytes(a, exclude) + encoded_bytes(b, exclude),
    decreases a.len(),
{
    if a.len() == 0 {
        assert(a + b =~= b);
        assert(encoded_bytes(a, exclude) + encoded_bytes(b, exclude) =~= encoded_bytes(b, exclude));
    } else {
        assert((a + b).drop_first() =~= a.drop_first() + b);
        lemma_encoded_concat(a.drop_first(), b, exclude);
        assert((a + b)[0] == a[0]);
        assert(encoded_bytes(a + b, exclude) =~= encoded_bytes(a, exclude) + encoded_bytes(
            b,
            exclude,
        ));
    }
}

/// When every byte of the input is safe, the encoding is the input itself.
pub proof fn lemma_all_safe_identity(data: Seq<u8>, exclude: Seq<char>)
    requires
        all_safe(data, exclude),
    ensures
        encoded_bytes(data, exclude) == data,
    decreases data.len(),
{
    if data.len() == 0 {
        assert(encoded_bytes(data, exclude) =~= data);
    } else {
        assert forall|i: int| 0 <= i < data.drop_first().len() implies safe_byte(
            #[trigger] data.drop_first()[i],
            exclude,
        ) by {
            assert(data.drop_first()[i] == data[i + 1]);
        }
        lemma_all_safe_identity(data.drop_first(), exclude);
        assert(safe_byte(data[0], exclude));
        assert(encoded_bytes(data, exclude) =~= data);
    }
}

/// The encoding of a sequence splits at any input position: what comes out is
/// the encoding of the bytes before it, the escape of the byte at it, and the
/// encoding of the bytes after it.
pub proof fn lemma_encoded_split_at(data: Seq<u8>, exclude: Seq<char>, i: int)
    requires
        0 <= i < data.len(),
    ensures
        encoded_bytes(data, exclude) == encoded_bytes(data.take(i), exclude) + encoded_byte(
            data[i],
            exclude,
        ) + encoded_bytes(data.skip(i + 1), exclude),
{
    let one = seq![data[i]];
    assert(data =~= data.take(i) + (one + data.skip(i + 1)));
    lemma_encoded_concat(data.take(i), one + data.skip(i + 1), exclude);
    lemma_encoded_concat(one, data.skip(i + 1), exclude);
    assert(one.drop_first() =~= Seq::<u8>::empty());
    assert(encoded_bytes(one.drop_first(), exclude) =~= Seq::<u8>::empty());
    assert(one[0] == data[i]);
    assert(encoded_bytes(one, exclude) =~= encoded_byte(data[i], exclude));
}

/// A safe byte is ASCII: the output never holds a byte at or above 0x80.
pub proof fn lemma_safe_byte_ascii(b: u8, exclude: Seq<char>)
    requires
        safe_byte(b, exclude),
    ensures
        b < 0x80,
{
}

/// Extending the encoded prefix by one input byte appends that byte's escape.
pub proof fn lemma_encoded_snoc(data: Seq<u8>, exclude: Seq<char>, i: int)
    requires
        0 <= i < data.len(),
    ensures
        encoded_bytes(data.take(i + 1), exclude) == encoded_bytes(data.take(i), exclude)
            + encoded_byte(data[i], exclude),
{
    lemma_encoded_split_at(data.take(i + 1), exclude, i);
    assert(data.take(i + 1).take(i) =~= data.take(i));
    assert(data.take(i + 1).skip(i + 1) =~= Seq::<u8>::empty());
    assert(encoded_bytes(data.take(i + 1), exclude) =~= encoded_bytes(data.take(i), exclude)
        + encoded_byte(data[i], exclude));
}

/// Extending the encoded prefix by a run of safe input bytes appends the run
/// itself.
pub proof fn lemma_encoded_extend_safe_run(data: Seq<u8>, exclude: Seq<char>, i: int, j: int)
    requires
        0 <= i <= j <= data.len(),
        forall|k: int| i <= k < j ==> safe_byte(data[k], exclude),
    ensures
        encoded_bytes(data.take(j), exclude) == encoded_bytes(data.take(i), exclude)
            + data.subrange(i, j),
{
    assert(data.take(j) =~= data.take(i) + data.subrange(i, j));
    lemma_encoded_concat(data.take(i), data.subrange(i, j), exclude);
    assert forall|k: int| 0 <= k < data.subrange(i, j).len() implies safe_byte(
        #[trigger] data.subrange(i, j)[k],
        exclude,
    ) by {
        assert(data.subrange(i, j)[k] == data[i + k]);
    }
    lemma_all_safe_identity(data.subrange(i, j), exclude);
}

/// Turning ASCII bytes into characters and encoding them as UTF-8 gives the
/// bytes back; the characters are all ASCII.
pub proof fn lemma_ascii_chars_roundtrip(bytes: Seq<u8>)
    requires
        forall|i: int| 0 <= i < bytes.len() ==> bytes[i] < 0x80,
    ensures
        is_ascii_chars(ascii_chars_of(bytes)),
        encode_utf8(ascii_chars_of(bytes)) == bytes,
{
    let chars = ascii_chars_of(bytes);
    assert forall|i: int| 0 <= i < chars.len() implies '\0' <= #[trigger] chars[i] <= '\u{7f}' by {
        assert(chars[i] == bytes[i] as char);
    }
    is_ascii_chars_encode_utf8(chars);
    assert forall|i: int| 0 <= i < chars.len() implies #[trigger] encode_utf8(chars)[i]
        == bytes[i] by {
        assert(chars[i] as u8 == encode_utf8(chars)[i]);
        assert(chars[i] == bytes[i] as char);
        assert((bytes[i] as char) as u8 == bytes[i]);
    }
    assert(encode_utf8(chars) =~= bytes);
}

/// The hexadecimal digit of a value below 16 is an uppercase hexadecimal
/// digit, and taking its value gives the same number back.
pub proof fn lemma_hex_digit_value(v: u8)
    requires
        v < 16,
    ensures
        is_upper_hex_digit(hex_digit(v)),
        hex_value(hex_digit(v)) == v,
{
}

/// Shape of the output under the default safe set (with any exclusion list
/// that does not widen `%` into the safe set): every output byte is safe or a
/// `%`, and every `%` is followed by exactly two uppercase hexadecimal
/// digits.
pub proof fn lemma_output_shape(data: Seq<u8>, exclude: Seq<char>)
    requires
        !exclude.contains('%'),
    ensures
        forall|i: int|
            0 <= i < encoded_bytes(data, exclude).len() ==> safe_byte(
                #[trigger] encoded_bytes(data, exclude)[i],
                exclude,
            ) || encoded_bytes(data, exclude)[i] == 0x25,
        forall|i: int|
            0 <= i < encoded_bytes(data, exclude).len() && #[trigger] encoded_bytes(
                data,
                exclude,
            )[i] == 0x25 ==> i + 2 < encoded_bytes(data, exclude).len() && is_upper_hex_digit(
                encoded_bytes(data, exclude)[i + 1],
            ) && is_upper_hex_digit(encoded_bytes(data, exclude)[i + 2]),
    decreases data.len(),
{
    if data.len() > 0 {
        lemma_output_shape(data.drop_first(), exclude);
        let b = data[0];
        let eb = encoded_byte(b, exclude);
        let rest = encoded_bytes(data.drop_first(), exclude);
        let e = encoded_bytes(data, exclude);
        if !safe_byte(b, exclude) {
            lemma_hex_digit_value(b / 16);
            lemma_hex_digit_value(b % 16);
        } else {
            // A safe byte is never `%`: the default set lacks it and the
            // exclusion list does not hold the character `%`.
            assert((0x25 as u8) as char == '%');
            assert(eb[0] != 0x25);
        }
        assert forall|i: int| 0 <= i < e.len() implies safe_byte(#[trigger] e[i], exclude) || e[i]
            == 0x25 by {
            if i < eb.len() {
                assert(e[i] == eb[i]);
            } else {
                assert(e[i] == rest[i - eb.len()]);
            }
        }
        assert forall|i: int| 0 <= i < e.len() && #[trigger] e[i] == 0x25 implies i + 2 < e.len()
            && is_upper_hex_digit(e[i + 1]) && is_upper_hex_digit(e[i + 2]) by {
            if i < eb.len() {
                assert(i == 0 && !safe_byte(b, exclude));
                assert(e[1] == eb[1] && e[2] == eb[2]);
            } else {
                let j = i - eb.len();
                assert(e[i] == rest[j]);
                assert(j + 2 < rest.len() && is_upper_hex_digit(rest[j + 1]) && is_upper_hex_digit(
                    rest[j + 2],
                ));
                assert(e[i + 1] == rest[j + 1] && e[i + 2] == rest[j + 2]);
            }
        }
    }
}

/// Round trip: running the reference percent-decoder over the encoder's
/// output gives the input bytes back, for any exclusion list that does not
/// widen `%` into the safe set.
pub proof fn lemma_round_trip(data: Seq<u8>, exclude: Seq<char>)
    requires
        !exclude.contains('%'),
    ensures
        percent_decoded(encoded_bytes(data, exclude)) == data,
    decreases data.len(),
{
    let e = encoded_bytes(data, exclude);
    if data.len() == 0 {
        assert(percent_decoded(e) =~= data);
    } else {
        let b = data[0];
        let eb = encoded_byte(b, exclude);
        let rest = encoded_bytes(data.drop_first(), exclude);
        lemma_round_trip(data.drop_first(), exclude);
        if safe_byte(b, exclude) {
            assert((0x25 as u8) as char == '%');
            assert(e[0] == b && b != 0x25);
            assert(e.skip(1) =~= rest);
            assert(percent_decoded(e) =~= data);
        } else {
            lemma_hex_digit_value(b / 16);
            lemma_hex_digit_value(b % 16);
            assert(e[0] == 0x25 && e[1] == hex_digit(b / 16) && e[2] == hex_digit(b % 16));
            assert((b / 16) * 16 + b % 16 == b);
            assert(e.skip(3) =~= rest);
            assert(percent_decoded(e) =~= data);
        }
    }
}

/// The output is never shorter than the input, and is longer as soon as one
/// input byte is unsafe.
pub proof fn lemma_encoded_len(data: Seq<u8>, exclude: Seq<char>)
    ensures
        encoded_bytes(data, exclude).len() >= data.len(),
        !all_safe(data, exclude) ==> encoded_bytes(data, exclude).len() > data.len(),
    decreases data.len(),
{
    if data.len() > 0 {
        lemma_encoded_len(data.drop_first(), exclude);
        if !all_safe(data, exclude) && safe_byte(data[0], exclude) {
            let i = choose|i: int| 0 <= i < data.len() && !safe_byte(data[i], exclude);
            assert(data.drop_first()[i - 1] == data[i]);
            assert(!all_safe(data.drop_first(), exclude));
        }
    }
}

/// An unsafe byte anywhere in the input puts a `%` into the output.
pub proof fn lemma_unsafe_byte_gives_percent(data: Seq<u8>, exclude: Seq<char>, i: int)
    requires
        0 <= i < data.len(),
        !safe_byte(data[i], exclude),
    ensures
        encoded_bytes(data, exclude).contains(0x25),
{
    lemma_encoded_split_at(data, exclude, i);
    let pre = encoded_bytes(data.take(i), exclude);
    let e = encoded_bytes(data, exclude);
    assert(e[pre.len() as int] == encoded_byte(data[i], exclude)[0]);
}

/// Encoding is not idempotent: as soon as the input holds a byte outside
/// the default safe set, encoding the encoder's output changes it again.
pub proof fn lemma_not_idempotent(data: Seq<u8>)
    requires
        exists|i: int| 0 <= i < data.len() && !default_safe(data[i]),
    ensures
        encoded_bytes(encoded_bytes(data, Seq::<char>::empty()), Seq::<char>::empty())
            != encoded_bytes(data, Seq::<char>::empty()),
{
    let none = Seq::<char>::empty();
    let e = encoded_bytes(data, none);
    let i = choose|i: int| 0 <= i < data.len() && !default_safe(data[i]);
    lemma_unsafe_byte_gives_percent(data, none, i);
    let j = choose|j: int| 0 <= j < e.len() && e[j] == 0x25;
    assert(!safe_byte(e[j], none));
    assert(!all_safe(e, none));
    lemma_encoded_len(e, none);
}

/// An excluded character passes through: wherever the input holds an
/// ASCII byte whose character stands in the exclusion list, the output holds
/// that byte itself, unescaped, between the encodings of what surrounds it.
pub proof fn lemma_excluded_passes_through(data: Seq<u8>, exclude: Seq<char>, i: int)
    requires
        0 <= i < data.len(),
        data[i] < 0x80,
        exclude.contains(data[i] as char),
    ensures
        encoded_bytes(data, exclude) == encoded_bytes(data.take(i), exclude) + seq![data[i]]
            + encoded_bytes(data.skip(i + 1), exclude),
{
    lemma_encoded_split_at(data, exclude, i);
    assert(encoded_byte(data[i], exclude) =~= seq![data[i]]);
}

} // verus!
