//! Binary geohash codes: their reading as numbers, and the calls into
//! `geohashrust` that make and decode them.

use vstd::arithmetic::power2::{lemma_pow2_unfold, pow2};
use vstd::prelude::*;
use vstd::string::{is_ascii_spec_bytes, StringSliceAdditionalSpecFns};

verus! {

/// The longest code that a `geohashrust::BinaryHash` can hold, in bits.
pub const MAX_PRECISION: u8 = 64;

/// Whether every character of `code` is `'0'` or `'1'`.
pub open spec fn is_binary(code: Seq<char>) -> bool {
    forall|i: int| 0 <= i < code.len() ==> code[i] == '0' || code[i] == '1'
}

/// Whether `code` is a binary code of `precision` bits.
pub open spec fn is_code(code: Seq<char>, precision: nat) -> bool {
    is_binary(code) && code.len() == precision
}

/// The number that a binary code spells, first character most significant.
/// A character other than `'1'` counts as a zero bit.
pub open spec fn code_value(code: Seq<char>) -> nat
    decreases code.len(),
{
    if code.len() == 0 {
        0
    } else {
        2 * code_value(code.drop_last()) + if code.last() == '1' {
            1nat
        } else {
            0nat
        }
    }
}

/// The `len` lowest bits of `bits` written as a binary code, first character
/// most significant.
pub open spec fn code_text(bits: nat, len: nat) -> Seq<char>
    decreases len,
{
    if len == 0 {
        Seq::empty()
    } else {
        code_text(bits / 2, (len - 1) as nat).push(
            if bits % 2 == 1 {
                '1'
            } else {
                '0'
            },
        )
    }
}

/// A code text has the length asked for and holds binary digits only.
pub proof fn lemma_code_text_shape(bits: nat, len: nat)
    ensures
        code_text(bits, len).len() == len,
        is_binary(code_text(bits, len)),
    decreases len,
{
    if len > 0 {
        lemma_code_text_shape(bits / 2, (len - 1) as nat);
    }
}

/// Reading a code text back gives the bits that were written.
pub proof fn lemma_code_text_value(bits: nat, len: nat)
    ensures
        code_value(code_text(bits, len)) == bits % pow2(len),
    decreases len,
{
    if len == 0 {
        assert(pow2(0) == 1) by {
            vstd::arithmetic::power2::lemma2_to64();
        }
    } else {
        let rest = code_text(bits / 2, (len - 1) as nat);
        let last = if bits % 2 == 1 {
            '1'
        } else {
            '0'
        };
        lemma_code_text_value(bits / 2, (len - 1) as nat);
        assert(code_text(bits, len).drop_last() =~= rest);
        assert(code_text(bits, len).last() == last);
        lemma_pow2_unfold(len);
        let half = pow2((len - 1) as nat);
        assert(bits % (2 * half) == 2 * ((bits / 2) % half) + bits % 2) by {
            vstd::arithmetic::power2::lemma_pow2_pos((len - 1) as nat);
            lemma_mod_double(bits, half);
        }
    }
}

/// A binary code of `n` characters spells a number under 2ⁿ.
pub proof fn lemma_code_value_bound(code: Seq<char>)
    ensures
        code_value(code) < pow2(code.len()),
    decreases code.len(),
{
    if code.len() == 0 {
        assert(pow2(0) == 1) by {
            vstd::arithmetic::power2::lemma2_to64();
        }
    } else {
        lemma_code_value_bound(code.drop_last());
        lemma_pow2_unfold(code.len());
    }
}

/// Writing the number that a binary code spells gives the code back.
pub proof fn lemma_code_value_text(code: Seq<char>)
    requires
        is_binary(code),
    ensures
        code_text(code_value(code), code.len()) == code,
    decreases code.len(),
{
    if code.len() > 0 {
        lemma_code_value_text(code.drop_last());
        assert(code_text(code_value(code), code.len()) =~= code);
    } else {
        assert(code_text(code_value(code), code.len()) =~= code);
    }
}

/// The first `len` characters of a code spell its value without the last
/// bits: the value divided by two for each character left out.
pub proof fn lemma_code_prefix_value(code: Seq<char>, len: nat)
    requires
        len <= code.len(),
    ensures
        code_value(code.take(len as int)) == code_value(code) / pow2((code.len() - len) as nat),
    decreases code.len() - len,
{
    if len < code.len() {
        let shorter = code.drop_last();
        lemma_code_prefix_value(shorter, len);
        assert(shorter.take(len as int) =~= code.take(len as int));
        let rest = (shorter.len() - len) as nat;
        lemma_pow2_unfold(rest + 1);
        vstd::arithmetic::power2::lemma_pow2_pos(rest);
        vstd::arithmetic::div_mod::lemma_div_denominator(
            code_value(code) as int,
            2,
            pow2(rest) as int,
        );
        assert(code_value(code) / 2 == code_value(shorter));
        assert((code.len() - len) as nat == rest + 1);
        assert(pow2(rest + 1) == 2 * pow2(rest));
        assert(code_value(code) / (2 * pow2(rest)) == code_value(shorter) / pow2(rest));
    } else {
        assert(code.take(len as int) =~= code);
        assert(pow2(0) == 1) by {
            vstd::arithmetic::power2::lemma2_to64();
        }
        assert((code.len() - len) as nat == 0);
        assert(code_value(code) / 1 == code_value(code));
    }
}

/// Binary digits are ASCII characters.
proof fn lemma_binary_is_ascii(code: Seq<char>)
    requires
        is_binary(code),
    ensures
        vstd::utf8::is_ascii_chars(code),
{
    assert forall|i: int| 0 <= i < code.len() implies '\0' <= #[trigger] code[i] <= '\u{7f}' by {}
}

proof fn lemma_mod_double(x: nat, m: nat)
    requires
        m > 0,
    ensures
        x % (2 * m) == 2 * ((x / 2) % m) + x % 2,
{
    let q = (x / 2) / m;
    let r = (x / 2) % m;
    assert(x / 2 == q * m + r) by {
        vstd::arithmetic::div_mod::lemma_fundamental_div_mod((x / 2) as int, m as int);
        assert(m * q == q * m) by (nonlinear_arith);
    }
    assert(x == 2 * (x / 2) + x % 2);
    assert(x == q * (2 * m) + (2 * r + x % 2)) by (nonlinear_arith)
        requires
            x == 2 * (x / 2) + x % 2,
            x / 2 == q * m + r,
    ;
    assert(0 <= 2 * r + x % 2 < 2 * m);
    vstd::arithmetic::div_mod::lemma_fundamental_div_mod_converse(
        x as int,
        (2 * m) as int,
        q as int,
        (2 * r + x % 2) as int,
    );
}

/// Reads a binary code of exactly `precision` characters as a number; none
/// where `code` is no such code, or `precision` is over `MAX_PRECISION`.
pub fn parse_code(code: &str, precision: u8) -> (value: Option<u64>)
    ensures
        value is Some <==> is_code(code@, precision as nat) && precision <= MAX_PRECISION,
        value matches Some(v) ==> v == code_value(code@) && v < pow2(precision as nat),
{
    broadcast use is_ascii_spec_bytes;

    if precision > MAX_PRECISION {
        return None;
    }
    if !code.is_ascii() {
        proof {
            if is_binary(code@) {
                lemma_binary_is_ascii(code@);
            }
        }
        return None;
    }
    let bytes = code.as_bytes();
    if bytes.len() != precision as usize {
        return None;
    }
    let mut value: u64 = 0;
    let mut i: usize = 0;
    assert(code@.take(0) =~= Seq::<char>::empty());
    assert(pow2(0) == 1) by {
        vstd::arithmetic::power2::lemma2_to64();
    }
    while i < bytes.len()
        invariant
            i <= bytes.len() == code@.len() <= 64,
            vstd::string::is_ascii(code),
            bytes@ == code.spec_bytes(),
            is_binary(code@.take(i as int)),
            value == code_value(code@.take(i as int)),
            value < pow2(i as nat),
        decreases bytes.len() - i,
    {
        let b = bytes[i];
        let ghost c = code@[i as int];
        assert(b == c as u8);
        assert('\0' <= c <= '\u{7f}');
        if b != 48 && b != 49 {
            assert(c != '0' && c != '1');
            return None;
        }
        proof {
            let next = code@.take(i + 1);
            assert(next.drop_last() =~= code@.take(i as int));
            assert(next.last() == c);
            assert(b == 49 <==> c == '1');
            assert(b == 48 <==> c == '0');
            lemma_pow2_unfold((i + 1) as nat);
            assert(pow2(64) == 0x10000000000000000) by {
                vstd::arithmetic::power2::lemma2_to64_rest();
            }
            if i + 1 < 64 {
                vstd::arithmetic::power2::lemma_pow2_strictly_increases((i + 1) as nat, 64);
            }
        }
        value = 2 * value + if b == 49 {
            1
        } else {
            0
        };
        i = i + 1;
    }
    assert(code@.take(i as int) =~= code@);
    Some(value)
}

/// Appends the `len` lowest bits of `bits` to `text`, most significant first.
fn push_code(text: &mut String, bits: u64, len: u8)
    ensures
        final(text)@ == old(text)@ + code_text(bits as nat, len as nat),
    decreases len,
{
    if len > 0 {
        push_code(text, bits / 2, len - 1);
        proof {
            reveal_strlit("1");
            reveal_strlit("0");
        }
        if bits % 2 == 1 {
            text.append("1");
        } else {
            text.append("0");
        }
        assert(final(text)@ =~= old(text)@ + code_text(bits as nat, len as nat));
    } else {
        assert(final(text)@ =~= old(text)@ + code_text(bits as nat, len as nat));
    }
}

/// Writes the `len` lowest bits of `bits` as a binary code.
pub fn render_code(bits: u64, len: u8) -> (code: String)
    ensures
        code@ == code_text(bits as nat, len as nat),
{
    let mut code = String::new();
    push_code(&mut code, bits, len);
    assert(code@ =~= code_text(bits as nat, len as nat));
    code
}

/// The bounding box of a cell. Each bound is the bit pattern of a double
/// (IEEE 754 binary64), in degrees: `f64::from_bits` gives the number.
#[derive(Clone, Copy, Debug, PartialEq, Eq, Structural)]
pub struct BoundingBox {
    pub min_lon: u64,
    pub min_lat: u64,
    pub max_lon: u64,
    pub max_lat: u64,
}

/// The box that holds the four bounds.
pub open spec fn box_of(bounds: (u64, u64, u64, u64)) -> BoundingBox {
    BoundingBox { min_lon: bounds.0, min_lat: bounds.1, max_lon: bounds.2, max_lat: bounds.3 }
}

/// The binary geohash of the point at `lon`, `lat` (in units of 10⁻⁷ degree)
/// with `precision` bits, as `geohashrust` computes it.
pub uninterp spec fn cell_code(lon: int, lat: int, precision: int) -> Seq<char>;

/// The bounding box that `geohashrust` decodes from a binary code, as
/// (min lon, min lat, max lon, max lat); each bound is the bit pattern of a
/// double, in degrees.
pub uninterp spec fn cell_box(code: Seq<char>) -> (u64, u64, u64, u64);

/// Calls `geohashrust::BinaryHash::encode` on the point and renders the hash
/// with `BinaryHash::to_string`. The degrees handed over are those that
/// `osmpbfreader::Node::lon` and `lat` give for the same integers. The result
/// is named, not computed here; the crate pushes exactly `precision` bits and
/// writes each as `'0'` or `'1'`. Beyond 64 bits its shifts overflow.
#[verifier::external_body]
pub(crate) fn encode_cell(lon: i32, lat: i32, precision: u8) -> (code: String)
    requires
        precision <= MAX_PRECISION,
    ensures
        code@ == cell_code(lon as int, lat as int, precision as int),
        code@.len() == precision,
        is_binary(code@),
{
    let node = osmpbfreader::Node {
        id: osmpbfreader::NodeId(0),
        tags: osmpbfreader::Tags::new(),
        decimicro_lat: lat,
        decimicro_lon: lon,
    };
    let location = geohashrust::GeoLocation { latitude: node.lat(), longitude: node.lon() };
    geohashrust::BinaryHash::encode(&location, precision).to_string()
}

/// Calls `geohashrust::BinaryHash::from_string` and `decode`, and hands each
/// bound of the box over as the bits of its double (`f64::to_bits`). The
/// result is named, not computed here. The crate panics on a character other
/// than `'0'` and `'1'`, and its shifts overflow beyond 64 bits.
#[verifier::external_body]
pub(crate) fn decode_cell(code: &str) -> (bounds: BoundingBox)
    requires
        is_binary(code@),
        code@.len() <= MAX_PRECISION,
    ensures
        bounds == box_of(cell_box(code@)),
{
    let bbox = geohashrust::BinaryHash::from_string(code).decode();
    BoundingBox {
        min_lon: bbox.min_lon.to_bits(),
        min_lat: bbox.min_lat.to_bits(),
        max_lon: bbox.max_lon.to_bits(),
        max_lat: bbox.max_lat.to_bits(),
    }
}

/// The binary geohash code, of `precision` bits, of the cell that the point
/// at `lon`, `lat` (in units of 10⁻⁷ degree) lies in; none where `precision`
/// is over `MAX_PRECISION`.
pub fn encode(lon: i32, lat: i32, precision: u8) -> (code: Option<String>)
    ensures
        code is Some <==> precision <= MAX_PRECISION,
        code matches Some(text) ==> text@ == cell_code(lon as int, lat as int, precision as int)
            && is_code(text@, precision as nat),
{
    if precision <= MAX_PRECISION {
        Some(encode_cell(lon, lat, precision))
    } else {
        None
    }
}

/// Whether `code` is a binary code of at most `MAX_PRECISION` bits.
pub fn is_cell_code(code: &str) -> (valid: bool)
    ensures
        valid == (is_binary(code@) && code@.len() <= MAX_PRECISION),
{
    broadcast use is_ascii_spec_bytes;

    let bytes = code.as_bytes();
    let len = bytes.len();
    proof {
        if is_binary(code@) {
            lemma_binary_is_ascii(code@);
            assert(vstd::string::is_ascii(code));
            assert(bytes@.len() == code@.len());
        }
    }
    if len > MAX_PRECISION as usize {
        return false;
    }
    parse_code(code, len as u8).is_some()
}

/// The bounding box of the cell that a binary geohash code stands for; none
/// where `code` is no binary code of at most `MAX_PRECISION` bits.
pub fn decode(code: &str) -> (bounds: Option<BoundingBox>)
    ensures
        bounds is Some <==> is_binary(code@) && code@.len() <= MAX_PRECISION,
        bounds matches Some(b) ==> b == box_of(cell_box(code@)),
{
    if is_cell_code(code) {
        Some(decode_cell(code))
    } else {
        None
    }
}

} // verus!
