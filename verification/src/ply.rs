//! Binary PLY header and layout reader for 3D Gaussian Splatting scenes.
//!
//! The header is read as bytes: each line contributes at most its first three
//! whitespace-separated words (`format`, `element` and `property` lines); everything
//! else is ignored. The result is the list of elements with their properties, byte
//! offsets and strides, and where each element's rows start in the body.
use vstd::prelude::*;

verus! {

// ---------------------------------------------------------------------------
// Bytes and words
// ---------------------------------------------------------------------------

/// ASCII whitespace: space, tab, line feed, vertical tab, form feed, carriage return.
pub open spec fn is_space(b: u8) -> bool {
    b == 32 || (9 <= b && b <= 13)
}

/// Compare two byte strings.
pub fn bytes_eq(a: &[u8], b: &[u8]) -> (r: bool)
    ensures
        r == (a@ == b@),
{
    if a.len() != b.len() {
        return false;
    }
    let mut i: usize = 0;
    while i < a.len()
        invariant
            i <= a.len(),
            a.len() == b.len(),
            forall|j: int| 0 <= j < i ==> a@[j] == b@[j],
        decreases a.len() - i,
    {
        if a[i] != b[i] {
            return false;
        }
        i += 1;
    }
    assert(a@ =~= b@);
    true
}

/// `format`
pub open spec fn word_format() -> Seq<u8> {
    seq![102u8, 111, 114, 109, 97, 116]
}

/// `element`
pub open spec fn word_element() -> Seq<u8> {
    seq![101u8, 108, 101, 109, 101, 110, 116]
}

/// `property`
pub open spec fn word_property() -> Seq<u8> {
    seq![112u8, 114, 111, 112, 101, 114, 116, 121]
}

/// `list`
pub open spec fn word_list() -> Seq<u8> {
    seq![108u8, 105, 115, 116]
}

/// `binary_little_endian`
pub open spec fn word_binary_little_endian() -> Seq<u8> {
    seq![98u8, 105, 110, 97, 114, 121, 95, 108, 105, 116, 116, 108, 101, 95, 101, 110, 100, 105, 97, 110]
}

/// `end_header`
pub open spec fn word_end_header() -> Seq<u8> {
    seq![101u8, 110, 100, 95, 104, 101, 97, 100, 101, 114]
}

fn is_format(w: &[u8]) -> (r: bool)
    ensures
        r == (w@ == word_format()),
{
    let lit: [u8; 6] = [102, 111, 114, 109, 97, 116];
    assert(lit@ =~= word_format());
    bytes_eq(w, &lit)
}

fn is_element(w: &[u8]) -> (r: bool)
    ensures
        r == (w@ == word_element()),
{
    let lit: [u8; 7] = [101, 108, 101, 109, 101, 110, 116];
    assert(lit@ =~= word_element());
    bytes_eq(w, &lit)
}

fn is_property(w: &[u8]) -> (r: bool)
    ensures
        r == (w@ == word_property()),
{
    let lit: [u8; 8] = [112, 114, 111, 112, 101, 114, 116, 121];
    assert(lit@ =~= word_property());
    bytes_eq(w, &lit)
}

fn is_list(w: &[u8]) -> (r: bool)
    ensures
        r == (w@ == word_list()),
{
    let lit: [u8; 4] = [108, 105, 115, 116];
    assert(lit@ =~= word_list());
    bytes_eq(w, &lit)
}

fn is_binary_little_endian(w: &[u8]) -> (r: bool)
    ensures
        r == (w@ == word_binary_little_endian()),
{
    let lit: [u8; 20] = [
        98, 105, 110, 97, 114, 121, 95, 108, 105, 116, 116, 108, 101, 95, 101, 110, 100, 105, 97, 110,
    ];
    assert(lit@ =~= word_binary_little_endian());
    bytes_eq(w, &lit)
}

// ---------------------------------------------------------------------------
// Scalar types
// ---------------------------------------------------------------------------

/// Scalar property types a PLY header can declare.
#[derive(Clone, Copy, PartialEq, Eq, Structural, Debug)]
pub enum Scalar {
    F32,
    F64,
    U8,
    I8,
    U16,
    I16,
    U32,
    I32,
}

/// The type a header names, under either of its two spellings.
pub open spec fn scalar_named(name: Seq<u8>) -> Option<Scalar> {
    if name == seq![102u8, 108, 111, 97, 116] || name == seq![102u8, 108, 111, 97, 116, 51, 50] {
        // float | float32
        Some(Scalar::F32)
    } else if name == seq![100u8, 111, 117, 98, 108, 101] || name == seq![
        102u8,
        108,
        111,
        97,
        116,
        54,
        52,
    ] {
        // double | float64
        Some(Scalar::F64)
    } else if name == seq![117u8, 99, 104, 97, 114] || name == seq![117u8, 105, 110, 116, 56] {
        // uchar | uint8
        Some(Scalar::U8)
    } else if name == seq![99u8, 104, 97, 114] || name == seq![105u8, 110, 116, 56] {
        // char | int8
        Some(Scalar::I8)
    } else if name == seq![117u8, 115, 104, 111, 114, 116] || name == seq![
        117u8,
        105,
        110,
        116,
        49,
        54,
    ] {
        // ushort | uint16
        Some(Scalar::U16)
    } else if name == seq![115u8, 104, 111, 114, 116] || name == seq![105u8, 110, 116, 49, 54] {
        // short | int16
        Some(Scalar::I16)
    } else if name == seq![117u8, 105, 110, 116] || name == seq![117u8, 105, 110, 116, 51, 50] {
        // uint | uint32
        Some(Scalar::U32)
    } else if name == seq![105u8, 110, 116] || name == seq![105u8, 110, 116, 51, 50] {
        // int | int32
        Some(Scalar::I32)
    } else {
        None
    }
}

/// Little-endian unsigned value of the first `n` bytes of `b`.
pub open spec fn le_value(b: Seq<u8>, n: int) -> nat
    decreases n,
{
    if n <= 0 {
        0
    } else {
        le_value(b, n - 1) + b[n - 1] as nat * pow256(n - 1)
    }
}

/// `256^k`.
pub open spec fn pow256(k: int) -> nat
    decreases k,
{
    if k <= 0 {
        1
    } else {
        256 * pow256(k - 1)
    }
}

/// A scalar read as it is stored: the little-endian bit pattern of its bytes, or for the
/// signed integer types, the value those bits encode in two's complement.
#[derive(Clone, Copy, PartialEq, Eq, Structural, Debug)]
pub enum RawScalar {
    /// IEEE-754 single-precision bit pattern.
    F32Bits(u32),
    /// IEEE-754 double-precision bit pattern.
    F64Bits(u64),
    /// An integer property's value.
    Int(i64),
}

/// Both spellings of each PLY type name the same type, and that type has the width the
/// sized spelling states: `float`/`float32` and `int`/`int32`/`uint`/`uint32` are four
/// bytes, `double`/`float64` eight, `short`/`int16`/`ushort`/`uint16` two and
/// `char`/`int8`/`uchar`/`uint8` one. The floating-point names give the floating-point
/// types and the `u` names the unsigned ones.
pub proof fn lemma_type_names_agree()
    ensures
        // float, float32
        scalar_named(seq![102u8, 108, 111, 97, 116]) == scalar_named(
            seq![102u8, 108, 111, 97, 116, 51, 50],
        ),
        scalar_named(seq![102u8, 108, 111, 97, 116, 51, 50]) matches Some(s) && s.spec_size() == 4
            && is_float_type(s),
        // double, float64
        scalar_named(seq![100u8, 111, 117, 98, 108, 101]) == scalar_named(
            seq![102u8, 108, 111, 97, 116, 54, 52],
        ),
        scalar_named(seq![102u8, 108, 111, 97, 116, 54, 52]) matches Some(s) && s.spec_size() == 8
            && is_float_type(s),
        // uchar, uint8
        scalar_named(seq![117u8, 99, 104, 97, 114]) == scalar_named(seq![117u8, 105, 110, 116, 56]),
        scalar_named(seq![117u8, 105, 110, 116, 56]) matches Some(s) && s.spec_size() == 1
            && is_unsigned_type(s),
        // char, int8
        scalar_named(seq![99u8, 104, 97, 114]) == scalar_named(seq![105u8, 110, 116, 56]),
        scalar_named(seq![105u8, 110, 116, 56]) matches Some(s) && s.spec_size() == 1
            && is_signed_type(s),
        // ushort, uint16
        scalar_named(seq![117u8, 115, 104, 111, 114, 116]) == scalar_named(
            seq![117u8, 105, 110, 116, 49, 54],
        ),
        scalar_named(seq![117u8, 105, 110, 116, 49, 54]) matches Some(s) && s.spec_size() == 2
            && is_unsigned_type(s),
        // short, int16
        scalar_named(seq![115u8, 104, 111, 114, 116]) == scalar_named(
            seq![105u8, 110, 116, 49, 54],
        ),
        scalar_named(seq![105u8, 110, 116, 49, 54]) matches Some(s) && s.spec_size() == 2
            && is_signed_type(s),
        // uint, uint32
        scalar_named(seq![117u8, 105, 110, 116]) == scalar_named(
            seq![117u8, 105, 110, 116, 51, 50],
        ),
        scalar_named(seq![117u8, 105, 110, 116, 51, 50]) matches Some(s) && s.spec_size() == 4
            && is_unsigned_type(s),
        // int, int32
        scalar_named(seq![105u8, 110, 116]) == scalar_named(seq![105u8, 110, 116, 51, 50]),
        scalar_named(seq![105u8, 110, 116, 51, 50]) matches Some(s) && s.spec_size() == 4
            && is_signed_type(s),
{
    lemma_bytes_differ(seq![102u8, 108, 111, 97, 116, 54, 52], seq![102u8, 108, 111, 97, 116, 51, 50], 5);
    lemma_bytes_differ(seq![117u8, 99, 104, 97, 114], seq![102u8, 108, 111, 97, 116], 0);
    lemma_bytes_differ(seq![117u8, 105, 110, 116, 56], seq![102u8, 108, 111, 97, 116], 0);
    lemma_bytes_differ(seq![117u8, 105, 110, 116, 56], seq![117u8, 99, 104, 97, 114], 1);
    lemma_bytes_differ(seq![105u8, 110, 116, 56], seq![99u8, 104, 97, 114], 0);
    lemma_bytes_differ(seq![117u8, 115, 104, 111, 114, 116], seq![100u8, 111, 117, 98, 108, 101], 0);
    lemma_bytes_differ(seq![117u8, 105, 110, 116, 49, 54], seq![100u8, 111, 117, 98, 108, 101], 0);
    lemma_bytes_differ(seq![117u8, 105, 110, 116, 49, 54], seq![117u8, 115, 104, 111, 114, 116], 1);
    lemma_bytes_differ(seq![115u8, 104, 111, 114, 116], seq![102u8, 108, 111, 97, 116], 0);
    lemma_bytes_differ(seq![115u8, 104, 111, 114, 116], seq![117u8, 99, 104, 97, 114], 0);
    lemma_bytes_differ(seq![115u8, 104, 111, 114, 116], seq![117u8, 105, 110, 116, 56], 0);
    lemma_bytes_differ(seq![105u8, 110, 116, 49, 54], seq![102u8, 108, 111, 97, 116], 0);
    lemma_bytes_differ(seq![105u8, 110, 116, 49, 54], seq![117u8, 99, 104, 97, 114], 0);
    lemma_bytes_differ(seq![105u8, 110, 116, 49, 54], seq![117u8, 105, 110, 116, 56], 0);
    lemma_bytes_differ(seq![105u8, 110, 116, 49, 54], seq![115u8, 104, 111, 114, 116], 0);
    lemma_bytes_differ(seq![117u8, 105, 110, 116], seq![99u8, 104, 97, 114], 0);
    lemma_bytes_differ(seq![117u8, 105, 110, 116], seq![105u8, 110, 116, 56], 0);
    lemma_bytes_differ(seq![117u8, 105, 110, 116, 51, 50], seq![100u8, 111, 117, 98, 108, 101], 0);
    lemma_bytes_differ(seq![117u8, 105, 110, 116, 51, 50], seq![117u8, 115, 104, 111, 114, 116], 1);
    lemma_bytes_differ(seq![117u8, 105, 110, 116, 51, 50], seq![117u8, 105, 110, 116, 49, 54], 4);
    lemma_bytes_differ(seq![105u8, 110, 116, 51, 50], seq![102u8, 108, 111, 97, 116], 0);
    lemma_bytes_differ(seq![105u8, 110, 116, 51, 50], seq![117u8, 99, 104, 97, 114], 0);
    lemma_bytes_differ(seq![105u8, 110, 116, 51, 50], seq![117u8, 105, 110, 116, 56], 0);
    lemma_bytes_differ(seq![105u8, 110, 116, 51, 50], seq![115u8, 104, 111, 114, 116], 0);
    lemma_bytes_differ(seq![105u8, 110, 116, 51, 50], seq![105u8, 110, 116, 49, 54], 3);
    assert(seq![102u8, 108, 111, 97, 116].len() == 5);
    assert(seq![102u8, 108, 111, 97, 116, 51, 50].len() == 7);
    assert(seq![100u8, 111, 117, 98, 108, 101].len() == 6);
    assert(seq![102u8, 108, 111, 97, 116, 54, 52].len() == 7);
    assert(seq![117u8, 99, 104, 97, 114].len() == 5);
    assert(seq![117u8, 105, 110, 116, 56].len() == 5);
    assert(seq![99u8, 104, 97, 114].len() == 4);
    assert(seq![105u8, 110, 116, 56].len() == 4);
    assert(seq![117u8, 115, 104, 111, 114, 116].len() == 6);
    assert(seq![117u8, 105, 110, 116, 49, 54].len() == 6);
    assert(seq![115u8, 104, 111, 114, 116].len() == 5);
    assert(seq![105u8, 110, 116, 49, 54].len() == 5);
    assert(seq![117u8, 105, 110, 116].len() == 4);
    assert(seq![117u8, 105, 110, 116, 51, 50].len() == 6);
    assert(seq![105u8, 110, 116].len() == 3);
    assert(seq![105u8, 110, 116, 51, 50].len() == 5);
}

/// Two byte strings that differ at some position are different.
proof fn lemma_bytes_differ(a: Seq<u8>, b: Seq<u8>, i: int)
    requires
        0 <= i < a.len(),
        i < b.len(),
        a[i] != b[i],
    ensures
        a != b,
{
}

/// The floating-point types.
pub open spec fn is_float_type(s: Scalar) -> bool {
    s == Scalar::F32 || s == Scalar::F64
}

/// The unsigned integer types.
pub open spec fn is_unsigned_type(s: Scalar) -> bool {
    s == Scalar::U8 || s == Scalar::U16 || s == Scalar::U32
}

/// The signed integer types.
pub open spec fn is_signed_type(s: Scalar) -> bool {
    s == Scalar::I8 || s == Scalar::I16 || s == Scalar::I32
}

impl Scalar {
    pub open spec fn spec_size(self) -> usize {
        match self {
            Scalar::U8 | Scalar::I8 => 1,
            Scalar::U16 | Scalar::I16 => 2,
            Scalar::F32 | Scalar::U32 | Scalar::I32 => 4,
            Scalar::F64 => 8,
        }
    }

    /// What `read_u32` gives for a row starting at `b`: the first four bytes as a
    /// little-endian `u32` for the 32-bit types, the zero-extended low bytes for the
    /// narrower ones, and zero for doubles.
    pub open spec fn spec_read_u32(self, b: Seq<u8>) -> u32 {
        match self {
            Scalar::U32 | Scalar::I32 | Scalar::F32 => le_value(b, 4) as u32,
            Scalar::U16 | Scalar::I16 => le_value(b, 2) as u32,
            Scalar::U8 | Scalar::I8 => b[0] as u32,
            Scalar::F64 => 0,
        }
    }

    /// What `read_raw` gives for a row starting at `b`.
    pub open spec fn spec_read_raw(self, b: Seq<u8>) -> RawScalar {
        match self {
            Scalar::F32 => RawScalar::F32Bits(le_value(b, 4) as u32),
            Scalar::F64 => RawScalar::F64Bits(le_value(b, 8) as u64),
            Scalar::U8 => RawScalar::Int(b[0] as i64),
            Scalar::I8 => RawScalar::Int(
                if b[0] >= 128 {
                    b[0] as int - 256
                } else {
                    b[0] as int
                } as i64,
            ),
            Scalar::U16 => RawScalar::Int(le_value(b, 2) as i64),
            Scalar::I16 => RawScalar::Int(
                if le_value(b, 2) >= 32768 {
                    le_value(b, 2) - 65536
                } else {
                    le_value(b, 2) as int
                } as i64,
            ),
            Scalar::U32 => RawScalar::Int(le_value(b, 4) as i64),
            Scalar::I32 => RawScalar::Int(
                if le_value(b, 4) >= 0x8000_0000 {
                    le_value(b, 4) - 0x1_0000_0000
                } else {
                    le_value(b, 4) as int
                } as i64,
            ),
        }
    }

    /// The type a header type name denotes, or `None` for an unknown name.
    pub fn from_name(name: &[u8]) -> (r: Option<Scalar>)
        ensures
            r == scalar_named(name@),
    {
        let float: [u8; 5] = [102, 108, 111, 97, 116];
        let float32: [u8; 7] = [102, 108, 111, 97, 116, 51, 50];
        let double: [u8; 6] = [100, 111, 117, 98, 108, 101];
        let float64: [u8; 7] = [102, 108, 111, 97, 116, 54, 52];
        let uchar: [u8; 5] = [117, 99, 104, 97, 114];
        let uint8: [u8; 5] = [117, 105, 110, 116, 56];
        let char_: [u8; 4] = [99, 104, 97, 114];
        let int8: [u8; 4] = [105, 110, 116, 56];
        let ushort: [u8; 6] = [117, 115, 104, 111, 114, 116];
        let uint16: [u8; 6] = [117, 105, 110, 116, 49, 54];
        let short: [u8; 5] = [115, 104, 111, 114, 116];
        let int16: [u8; 5] = [105, 110, 116, 49, 54];
        let uint: [u8; 4] = [117, 105, 110, 116];
        let uint32: [u8; 6] = [117, 105, 110, 116, 51, 50];
        let int_: [u8; 3] = [105, 110, 116];
        let int32: [u8; 5] = [105, 110, 116, 51, 50];
        assert(float@ =~= seq![102u8, 108, 111, 97, 116]);
        assert(float32@ =~= seq![102u8, 108, 111, 97, 116, 51, 50]);
        assert(double@ =~= seq![100u8, 111, 117, 98, 108, 101]);
        assert(float64@ =~= seq![102u8, 108, 111, 97, 116, 54, 52]);
        assert(uchar@ =~= seq![117u8, 99, 104, 97, 114]);
        assert(uint8@ =~= seq![117u8, 105, 110, 116, 56]);
        assert(char_@ =~= seq![99u8, 104, 97, 114]);
        assert(int8@ =~= seq![105u8, 110, 116, 56]);
        assert(ushort@ =~= seq![117u8, 115, 104, 111, 114, 116]);
        assert(uint16@ =~= seq![117u8, 105, 110, 116, 49, 54]);
        assert(short@ =~= seq![115u8, 104, 111, 114, 116]);
        assert(int16@ =~= seq![105u8, 110, 116, 49, 54]);
        assert(uint@ =~= seq![117u8, 105, 110, 116]);
        assert(uint32@ =~= seq![117u8, 105, 110, 116, 51, 50]);
        assert(int_@ =~= seq![105u8, 110, 116]);
        assert(int32@ =~= seq![105u8, 110, 116, 51, 50]);
        if bytes_eq(name, &float) || bytes_eq(name, &float32) {
            Some(Scalar::F32)
        } else if bytes_eq(name, &double) || bytes_eq(name, &float64) {
            Some(Scalar::F64)
        } else if bytes_eq(name, &uchar) || bytes_eq(name, &uint8) {
            Some(Scalar::U8)
        } else if bytes_eq(name, &char_) || bytes_eq(name, &int8) {
            Some(Scalar::I8)
        } else if bytes_eq(name, &ushort) || bytes_eq(name, &uint16) {
            Some(Scalar::U16)
        } else if bytes_eq(name, &short) || bytes_eq(name, &int16) {
            Some(Scalar::I16)
        } else if bytes_eq(name, &uint) || bytes_eq(name, &uint32) {
            Some(Scalar::U32)
        } else if bytes_eq(name, &int_) || bytes_eq(name, &int32) {
            Some(Scalar::I32)
        } else {
            None
        }
    }

    /// Bytes one value of this type occupies in a row.
    pub fn size(self) -> (r: usize)
        ensures
            r == self.spec_size(),
            1 <= r <= 8,
    {
        match self {
            Scalar::U8 | Scalar::I8 => 1,
            Scalar::U16 | Scalar::I16 => 2,
            Scalar::F32 | Scalar::U32 | Scalar::I32 => 4,
            Scalar::F64 => 8,
        }
    }

    /// Read a value as raw 32 bits, the way packed fields of compressed scenes are stored.
    pub fn read_u32(self, b: &[u8]) -> (r: u32)
        requires
            b.len() >= self.spec_size(),
        ensures
            r == self.spec_read_u32(b@),
    {
        match self {
            Scalar::U32 | Scalar::I32 | Scalar::F32 => {
                let v = le_u32(b);
                assert(le_value(b@, 4) as u32 == v);
                v
            },
            Scalar::U16 | Scalar::I16 => {
                proof {
                    lemma_le_value_2(b@);
                }
                b[0] as u32 + (b[1] as u32) * 256
            },
            Scalar::U8 | Scalar::I8 => b[0] as u32,
            Scalar::F64 => 0,
        }
    }

    /// Read a value as it is stored, for the caller to turn into a number.
    pub fn read_raw(self, b: &[u8]) -> (r: RawScalar)
        requires
            b.len() >= self.spec_size(),
        ensures
            r == self.spec_read_raw(b@),
    {
        match self {
            Scalar::F32 => {
                let v = le_u32(b);
                assert(le_value(b@, 4) as u32 == v);
                RawScalar::F32Bits(v)
            },
            Scalar::F64 => {
                let lo = le_u32(b) as u64;
                let hi = le_u32(&b[4..8]) as u64;
                proof {
                    lemma_le_value_8(b@);
                    lemma_le_value_4(b@);
                    assert(b@.subrange(4, 8)[0] == b@[4]);
                    assert(b@.subrange(4, 8)[1] == b@[5]);
                    assert(b@.subrange(4, 8)[2] == b@[6]);
                    assert(b@.subrange(4, 8)[3] == b@[7]);
                    lemma_le_value_4(b@.subrange(4, 8));
                    assert(lo + hi * 0x1_0000_0000 == le_value(b@, 8)) by (nonlinear_arith)
                        requires
                            lo == b@[0] as nat + b@[1] as nat * 256 + b@[2] as nat * 65536 + b@[3] as nat * 16777216,
                            hi == b@[4] as nat + b@[5] as nat * 256 + b@[6] as nat * 65536 + b@[7] as nat * 16777216,
                            le_value(b@, 8) == b@[0] as nat + b@[1] as nat * 256 + b@[2] as nat * 65536
                                + b@[3] as nat * 16777216 + b@[4] as nat * 0x1_0000_0000 + b@[5] as nat
                                * 0x100_0000_0000 + b@[6] as nat * 0x1_0000_0000_0000 + b@[7] as nat
                                * 0x100_0000_0000_0000,
                    ;
                }
                RawScalar::F64Bits(lo + hi * 0x1_0000_0000)
            },
            Scalar::U8 => RawScalar::Int(b[0] as i64),
            Scalar::I8 => {
                if b[0] >= 128 {
                    RawScalar::Int(b[0] as i64 - 256)
                } else {
                    RawScalar::Int(b[0] as i64)
                }
            },
            Scalar::U16 => {
                proof {
                    lemma_le_value_2(b@);
                }
                RawScalar::Int((b[0] as u32 + (b[1] as u32) * 256) as i64)
            },
            Scalar::I16 => {
                proof {
                    lemma_le_value_2(b@);
                }
                let v = b[0] as i64 + (b[1] as i64) * 256;
                if v >= 32768 {
                    RawScalar::Int(v - 65536)
                } else {
                    RawScalar::Int(v)
                }
            },
            Scalar::U32 => {
                let v = le_u32(b);
                RawScalar::Int(v as i64)
            },
            Scalar::I32 => {
                let v = le_u32(b) as i64;
                if v >= 0x8000_0000 {
                    RawScalar::Int(v - 0x1_0000_0000)
                } else {
                    RawScalar::Int(v)
                }
            },
        }
    }
}

proof fn lemma_le_value_2(b: Seq<u8>)
    requires
        b.len() >= 2,
    ensures
        le_value(b, 2) == b[0] as nat + b[1] as nat * 256,
{
    assert(pow256(0) == 1);
    assert(pow256(1) == 256);
    assert(le_value(b, 0) == 0);
    assert(le_value(b, 1) == b[0] as nat);
    assert(le_value(b, 2) == le_value(b, 1) + b[1] as nat * 256);
}

proof fn lemma_le_value_8(b: Seq<u8>)
    requires
        b.len() >= 8,
    ensures
        le_value(b, 8) == b[0] as nat + b[1] as nat * 256 + b[2] as nat * 65536 + b[3] as nat
            * 16777216 + b[4] as nat * 0x1_0000_0000 + b[5] as nat * 0x100_0000_0000 + b[6] as nat
            * 0x1_0000_0000_0000 + b[7] as nat * 0x100_0000_0000_0000,
{
    lemma_le_value_4(b);
    assert(pow256(0) == 1);
    assert(pow256(1) == 256);
    assert(pow256(2) == 65536);
    assert(pow256(3) == 16777216);
    assert(pow256(4) == 0x1_0000_0000);
    assert(pow256(5) == 0x100_0000_0000);
    assert(pow256(6) == 0x1_0000_0000_0000);
    assert(pow256(7) == 0x100_0000_0000_0000);
    assert(le_value(b, 5) == le_value(b, 4) + b[4] as nat * 0x1_0000_0000);
    assert(le_value(b, 6) == le_value(b, 5) + b[5] as nat * 0x100_0000_0000);
    assert(le_value(b, 7) == le_value(b, 6) + b[6] as nat * 0x1_0000_0000_0000);
    assert(le_value(b, 8) == le_value(b, 7) + b[7] as nat * 0x100_0000_0000_0000);
}

proof fn lemma_le_value_4(b: Seq<u8>)
    requires
        b.len() >= 4,
    ensures
        le_value(b, 1) == b[0] as nat,
        le_value(b, 2) == b[0] as nat + b[1] as nat * 256,
        le_value(b, 4) == b[0] as nat + b[1] as nat * 256 + b[2] as nat * 65536 + b[3] as nat
            * 16777216,
{
    assert(pow256(0) == 1);
    assert(pow256(1) == 256);
    assert(pow256(2) == 65536);
    assert(pow256(3) == 16777216);
    assert(le_value(b, 0) == 0);
    assert(le_value(b, 1) == b[0] as nat);
    assert(le_value(b, 2) == le_value(b, 1) + b[1] as nat * 256);
    assert(le_value(b, 3) == le_value(b, 2) + b[2] as nat * 65536);
    assert(le_value(b, 4) == le_value(b, 3) + b[3] as nat * 16777216);
}

/// The first four bytes of `b` as a little-endian `u32`.
fn le_u32(b: &[u8]) -> (r: u32)
    requires
        b.len() >= 4,
    ensures
        r == le_value(b@, 4),
{
    proof {
        lemma_le_value_4(b@);
    }
    b[0] as u32 + (b[1] as u32) * 256 + (b[2] as u32) * 65536 + (b[3] as u32) * 16777216
}

} // verus!

verus! {

// ---------------------------------------------------------------------------
// Lines and words of the header text
// ---------------------------------------------------------------------------

/// Index of the line feed that ends the line containing `i`, or the text's length.
pub open spec fn line_end(t: Seq<u8>, i: int) -> int
    decreases t.len() - i,
{
    if i >= t.len() {
        t.len() as int
    } else if t[i] == 10 {
        i
    } else {
        line_end(t, i + 1)
    }
}

/// A three-byte UTF-8 encoding of a Unicode space: U+1680, U+2000 to U+200A, U+2028,
/// U+2029, U+202F, U+205F or U+3000.
pub open spec fn is_wide_space(a: u8, b: u8, c: u8) -> bool {
    ||| a == 0xe1 && b == 0x9a && c == 0x80
    ||| a == 0xe2 && b == 0x80 && ((0x80 <= c && c <= 0x8a) || c == 0xa8 || c == 0xa9 || c
        == 0xaf)
    ||| a == 0xe2 && b == 0x81 && c == 0x9f
    ||| a == 0xe3 && b == 0x80 && c == 0x80
}

/// Length of the whitespace character encoded at `i`, before the line end `e`, or 0 when
/// none starts there. Whitespace is Unicode's: the ASCII blanks, U+0085 and U+00A0 (two
/// bytes each) and the three-byte spaces. Each of these starts with a byte that never
/// continues a UTF-8 sequence, so the text reads the same whether or not it is valid
/// UTF-8 elsewhere.
pub open spec fn space_len(t: Seq<u8>, i: int, e: int) -> int {
    if !(0 <= i < e && e <= t.len()) {
        0
    } else if is_space(t[i]) {
        1
    } else if i + 2 <= e && t[i] == 0xc2 && (t[i + 1] == 0x85 || t[i + 1] == 0xa0) {
        2
    } else if i + 3 <= e && is_wide_space(t[i], t[i + 1], t[i + 2]) {
        3
    } else {
        0
    }
}

/// First position at or after `i` that starts no whitespace, before the line end `e`.
pub open spec fn skip_space(t: Seq<u8>, i: int, e: int) -> int
    decreases e - i,
{
    if i >= e {
        e
    } else if space_len(t, i, e) > 0 {
        skip_space(t, i + space_len(t, i, e), e)
    } else {
        i
    }
}

/// First position at or after `i` that starts whitespace, before the line end `e`.
pub open spec fn word_end(t: Seq<u8>, i: int, e: int) -> int
    decreases e - i,
{
    if i >= e {
        e
    } else if space_len(t, i, e) > 0 {
        i
    } else {
        word_end(t, i + 1, e)
    }
}

/// A line ends within the text, at a newline unless it runs to the end of the text.
pub proof fn lemma_line_end_bounds(t: Seq<u8>, i: int)
    requires
        0 <= i,
    ensures
        i <= t.len() ==> i <= line_end(t, i) <= t.len(),
        i > t.len() ==> line_end(t, i) == t.len(),
        line_end(t, i) < t.len() ==> t[line_end(t, i)] == 10,
    decreases t.len() - i,
{
    if i < t.len() && t[i] != 10 {
        lemma_line_end_bounds(t, i + 1);
    }
}

/// Skipping blanks and reading a word both stay between `i` and the end `e` of the line.
pub proof fn lemma_word_bounds(t: Seq<u8>, i: int, e: int)
    requires
        i <= e,
    ensures
        i <= skip_space(t, i, e) <= e,
        i <= word_end(t, i, e) <= e,
    decreases e - i,
{
    if i < e {
        if space_len(t, i, e) > 0 {
            lemma_word_bounds(t, i + space_len(t, i, e), e);
        }
        lemma_word_bounds(t, i + 1, e);
    }
}

fn find_line_end(t: &[u8], i: usize) -> (r: usize)
    requires
        i <= t.len(),
    ensures
        r == line_end(t@, i as int),
{
    let mut j = i;
    while j < t.len() && t[j] != 10
        invariant
            i <= j <= t.len(),
            line_end(t@, j as int) == line_end(t@, i as int),
        decreases t.len() - j,
    {
        j += 1;
    }
    j
}

/// Length of the whitespace character at `i` before the line end `e`, or 0.
fn space_at(t: &[u8], i: usize, e: usize) -> (r: usize)
    requires
        i <= e <= t.len(),
    ensures
        r == space_len(t@, i as int, e as int),
{
    if i >= e {
        return 0;
    }
    let a = t[i];
    if a == 32 || (9 <= a && a <= 13) {
        1
    } else if e - i >= 2 && a == 0xc2 && (t[i + 1] == 0x85 || t[i + 1] == 0xa0) {
        2
    } else if e - i >= 3 {
        let b = t[i + 1];
        let c = t[i + 2];
        if (a == 0xe1 && b == 0x9a && c == 0x80) || (a == 0xe2 && b == 0x80 && ((0x80 <= c && c
            <= 0x8a) || c == 0xa8 || c == 0xa9 || c == 0xaf)) || (a == 0xe2 && b == 0x81 && c
            == 0x9f) || (a == 0xe3 && b == 0x80 && c == 0x80) {
            3
        } else {
            0
        }
    } else {
        0
    }
}

/// The word starting at the first non-space position at or after `i`: its start and end.
fn next_word(t: &[u8], i: usize, e: usize) -> (r: (usize, usize))
    requires
        i <= e <= t.len(),
    ensures
        r.0 == skip_space(t@, i as int, e as int),
        r.1 == word_end(t@, r.0 as int, e as int),
        i <= r.0 <= r.1 <= e,
{
    let mut s = i;
    loop
        invariant
            i <= s <= e,
            e <= t.len(),
            skip_space(t@, s as int, e as int) == skip_space(t@, i as int, e as int),
        ensures
            s == skip_space(t@, i as int, e as int),
        decreases e - s,
    {
        let n = space_at(t, s, e);
        if n == 0 {
            break;
        }
        s += n;
    }
    let mut w = s;
    while w < e && space_at(t, w, e) == 0
        invariant
            s <= w <= e,
            e <= t.len(),
            word_end(t@, w as int, e as int) == word_end(t@, s as int, e as int),
        decreases e - w,
    {
        w += 1;
    }
    (s, w)
}

// ---------------------------------------------------------------------------
// Element counts
// ---------------------------------------------------------------------------

/// Value of a string of decimal digits.
pub open spec fn decimal_value(d: Seq<u8>) -> nat
    decreases d.len(),
{
    if d.len() == 0 {
        0
    } else {
        decimal_value(d.drop_last()) * 10 + (d.last() - 48) as nat
    }
}

pub open spec fn all_digits(d: Seq<u8>) -> bool {
    forall|i: int| 0 <= i < d.len() ==> 48 <= #[trigger] d[i] <= 57
}

/// An unsigned count as Rust parses it: an optional `+`, then one or more decimal
/// digits, with a value that fits in `usize`.
pub open spec fn parse_count(w: Seq<u8>) -> Option<usize> {
    let d = if w.len() > 1 && w[0] == 43 {
        w.drop_first()
    } else {
        w
    };
    if d.len() > 0 && all_digits(d) && decimal_value(d) <= usize::MAX {
        Some(decimal_value(d) as usize)
    } else {
        None
    }
}

proof fn lemma_decimal_prefix(d: Seq<u8>, i: int)
    requires
        0 <= i < d.len(),
    ensures
        d.take(i + 1).drop_last() == d.take(i),
        d.take(i + 1).last() == d[i],
{
    assert(d.take(i + 1).drop_last() =~= d.take(i));
}

proof fn lemma_decimal_monotone(d: Seq<u8>, i: int)
    requires
        0 <= i <= d.len(),
        all_digits(d),
    ensures
        decimal_value(d.take(i)) <= decimal_value(d),
    decreases d.len() - i,
{
    if i < d.len() {
        lemma_decimal_monotone(d, i + 1);
        lemma_decimal_prefix(d, i);
        let v = decimal_value(d.take(i));
        assert(v <= v * 10) by (nonlinear_arith);
    } else {
        assert(d.take(i) =~= d);
    }
}

/// Parse an element count; `None` when it is not a valid `usize`.
pub fn parse_count_word(w: &[u8]) -> (r: Option<usize>)
    ensures
        r == parse_count(w@),
{
    let ghost d = if w@.len() > 1 && w@[0] == 43 {
        w@.drop_first()
    } else {
        w@
    };
    let start: usize = if w.len() > 1 && w[0] == 43 {
        1
    } else {
        0
    };
    assert(d =~= w@.subrange(start as int, w@.len() as int));
    assert(parse_count(w@) == if d.len() > 0 && all_digits(d) && decimal_value(d) <= usize::MAX {
        Some(decimal_value(d) as usize)
    } else {
        None::<usize>
    });
    if start >= w.len() {
        return None;
    }
    let mut v: usize = 0;
    let mut i: usize = start;
    while i < w.len()
        invariant
            start <= i <= w.len(),
            start < w.len(),
            d =~= w@.subrange(start as int, w@.len() as int),
            parse_count(w@) == if d.len() > 0 && all_digits(d) && decimal_value(d) <= usize::MAX {
                Some(decimal_value(d) as usize)
            } else {
                None::<usize>
            },
            forall|j: int| 0 <= j < i - start ==> 48 <= #[trigger] d[j] <= 57,
            v == decimal_value(d.take(i - start)),
        decreases w.len() - i,
    {
        let c = w[i];
        if c < 48 || c > 57 {
            assert(!all_digits(d)) by {
                assert(d[i - start] == c);
            }
            return None;
        }
        proof {
            lemma_decimal_prefix(d, i - start);
        }
        let digit = (c - 48) as usize;
        match v.checked_mul(10) {
            None => {
                proof {
                    assert(all_digits(d) ==> decimal_value(d) > usize::MAX) by {
                        if all_digits(d) {
                            lemma_decimal_monotone(d, i - start + 1);
                        }
                    }
                }
                return None;
            },
            Some(m) => match m.checked_add(digit) {
                None => {
                    proof {
                        assert(all_digits(d) ==> decimal_value(d) > usize::MAX) by {
                            if all_digits(d) {
                                lemma_decimal_monotone(d, i - start + 1);
                            }
                        }
                    }
                    return None;
                },
                Some(n) => {
                    v = n;
                },
            },
        }
        i += 1;
    }
    assert(d.take(d.len() as int) =~= d);
    Some(v)
}

} // verus!

verus! {

// ---------------------------------------------------------------------------
// Elements, properties and errors
// ---------------------------------------------------------------------------

/// One declared property: its name, type, and byte offset within a row.
#[derive(Debug)]
pub struct Prop {
    pub name: Vec<u8>,
    pub ty: Scalar,
    pub offset: usize,
}

/// One declared element: `count` rows of `stride` bytes starting at `start` in the body.
#[derive(Debug)]
pub struct Element {
    pub name: Vec<u8>,
    pub count: usize,
    pub props: Vec<Prop>,
    pub stride: usize,
    pub start: usize,
}

pub struct PropView {
    pub name: Seq<u8>,
    pub ty: Scalar,
    pub offset: int,
}

pub struct ElementView {
    pub name: Seq<u8>,
    pub count: int,
    pub props: Seq<PropView>,
    pub stride: int,
    pub start: int,
}

impl View for Prop {
    type V = PropView;

    open spec fn view(&self) -> PropView {
        PropView { name: self.name@, ty: self.ty, offset: self.offset as int }
    }
}

impl View for Element {
    type V = ElementView;

    open spec fn view(&self) -> ElementView {
        ElementView {
            name: self.name@,
            count: self.count as int,
            props: props_view(self.props@),
            stride: self.stride as int,
            start: self.start as int,
        }
    }
}

pub open spec fn props_view(ps: Seq<Prop>) -> Seq<PropView> {
    ps.map_values(|p: Prop| p@)
}

pub open spec fn elements_view(es: Seq<Element>) -> Seq<ElementView> {
    es.map_values(|e: Element| e@)
}

/// Why a scene file was refused. Positions refer to the header text.
#[derive(Clone, Copy, PartialEq, Eq, Structural, Debug)]
pub enum PlyError {
    /// No `end_header` within the first MiB.
    NoEndHeader,
    /// A `format` line names something other than `binary_little_endian`; the word is
    /// `header[start..end]` (empty when the line has none).
    UnsupportedFormat { start: usize, end: usize },
    /// An `element` line whose count is not an unsigned number.
    BadElementCount,
    /// A `property list` line.
    ListProperty,
    /// A `property` line with an unknown type, `header[start..end]`.
    UnknownPropertyType { start: usize, end: usize },
    /// A `property` line before any `element` line.
    PropertyBeforeElement,
    /// No `format` line at all.
    MissingFormat,
    /// The elements' total size does not fit in `usize`.
    LayoutOverflow,
    /// No element named `vertex`.
    NoVertexElement,
    /// The body is shorter than the rows the decoder reads: every vertex row, every
    /// chunk row, and one row of higher bands per splat when those bands are decoded.
    Truncated { have: usize, need: usize },
    /// A property the decoder needs is not declared on its element.
    MissingProperty(Field),
    /// A compressed scene without its `chunk` element.
    NoChunkElement,
    /// A compressed scene with splats but no chunk rows to take their bounds from.
    NoChunkRows,
    /// The `end_header` line runs to the end of the file: no line feed, so no body.
    UnterminatedHeader,
}

/// What the header has declared so far.
pub struct HeaderState {
    pub elements: Seq<ElementView>,
    pub format_ok: bool,
}

/// Apply one header line, `t[ls..le]`, of which only the first three words matter.
pub open spec fn header_step(t: Seq<u8>, ls: int, le: int, st: HeaderState) -> Result<
    HeaderState,
    PlyError,
> {
    let s0 = skip_space(t, ls, le);
    let e0 = word_end(t, s0, le);
    let s1 = skip_space(t, e0, le);
    let e1 = word_end(t, s1, le);
    let s2 = skip_space(t, e1, le);
    let e2 = word_end(t, s2, le);
    let w0 = t.subrange(s0, e0);
    let w1 = t.subrange(s1, e1);
    let w2 = t.subrange(s2, e2);
    if w0 == word_format() {
        if w1 == word_binary_little_endian() {
            Ok(HeaderState { elements: st.elements, format_ok: true })
        } else {
            Err(PlyError::UnsupportedFormat { start: s1 as usize, end: e1 as usize })
        }
    } else if w0 == word_element() {
        let count = if w2.len() == 0 {
            Some(0usize)
        } else {
            parse_count(w2)
        };
        match count {
            None => Err(PlyError::BadElementCount),
            Some(c) => Ok(
                HeaderState {
                    elements: st.elements.push(
                        ElementView { name: w1, count: c as int, props: seq![], stride: 0, start: 0 },
                    ),
                    format_ok: st.format_ok,
                },
            ),
        }
    } else if w0 == word_property() {
        if w1 == word_list() {
            Err(PlyError::ListProperty)
        } else {
            match scalar_named(w1) {
                None => Err(PlyError::UnknownPropertyType { start: s1 as usize, end: e1 as usize }),
                Some(ty) => if st.elements.len() == 0 {
                    Err(PlyError::PropertyBeforeElement)
                } else {
                    let last = st.elements.last();
                    let grown = ElementView {
                        name: last.name,
                        count: last.count,
                        props: last.props.push(PropView { name: w2, ty: ty, offset: last.stride }),
                        stride: last.stride + ty.spec_size(),
                        start: last.start,
                    };
                    Ok(
                        HeaderState {
                            elements: st.elements.update(st.elements.len() - 1, grown),
                            format_ok: st.format_ok,
                        },
                    )
                },
            }
        }
    } else {
        Ok(st)
    }
}

/// Apply every line of `t` from position `pos` on.
pub open spec fn header_run(t: Seq<u8>, pos: int, st: HeaderState) -> Result<HeaderState, PlyError>
    decreases t.len() + 1 - pos,
    via header_run_decreases
{
    if pos < 0 || pos >= t.len() {
        Ok(st)
    } else {
        let le = line_end(t, pos);
        match header_step(t, pos, le, st) {
            Ok(next) => header_run(t, le + 1, next),
            Err(e) => Err(e),
        }
    }
}

#[via_fn]
proof fn header_run_decreases(t: Seq<u8>, pos: int, st: HeaderState) {
    if 0 <= pos < t.len() {
        lemma_line_end_bounds(t, pos);
    }
}

/// Bytes taken by the rows of the first `k` elements.
pub open spec fn layout_end(els: Seq<ElementView>, k: int) -> int
    decreases k,
{
    if k <= 0 {
        0
    } else {
        layout_end(els, k - 1) + els[k - 1].stride * els[k - 1].count
    }
}

/// The elements with each one's rows placed right after the previous element's.
pub open spec fn with_starts(els: Seq<ElementView>) -> Seq<ElementView> {
    Seq::new(
        els.len(),
        |i: int|
            ElementView {
                name: els[i].name,
                count: els[i].count,
                props: els[i].props,
                stride: els[i].stride,
                start: layout_end(els, i),
            },
    )
}

/// Nothing declared yet.
pub open spec fn empty_header() -> HeaderState {
    HeaderState { elements: seq![], format_ok: false }
}

/// The layout once every line has been read: the `format` line must have been seen and
/// all rows must fit in `usize` bytes.
pub open spec fn finish_header(run: Result<HeaderState, PlyError>) -> Result<
    Seq<ElementView>,
    PlyError,
> {
    match run {
        Err(e) => Err(e),
        Ok(st) => if !st.format_ok {
            Err(PlyError::MissingFormat)
        } else if layout_end(st.elements, st.elements.len() as int) > usize::MAX {
            Err(PlyError::LayoutOverflow)
        } else {
            Ok(with_starts(st.elements))
        },
    }
}

/// The elements a header declares, in order, with their body layout.
pub open spec fn header_layout(t: Seq<u8>) -> Result<Seq<ElementView>, PlyError> {
    finish_header(header_run(t, 0, empty_header()))
}

} // verus!

verus! {

/// Properties the decoder looks up by name.
#[derive(Clone, Copy, PartialEq, Eq, Structural, Debug)]
pub enum Field {
    /// `x`
    X,
    /// `y`
    Y,
    /// `z`
    Z,
    /// `scale_0`
    Scale0,
    /// `scale_1`
    Scale1,
    /// `scale_2`
    Scale2,
    /// `rot_0`
    Rot0,
    /// `rot_1`
    Rot1,
    /// `rot_2`
    Rot2,
    /// `rot_3`
    Rot3,
    /// `opacity`
    Opacity,
    /// `f_dc_0`
    FDc0,
    /// `f_dc_1`
    FDc1,
    /// `f_dc_2`
    FDc2,
    /// `packed_position`
    PackedPosition,
    /// `packed_rotation`
    PackedRotation,
    /// `packed_scale`
    PackedScale,
    /// `packed_color`
    PackedColor,
}

impl Field {
    /// The property name in the header.
    pub open spec fn spec_name(self) -> Seq<u8> {
        match self {
            Field::X => seq![120u8],
            Field::Y => seq![121u8],
            Field::Z => seq![122u8],
            Field::Scale0 => seq![115u8, 99, 97, 108, 101, 95, 48],
            Field::Scale1 => seq![115u8, 99, 97, 108, 101, 95, 49],
            Field::Scale2 => seq![115u8, 99, 97, 108, 101, 95, 50],
            Field::Rot0 => seq![114u8, 111, 116, 95, 48],
            Field::Rot1 => seq![114u8, 111, 116, 95, 49],
            Field::Rot2 => seq![114u8, 111, 116, 95, 50],
            Field::Rot3 => seq![114u8, 111, 116, 95, 51],
            Field::Opacity => seq![111u8, 112, 97, 99, 105, 116, 121],
            Field::FDc0 => seq![102u8, 95, 100, 99, 95, 48],
            Field::FDc1 => seq![102u8, 95, 100, 99, 95, 49],
            Field::FDc2 => seq![102u8, 95, 100, 99, 95, 50],
            Field::PackedPosition => seq![112u8, 97, 99, 107, 101, 100, 95, 112, 111, 115, 105, 116, 105, 111, 110],
            Field::PackedRotation => seq![112u8, 97, 99, 107, 101, 100, 95, 114, 111, 116, 97, 116, 105, 111, 110],
            Field::PackedScale => seq![112u8, 97, 99, 107, 101, 100, 95, 115, 99, 97, 108, 101],
            Field::PackedColor => seq![112u8, 97, 99, 107, 101, 100, 95, 99, 111, 108, 111, 114],
        }
    }

    /// The property name in the header, as bytes.
    pub fn name(self) -> (r: Vec<u8>)
        ensures
            r@ == self.spec_name(),
    {
        let r = match self {
            Field::X => vec![120],
            Field::Y => vec![121],
            Field::Z => vec![122],
            Field::Scale0 => vec![115, 99, 97, 108, 101, 95, 48],
            Field::Scale1 => vec![115, 99, 97, 108, 101, 95, 49],
            Field::Scale2 => vec![115, 99, 97, 108, 101, 95, 50],
            Field::Rot0 => vec![114, 111, 116, 95, 48],
            Field::Rot1 => vec![114, 111, 116, 95, 49],
            Field::Rot2 => vec![114, 111, 116, 95, 50],
            Field::Rot3 => vec![114, 111, 116, 95, 51],
            Field::Opacity => vec![111, 112, 97, 99, 105, 116, 121],
            Field::FDc0 => vec![102, 95, 100, 99, 95, 48],
            Field::FDc1 => vec![102, 95, 100, 99, 95, 49],
            Field::FDc2 => vec![102, 95, 100, 99, 95, 50],
            Field::PackedPosition => vec![112, 97, 99, 107, 101, 100, 95, 112, 111, 115, 105, 116, 105, 111, 110],
            Field::PackedRotation => vec![112, 97, 99, 107, 101, 100, 95, 114, 111, 116, 97, 116, 105, 111, 110],
            Field::PackedScale => vec![112, 97, 99, 107, 101, 100, 95, 115, 99, 97, 108, 101],
            Field::PackedColor => vec![112, 97, 99, 107, 101, 100, 95, 99, 111, 108, 111, 114],
        };
        proof {
            assert(r@ =~= self.spec_name());
        }
        r
    }
}

} // verus!

verus! {

proof fn lemma_layout_end_monotone(els: Seq<ElementView>, k: int, m: int)
    requires
        0 <= k <= m <= els.len(),
        forall|j: int| 0 <= j < els.len() ==> (#[trigger] els[j]).stride >= 0 && els[j].count >= 0,
    ensures
        layout_end(els, k) <= layout_end(els, m),
    decreases m - k,
{
    if k < m {
        lemma_layout_end_monotone(els, k, m - 1);
        let e = els[m - 1];
        assert(e.stride * e.count >= 0) by (nonlinear_arith)
            requires
                e.stride >= 0,
                e.count >= 0,
        ;
    }
}

/// Read the element and property declarations of a PLY header and lay the elements out
/// one after another in the body.
pub fn parse_header(text: &[u8]) -> (r: Result<Vec<Element>, PlyError>)
    ensures
        match r {
            Ok(els) => header_layout(text@) == Ok::<Seq<ElementView>, PlyError>(
                elements_view(els@),
            ),
            Err(e) => header_layout(text@) == Err::<Seq<ElementView>, PlyError>(e),
        },
{
    let mut elements: Vec<Element> = Vec::new();
    let mut format_ok = false;
    let mut pos: usize = 0;
    let ghost t = text@;
    let ghost init = empty_header();
    assert(elements_view(elements@) =~= seq![]);
    while pos < text.len()
        invariant
            pos <= text.len(),
            t == text@,
            header_layout(t) == finish_header(header_run(
                t,
                pos as int,
                HeaderState { elements: elements_view(elements@), format_ok: format_ok },
            )),
            forall|k: int| 0 <= k < elements@.len() ==> (#[trigger] elements@[k]).stride <= pos,
        decreases text.len() - pos,
    {
        let le = find_line_end(text, pos);
        proof {
            lemma_line_end_bounds(t, pos as int);
        }
        let (s0, e0) = next_word(text, pos, le);
        let (s1, e1) = next_word(text, e0, le);
        let (s2, e2) = next_word(text, e1, le);
        let w0 = &text[s0..e0];
        let w1 = &text[s1..e1];
        let w2 = &text[s2..e2];
        let ghost st = HeaderState { elements: elements_view(elements@), format_ok: format_ok };
        let ghost old_elements = elements@;
        if is_format(w0) {
            if is_binary_little_endian(w1) {
                format_ok = true;
            } else {
                proof {
                    assert(header_step(t, pos as int, le as int, st) == Err::<HeaderState, PlyError>(PlyError::UnsupportedFormat { start: s1, end: e1 }));
                    assert(header_run(t, pos as int, st) == Err::<HeaderState, PlyError>(PlyError::UnsupportedFormat { start: s1, end: e1 }));
                    assert(header_layout(text@) == Err::<Seq<ElementView>, PlyError>(PlyError::UnsupportedFormat { start: s1, end: e1 }));
                }
                return Err(PlyError::UnsupportedFormat { start: s1, end: e1 });
            }
        } else if is_element(w0) {
            let count = if w2.len() == 0 {
                Some(0usize)
            } else {
                parse_count_word(w2)
            };
            match count {
                None => {
                    proof {
                    assert(header_step(t, pos as int, le as int, st) == Err::<HeaderState, PlyError>(PlyError::BadElementCount));
                    assert(header_run(t, pos as int, st) == Err::<HeaderState, PlyError>(PlyError::BadElementCount));
                    assert(header_layout(text@) == Err::<Seq<ElementView>, PlyError>(PlyError::BadElementCount));
                }
                return Err(PlyError::BadElementCount);
                },
                Some(c) => {
                    let name = vstd::slice::slice_to_vec(w1);
                    let el = Element { name, count: c, props: Vec::new(), stride: 0, start: 0 };
                    proof {
                        assert(props_view(el.props@) =~= seq![]);
                    }
                    elements.push(el);
                    proof {
                        assert(elements_view(elements@) =~= elements_view(old_elements).push(el@));
                    }
                },
            }
        } else if is_property(w0) {
            if is_list(w1) {
                proof {
                    assert(header_step(t, pos as int, le as int, st) == Err::<HeaderState, PlyError>(PlyError::ListProperty));
                    assert(header_run(t, pos as int, st) == Err::<HeaderState, PlyError>(PlyError::ListProperty));
                    assert(header_layout(text@) == Err::<Seq<ElementView>, PlyError>(PlyError::ListProperty));
                }
                return Err(PlyError::ListProperty);
            }
            match Scalar::from_name(w1) {
                None => {
                    proof {
                    assert(header_step(t, pos as int, le as int, st) == Err::<HeaderState, PlyError>(PlyError::UnknownPropertyType { start: s1, end: e1 }));
                    assert(header_run(t, pos as int, st) == Err::<HeaderState, PlyError>(PlyError::UnknownPropertyType { start: s1, end: e1 }));
                    assert(header_layout(text@) == Err::<Seq<ElementView>, PlyError>(PlyError::UnknownPropertyType { start: s1, end: e1 }));
                }
                return Err(PlyError::UnknownPropertyType { start: s1, end: e1 });
                },
                Some(ty) => {
                    if elements.len() == 0 {
                        proof {
                    assert(header_step(t, pos as int, le as int, st) == Err::<HeaderState, PlyError>(PlyError::PropertyBeforeElement));
                    assert(header_run(t, pos as int, st) == Err::<HeaderState, PlyError>(PlyError::PropertyBeforeElement));
                    assert(header_layout(text@) == Err::<Seq<ElementView>, PlyError>(PlyError::PropertyBeforeElement));
                }
                return Err(PlyError::PropertyBeforeElement);
                    }
                    let mut el = elements.pop().unwrap();
                    let ghost popped = elements@;
                    let ghost old_el = el;
                    proof {
                        assert(old_elements =~= popped.push(old_el));
                        assert(old_el.stride <= pos);
                        assert(word_property().len() == 8);
                        assert(w0@ == text@.subrange(s0 as int, e0 as int));
                        assert(e0 - s0 == 8);
                    }
                    let offset = el.stride;
                    let name = vstd::slice::slice_to_vec(w2);
                    let p = Prop { name, ty, offset };
                    el.props.push(p);
                    el.stride = el.stride + ty.size();
                    proof {
                        assert(props_view(el.props@) =~= props_view(old_el.props@).push(p@));
                    }
                    elements.push(el);
                    proof {
                        assert(elements_view(elements@) =~= elements_view(old_elements).update(
                            old_elements.len() - 1,
                            el@,
                        ));
                    }
                },
            }
        }
        proof {
            assert(header_run(t, pos as int, st) == header_run(
                t,
                le + 1,
                HeaderState { elements: elements_view(elements@), format_ok: format_ok },
            ));
        }
        pos = if le < text.len() {
            le + 1
        } else {
            text.len()
        };
    }
    if !format_ok {
        return Err(PlyError::MissingFormat);
    }
    let ghost els0 = elements_view(elements@);
    let n = elements.len();
    let mut out: Vec<Element> = Vec::new();
    let mut cursor: usize = 0;
    let mut i: usize = 0;
    assert forall|j: int| 0 <= j < els0.len() implies (#[trigger] els0[j]).stride >= 0
        && els0[j].count >= 0 by {}
    while i < n
        invariant
            i <= n,
            n == els0.len(),
            elements@.len() == n - i,
            out@.len() == i,
            forall|k: int| 0 <= k < n - i ==> (#[trigger] elements@[k])@ == els0[i + k],
            forall|k: int| 0 <= k < i ==> (#[trigger] out@[k])@ == with_starts(els0)[k],
            cursor == layout_end(els0, i as int),
            forall|j: int| 0 <= j < els0.len() ==> (#[trigger] els0[j]).stride >= 0
                && els0[j].count >= 0,
            header_layout(text@) == if layout_end(els0, n as int) > usize::MAX {
                Err::<Seq<ElementView>, PlyError>(PlyError::LayoutOverflow)
            } else {
                Ok(with_starts(els0))
            },
        decreases n - i,
    {
        let ghost before = elements@;
        let mut el = elements.remove(0);
        proof {
            assert(el@ == els0[i as int]);
            assert forall|k: int| 0 <= k < n - i - 1 implies (#[trigger] elements@[k])@ == els0[i + 1
                + k] by {
                assert(elements@[k] == before[k + 1]);
            }
        }
        let prod = match el.stride.checked_mul(el.count) {
            None => {
                proof {
                    lemma_layout_end_monotone(els0, i as int + 1, n as int);
                }
                return Err(PlyError::LayoutOverflow);
            },
            Some(p) => p,
        };
        el.start = cursor;
        let ghost pushed = el;
        out.push(el);
        proof {
            assert(pushed@ == with_starts(els0)[i as int]);
        }
        cursor = match cursor.checked_add(prod) {
            None => {
                proof {
                    lemma_layout_end_monotone(els0, i as int + 1, n as int);
                }
                return Err(PlyError::LayoutOverflow);
            },
            Some(c) => c,
        };
        i += 1;
    }
    proof {
        assert(elements_view(out@) =~= with_starts(els0));
    }
    Ok(out)
}

} // verus!

verus! {

// ---------------------------------------------------------------------------
// Looking up properties and rows
// ---------------------------------------------------------------------------

/// Position of the first property named `name`, searching from `k` on.
pub open spec fn find_prop(props: Seq<PropView>, name: Seq<u8>, k: int) -> Option<int>
    decreases props.len() - k,
{
    if k < 0 || k >= props.len() {
        None
    } else if props[k].name == name {
        Some(k)
    } else {
        find_prop(props, name, k + 1)
    }
}

/// The property found by name is the first one with that name; none is found only when
/// no property from `k` on has it.
pub proof fn lemma_find_prop(props: Seq<PropView>, name: Seq<u8>, k: int)
    requires
        0 <= k,
    ensures
        find_prop(props, name, k) matches Some(i) ==> k <= i < props.len() && props[i].name
            == name && forall|j: int| k <= j < i ==> props[j].name != name,
        find_prop(props, name, k) is None ==> forall|j: int|
            k <= j < props.len() ==> props[j].name != name,
    decreases props.len() - k,
{
    if k < props.len() && props[k].name != name {
        lemma_find_prop(props, name, k + 1);
    }
}

impl Element {
    /// Index of the first property of this element named `name`.
    pub fn prop_index(&self, name: &[u8]) -> (r: Option<usize>)
        ensures
            r matches Some(i) ==> find_prop(self@.props, name@, 0) == Some(i as int),
            r is None ==> find_prop(self@.props, name@, 0) is None,
    {
        let mut k: usize = 0;
        while k < self.props.len()
            invariant
                k <= self.props@.len(),
                find_prop(self@.props, name@, 0) == find_prop(self@.props, name@, k as int),
            decreases self.props.len() - k,
        {
            if bytes_eq(self.props[k].name.as_slice(), name) {
                return Some(k);
            }
            k += 1;
        }
        None
    }

    /// The first property of this element named `name`.
    pub fn prop(&self, name: &[u8]) -> (r: Option<&Prop>)
        ensures
            r matches Some(p) ==> exists|i: int|
                find_prop(self@.props, name@, 0) == Some(i) && p@ == self@.props[i],
            r is None ==> find_prop(self@.props, name@, 0) is None,
    {
        match self.prop_index(name) {
            Some(i) => {
                proof {
                    lemma_find_prop(self@.props, name@, 0);
                }
                Some(&self.props[i])
            },
            None => None,
        }
    }

    /// Whether this element declares a property named `name`.
    pub fn has(&self, name: &[u8]) -> (r: bool)
        ensures
            r == find_prop(self@.props, name@, 0) is Some,
    {
        self.prop_index(name).is_some()
    }

    /// Byte slice of row `i` of this element within the body `data`.
    pub fn row<'a>(&self, data: &'a [u8], i: usize) -> (r: &'a [u8])
        requires
            self.start + i * self.stride + self.stride <= data.len(),
        ensures
            r@ == data@.subrange(
                self.start + i * self.stride,
                self.start + i * self.stride + self.stride,
            ),
    {
        proof {
            assert(0 <= i * self.stride) by (nonlinear_arith);
        }
        let off = self.start + i * self.stride;
        &data[off..off + self.stride]
    }
}

// ---------------------------------------------------------------------------
// Where the header ends
// ---------------------------------------------------------------------------

/// How far into the file `end_header` is looked for: the first MiB.
pub open spec fn header_search_limit(d: Seq<u8>) -> int {
    if d.len() < 0x10_0000 {
        d.len() as int
    } else {
        0x10_0000
    }
}

/// Whether `end_header` occurs at position `p` of `d`.
pub open spec fn end_header_at(d: Seq<u8>, p: int) -> bool {
    0 <= p && p + 10 <= d.len() && d.subrange(p, p + 10) == word_end_header()
}

/// First position at or after `p` where `end_header` occurs wholly before `limit`.
pub open spec fn find_end_header(d: Seq<u8>, p: int, limit: int) -> Option<int>
    decreases limit - p,
{
    if p < 0 || p + 10 > limit {
        None
    } else if end_header_at(d, p) {
        Some(p)
    } else {
        find_end_header(d, p + 1, limit)
    }
}

/// Where the body starts: just past the line feed that ends the `end_header` line. When
/// that line runs to the end of the file this is one past the end.
pub open spec fn body_start(d: Seq<u8>) -> Option<int> {
    match find_end_header(d, 0, header_search_limit(d)) {
        Some(p) => Some(line_end(d, p + 10) + 1),
        None => None,
    }
}

fn is_end_header(w: &[u8]) -> (r: bool)
    ensures
        r == (w@ == word_end_header()),
{
    let lit: [u8; 10] = [101, 110, 100, 95, 104, 101, 97, 100, 101, 114];
    assert(lit@ =~= word_end_header());
    bytes_eq(w, &lit)
}

/// Offset of the first body byte, or `None` when there is no `end_header` in the first
/// MiB.
pub fn header_end(data: &[u8]) -> (r: Option<usize>)
    requires
        data.len() < usize::MAX,
    ensures
        r matches Some(b) ==> body_start(data@) == Some(b as int),
        r is None ==> body_start(data@) is None,
{
    let limit: usize = if data.len() < 0x10_0000 {
        data.len()
    } else {
        0x10_0000
    };
    let mut p: usize = 0;
    while p + 10 <= limit
        invariant
            limit == header_search_limit(data@),
            p <= limit,
            limit <= data.len(),
            data.len() < usize::MAX,
            find_end_header(data@, 0, limit as int) == find_end_header(data@, p as int, limit as int),
        decreases limit - p,
    {
        if is_end_header(&data[p..p + 10]) {
            let i = find_line_end(data, p + 10);
            proof {
                lemma_line_end_bounds(data@, p + 10);
            }
            return Some(i + 1);
        }
        p += 1;
    }
    None
}

} // verus!

verus! {

// ---------------------------------------------------------------------------
// Higher spherical-harmonic bands: `f_rest_0`, `f_rest_1`, ...
// ---------------------------------------------------------------------------

/// Decimal digits of `k`, most significant first.
pub open spec fn decimal_digits(k: nat) -> Seq<u8>
    decreases k,
{
    if k < 10 {
        seq![(48 + k) as u8]
    } else {
        decimal_digits(k / 10).push((48 + k % 10) as u8)
    }
}

/// `f_rest_` followed by the decimal digits of `k`.
pub open spec fn rest_name(k: nat) -> Seq<u8> {
    seq![102u8, 95, 114, 101, 115, 116, 95] + decimal_digits(k)
}

proof fn lemma_decimal_len(k: nat)
    ensures
        decimal_digits(k).len() >= 1,
        k >= 10 ==> decimal_digits(k).len() >= 2,
    decreases k,
{
    if k >= 10 {
        lemma_decimal_len(k / 10);
    }
}

proof fn lemma_decimal_injective(a: nat, b: nat)
    requires
        decimal_digits(a) == decimal_digits(b),
    ensures
        a == b,
    decreases a,
{
    lemma_decimal_len(a);
    lemma_decimal_len(b);
    if a < 10 && b < 10 {
        assert(decimal_digits(a)[0] == decimal_digits(b)[0]);
        assert(decimal_digits(a)[0] == 48 + a);
    } else if a >= 10 && b >= 10 {
        let da = decimal_digits(a);
        let db = decimal_digits(b);
        assert(da.last() == db.last());
        assert(da.drop_last() =~= decimal_digits(a / 10));
        assert(db.drop_last() =~= decimal_digits(b / 10));
        lemma_decimal_injective(a / 10, b / 10);
        assert(a % 10 == b % 10);
        assert(a == (a / 10) * 10 + a % 10) by (nonlinear_arith);
        assert(b == (b / 10) * 10 + b % 10) by (nonlinear_arith);
    } else {
        assert(decimal_digits(a).len() != decimal_digits(b).len());
    }
}

proof fn lemma_rest_name_injective(a: nat, b: nat)
    requires
        rest_name(a) == rest_name(b),
    ensures
        a == b,
{
    let prefix = seq![102u8, 95, 114, 101, 115, 116, 95];
    assert(rest_name(a).subrange(7, rest_name(a).len() as int) =~= decimal_digits(a));
    assert(rest_name(b).subrange(7, rest_name(b).len() as int) =~= decimal_digits(b));
    lemma_decimal_injective(a, b);
}

/// An element cannot declare more consecutive `f_rest_*` properties than it has.
proof fn lemma_rest_run_bounded(props: Seq<PropView>, k: nat)
    requires
        forall|j: nat| j <= k ==> #[trigger] find_prop(props, rest_name(j), 0) is Some,
    ensures
        k < props.len(),
{
    let dom = vstd::set_lib::set_int_range(0, k as int + 1);
    let range = vstd::set_lib::set_int_range(0, props.len() as int);
    let f = |j: int| find_prop(props, rest_name(j as nat), 0)->0;
    let img = dom.map(f);
    vstd::set_lib::lemma_int_range(0, k as int + 1);
    vstd::set_lib::lemma_int_range(0, props.len() as int);
    assert forall|j: int| dom.contains(j) implies 0 <= #[trigger] f(j) < props.len() && props[f(
        j,
    )].name == rest_name(j as nat) by {
        assert(find_prop(props, rest_name(j as nat), 0) is Some);
        lemma_find_prop(props, rest_name(j as nat), 0);
    }
    assert(vstd::relations::injective_on(f, dom)) by {
        assert forall|a: int, b: int|
            dom.contains(a) && dom.contains(b) && #[trigger] f(a) == #[trigger] f(b) implies a
            == b by {
            lemma_rest_name_injective(a as nat, b as nat);
        }
    }
    vstd::set_lib::lemma_map_size(dom, img, f);
    assert(img.subset_of(range));
    vstd::set_lib::lemma_len_subset(img, range);
}

fn push_decimal(out: &mut Vec<u8>, k: usize)
    ensures
        final(out)@ == old(out)@ + decimal_digits(k as nat),
    decreases k,
{
    if k >= 10 {
        push_decimal(out, k / 10);
    }
    let ghost mid = out@;
    out.push((48 + k % 10) as u8);
    proof {
        if k >= 10 {
            assert(out@ =~= old(out)@ + decimal_digits(k as nat));
        } else {
            assert(out@ =~= old(out)@ + decimal_digits(k as nat));
        }
    }
}

/// The property name `f_rest_<k>`.
pub fn rest_name_bytes(k: usize) -> (r: Vec<u8>)
    ensures
        r@ == rest_name(k as nat),
{
    let mut r = vec![102u8, 95, 114, 101, 115, 116, 95];
    push_decimal(&mut r, k);
    proof {
        assert(r@ =~= rest_name(k as nat));
    }
    r
}

/// Indices of the element's `f_rest_0`, `f_rest_1`, ... properties, up to the first
/// number that is not declared.
pub fn rest_props(el: &Element) -> (rest: Vec<usize>)
    ensures
        forall|j: int|
            0 <= j < rest.len() ==> find_prop(el@.props, rest_name(j as nat), 0) == Some(
                #[trigger] rest@[j] as int,
            ),
        find_prop(el@.props, rest_name(rest.len() as nat), 0) is None,
{
    let mut rest: Vec<usize> = Vec::new();
    while rest.len() < el.props.len()
        invariant
            rest.len() <= el.props@.len(),
            forall|j: int|
                0 <= j < rest.len() ==> find_prop(el@.props, rest_name(j as nat), 0) == Some(
                    #[trigger] rest@[j] as int,
                ),
        decreases el.props.len() - rest.len(),
    {
        let name = rest_name_bytes(rest.len());
        match el.prop_index(name.as_slice()) {
            Some(i) => {
                rest.push(i);
            },
            None => {
                return rest;
            },
        }
    }
    proof {
        if find_prop(el@.props, rest_name(rest.len() as nat), 0) is Some {
            assert forall|j: nat| j <= rest.len() implies #[trigger] find_prop(
                el@.props,
                rest_name(j),
                0,
            ) is Some by {
                if j < rest.len() {
                    assert(find_prop(el@.props, rest_name(j as nat), 0) == Some(
                        rest@[j as int] as int,
                    ));
                }
            }
            lemma_rest_run_bounded(el@.props, rest.len() as nat);
        }
    }
    rest
}

/// Spherical-harmonic degree of an uncompressed scene from its number of `f_rest_*`
/// properties: 45, 24 and 9 mean degrees 3, 2 and 1; anything else means none.
pub open spec fn spec_sh_degree_for_rest(count: int) -> u32 {
    if count == 45 {
        3
    } else if count == 24 {
        2
    } else if count == 9 {
        1
    } else {
        0
    }
}

/// Coefficients stored per colour channel at a given degree.
pub open spec fn spec_coeffs_per_channel(degree: u32) -> usize {
    if degree == 3 {
        15
    } else if degree == 2 {
        8
    } else if degree == 1 {
        3
    } else {
        0
    }
}

/// Spherical-harmonic degree of a compressed scene from its coefficients per channel.
pub open spec fn spec_sh_degree_for_channel(per_channel: int) -> u32 {
    if per_channel == 15 {
        3
    } else if per_channel == 8 {
        2
    } else if per_channel == 3 {
        1
    } else {
        0
    }
}

/// SH degree of an uncompressed scene with `count` contiguous `f_rest_*` properties.
pub fn sh_degree_for_rest(count: usize) -> (r: u32)
    ensures
        r == spec_sh_degree_for_rest(count as int),
{
    if count == 45 {
        3
    } else if count == 24 {
        2
    } else if count == 9 {
        1
    } else {
        0
    }
}

/// Higher-band coefficients per colour channel at an SH degree.
pub fn coeffs_per_channel(degree: u32) -> (r: usize)
    ensures
        r == spec_coeffs_per_channel(degree),
{
    if degree == 3 {
        15
    } else if degree == 2 {
        8
    } else if degree == 1 {
        3
    } else {
        0
    }
}

/// SH degree of compressed bands with `per_channel` coefficients per channel.
pub fn sh_degree_for_channel(per_channel: usize) -> (r: u32)
    ensures
        r == spec_sh_degree_for_channel(per_channel as int),
{
    if per_channel == 15 {
        3
    } else if per_channel == 8 {
        2
    } else if per_channel == 3 {
        1
    } else {
        0
    }
}

/// Higher-band coefficients kept per colour channel and splat, whatever the degree.
pub const SH_CHANNEL_SLOTS: usize = 15;

/// Higher-band coefficients kept per splat: three channels of `SH_CHANNEL_SLOTS`.
pub const SH_SLOTS: usize = 45;

/// Where slot `s` of a splat's higher bands comes from. The bands are channel-major, all
/// of red, then green, then blue, each channel padded to `SH_CHANNEL_SLOTS`; the file
/// stores `per_channel` coefficients per channel in the same order, so slot `s` holds
/// property `rest[c * per_channel + k]` for channel `c = s / 15` and `k = s % 15`, or
/// nothing (zero) past the file's degree.
pub open spec fn sh_slot_source(rest: Seq<usize>, per_channel: int, s: int) -> Option<usize> {
    let c = s / SH_CHANNEL_SLOTS as int;
    let k = s % SH_CHANNEL_SLOTS as int;
    if k < per_channel {
        Some(rest[c * per_channel + k])
    } else {
        None
    }
}

/// The property feeding each of a splat's `SH_SLOTS` higher-band slots.
pub fn sh_slots(rest: &[usize], per_channel: usize) -> (r: Vec<Option<usize>>)
    requires
        per_channel <= SH_CHANNEL_SLOTS,
        3 * per_channel <= rest@.len(),
    ensures
        r@.len() == SH_SLOTS,
        forall|s: int| 0 <= s < SH_SLOTS ==> #[trigger] r@[s] == sh_slot_source(rest@, per_channel as int, s),
{
    let mut r: Vec<Option<usize>> = Vec::new();
    let mut c: usize = 0;
    while c < 3
        invariant
            c <= 3,
            per_channel <= SH_CHANNEL_SLOTS,
            3 * per_channel <= rest@.len(),
            r@.len() == c * SH_CHANNEL_SLOTS,
            forall|s: int| 0 <= s < r@.len() ==> #[trigger] r@[s] == sh_slot_source(rest@, per_channel as int, s),
        decreases 3 - c,
    {
        let mut k: usize = 0;
        while k < SH_CHANNEL_SLOTS
            invariant
                c < 3,
                k <= SH_CHANNEL_SLOTS,
                per_channel <= SH_CHANNEL_SLOTS,
                3 * per_channel <= rest@.len(),
                r@.len() == c * SH_CHANNEL_SLOTS + k,
                forall|s: int| 0 <= s < r@.len() ==> #[trigger] r@[s] == sh_slot_source(rest@, per_channel as int, s),
            decreases SH_CHANNEL_SLOTS - k,
        {
            let s: Ghost<int> = Ghost(c * SH_CHANNEL_SLOTS + k);
            proof {
                vstd::arithmetic::div_mod::lemma_fundamental_div_mod_converse(
                    s@,
                    SH_CHANNEL_SLOTS as int,
                    c as int,
                    k as int,
                );
            }
            let slot = if k < per_channel {
                assert(c * per_channel + k < 3 * per_channel) by (nonlinear_arith)
                    requires
                        c < 3,
                        k < per_channel,
                ;
                Some(rest[c * per_channel + k])
            } else {
                None
            };
            r.push(slot);
            k += 1;
        }
        c += 1;
    }
    r
}

} // verus!

verus! {

// ---------------------------------------------------------------------------
// Scene layout: which element holds the splats and where each decoded value lives
// ---------------------------------------------------------------------------

/// `vertex`
pub open spec fn word_vertex() -> Seq<u8> {
    seq![118u8, 101, 114, 116, 101, 120]
}

/// `chunk`
pub open spec fn word_chunk() -> Seq<u8> {
    seq![99u8, 104, 117, 110, 107]
}

/// `sh`
pub open spec fn word_sh() -> Seq<u8> {
    seq![115u8, 104]
}

/// Names of the per-chunk bounds of a compressed scene, in storage order: position
/// minimum and maximum, log-scale minimum and maximum, colour minimum and maximum.
pub open spec fn chunk_bound_names() -> Seq<Seq<u8>> {
    seq![

        // min_x
        seq![109u8, 105, 110, 95, 120],
        // min_y
        seq![109u8, 105, 110, 95, 121],
        // min_z
        seq![109u8, 105, 110, 95, 122],
        // max_x
        seq![109u8, 97, 120, 95, 120],
        // max_y
        seq![109u8, 97, 120, 95, 121],
        // max_z
        seq![109u8, 97, 120, 95, 122],
        // min_scale_x
        seq![109u8, 105, 110, 95, 115, 99, 97, 108, 101, 95, 120],
        // min_scale_y
        seq![109u8, 105, 110, 95, 115, 99, 97, 108, 101, 95, 121],
        // min_scale_z
        seq![109u8, 105, 110, 95, 115, 99, 97, 108, 101, 95, 122],
        // max_scale_x
        seq![109u8, 97, 120, 95, 115, 99, 97, 108, 101, 95, 120],
        // max_scale_y
        seq![109u8, 97, 120, 95, 115, 99, 97, 108, 101, 95, 121],
        // max_scale_z
        seq![109u8, 97, 120, 95, 115, 99, 97, 108, 101, 95, 122],
        // min_r
        seq![109u8, 105, 110, 95, 114],
        // min_g
        seq![109u8, 105, 110, 95, 103],
        // min_b
        seq![109u8, 105, 110, 95, 98],
        // max_r
        seq![109u8, 97, 120, 95, 114],
        // max_g
        seq![109u8, 97, 120, 95, 103],
        // max_b
        seq![109u8, 97, 120, 95, 98],
    ]
}

/// The chunk bounds come in six groups of three: minimum then maximum of the position,
/// minimum then maximum of the log scale, minimum then maximum of the colour. Bound `j`
/// is named `min_` or `max_` (by the parity of `j / 3`), then `scale_` for the scale
/// bounds, then the axis `x`, `y`, `z` (or the channel `r`, `g`, `b` for the colour
/// bounds) given by `j % 3`.
pub proof fn lemma_chunk_bound_names_structure()
    ensures
        chunk_bound_names().len() == CHUNK_BOUNDS,
        forall|j: int|
            0 <= j < CHUNK_BOUNDS ==> #[trigger] chunk_bound_names()[j] == (if (j / 3) % 2 == 0 {
                seq![109u8, 105, 110, 95]
            } else {
                seq![109u8, 97, 120, 95]
            }) + (if 6 <= j < 12 {
                seq![115u8, 99, 97, 108, 101, 95]
            } else {
                Seq::<u8>::empty()
            }) + seq![
                if j < 12 {
                    seq![120u8, 121, 122][j % 3]
                } else {
                    seq![114u8, 103, 98][j % 3]
                },
            ],
{
    let min = seq![109u8, 105, 110, 95];
    let max = seq![109u8, 97, 120, 95];
    let scale = seq![115u8, 99, 97, 108, 101, 95];
    let none = Seq::<u8>::empty();
    assert(chunk_bound_names()[0] =~= min + none + seq![120u8]);
    assert(chunk_bound_names()[1] =~= min + none + seq![121u8]);
    assert(chunk_bound_names()[2] =~= min + none + seq![122u8]);
    assert(chunk_bound_names()[3] =~= max + none + seq![120u8]);
    assert(chunk_bound_names()[4] =~= max + none + seq![121u8]);
    assert(chunk_bound_names()[5] =~= max + none + seq![122u8]);
    assert(chunk_bound_names()[6] =~= min + scale + seq![120u8]);
    assert(chunk_bound_names()[7] =~= min + scale + seq![121u8]);
    assert(chunk_bound_names()[8] =~= min + scale + seq![122u8]);
    assert(chunk_bound_names()[9] =~= max + scale + seq![120u8]);
    assert(chunk_bound_names()[10] =~= max + scale + seq![121u8]);
    assert(chunk_bound_names()[11] =~= max + scale + seq![122u8]);
    assert(chunk_bound_names()[12] =~= min + none + seq![114u8]);
    assert(chunk_bound_names()[13] =~= min + none + seq![103u8]);
    assert(chunk_bound_names()[14] =~= min + none + seq![98u8]);
    assert(chunk_bound_names()[15] =~= max + none + seq![114u8]);
    assert(chunk_bound_names()[16] =~= max + none + seq![103u8]);
    assert(chunk_bound_names()[17] =~= max + none + seq![98u8]);
}

/// Number of per-chunk bounds.
pub const CHUNK_BOUNDS: usize = 18;

/// Index of `min_r` among the chunk bounds: the first colour bound.
pub const FIRST_COLOR_BOUND: usize = 12;

/// The name of chunk bound `j`.
pub fn chunk_bound_name(j: usize) -> (r: Vec<u8>)
    requires
        j < CHUNK_BOUNDS,
    ensures
        r@ == chunk_bound_names()[j as int],
{
    let r = if j == 0 {
        vec![109, 105, 110, 95, 120]
    } else if j == 1 {
        vec![109, 105, 110, 95, 121]
    } else if j == 2 {
        vec![109, 105, 110, 95, 122]
    } else if j == 3 {
        vec![109, 97, 120, 95, 120]
    } else if j == 4 {
        vec![109, 97, 120, 95, 121]
    } else if j == 5 {
        vec![109, 97, 120, 95, 122]
    } else if j == 6 {
        vec![109, 105, 110, 95, 115, 99, 97, 108, 101, 95, 120]
    } else if j == 7 {
        vec![109, 105, 110, 95, 115, 99, 97, 108, 101, 95, 121]
    } else if j == 8 {
        vec![109, 105, 110, 95, 115, 99, 97, 108, 101, 95, 122]
    } else if j == 9 {
        vec![109, 97, 120, 95, 115, 99, 97, 108, 101, 95, 120]
    } else if j == 10 {
        vec![109, 97, 120, 95, 115, 99, 97, 108, 101, 95, 121]
    } else if j == 11 {
        vec![109, 97, 120, 95, 115, 99, 97, 108, 101, 95, 122]
    } else if j == 12 {
        vec![109, 105, 110, 95, 114]
    } else if j == 13 {
        vec![109, 105, 110, 95, 103]
    } else if j == 14 {
        vec![109, 105, 110, 95, 98]
    } else if j == 15 {
        vec![109, 97, 120, 95, 114]
    } else if j == 16 {
        vec![109, 97, 120, 95, 103]
    } else {
        vec![109, 97, 120, 95, 98]
    };
    proof {
        assert(r@ =~= chunk_bound_names()[j as int]);
    }
    r
}

} // verus!

verus! {

/// Position of the first element named `name`, searching from `k` on.
pub open spec fn find_element(els: Seq<ElementView>, name: Seq<u8>, k: int) -> Option<int>
    decreases els.len() - k,
{
    if k < 0 || k >= els.len() {
        None
    } else if els[k].name == name {
        Some(k)
    } else {
        find_element(els, name, k + 1)
    }
}

/// The element found by name has that name and lies in the list.
pub proof fn lemma_find_element(els: Seq<ElementView>, name: Seq<u8>, k: int)
    requires
        0 <= k,
    ensures
        find_element(els, name, k) matches Some(i) ==> k <= i < els.len() && els[i].name == name,
    decreases els.len() - k,
{
    if k < els.len() && els[k].name != name {
        lemma_find_element(els, name, k + 1);
    }
}

/// Index of the first element named `name`.
pub fn element_index(els: &Vec<Element>, name: &[u8]) -> (r: Option<usize>)
    ensures
        r matches Some(i) ==> find_element(elements_view(els@), name@, 0) == Some(i as int),
        r is None ==> find_element(elements_view(els@), name@, 0) is None,
{
    let ghost ev = elements_view(els@);
    let mut k: usize = 0;
    while k < els.len()
        invariant
            k <= els@.len(),
            ev == elements_view(els@),
            find_element(ev, name@, 0) == find_element(ev, name@, k as int),
        decreases els.len() - k,
    {
        assert(ev[k as int] == els@[k as int]@);
        if bytes_eq(els[k].name.as_slice(), name) {
            return Some(k);
        }
        k += 1;
    }
    None
}

/// The properties an uncompressed scene must declare, in the order they are checked.
pub open spec fn base_fields() -> Seq<Field> {
    seq![
        Field::X,
        Field::Y,
        Field::Z,
        Field::Scale0,
        Field::Scale1,
        Field::Scale2,
        Field::Rot0,
        Field::Rot1,
        Field::Rot2,
        Field::Rot3,
        Field::Opacity,
        Field::FDc0,
        Field::FDc1,
        Field::FDc2,
    ]
}

/// The packed properties a compressed scene must declare besides `packed_position`.
pub open spec fn packed_fields() -> Seq<Field> {
    seq![Field::PackedRotation, Field::PackedScale, Field::PackedColor]
}

/// The first of `fields`, from `k` on, that `props` does not declare.
pub open spec fn first_missing(props: Seq<PropView>, fields: Seq<Field>, k: int) -> Option<Field>
    decreases fields.len() - k,
{
    if k < 0 || k >= fields.len() {
        None
    } else if find_prop(props, fields[k].spec_name(), 0) is None {
        Some(fields[k])
    } else {
        first_missing(props, fields, k + 1)
    }
}

/// The indices of an element's `f_rest_*` properties: all of `f_rest_0` up to the first
/// one that is missing.
pub open spec fn rest_indices(props: Seq<PropView>, rest: Seq<usize>) -> bool {
    &&& forall|j: int|
        0 <= j < rest.len() ==> find_prop(props, rest_name(j as nat), 0) == Some(
            #[trigger] rest[j] as int,
        )
    &&& find_prop(props, rest_name(rest.len() as nat), 0) is None
}

/// Where an uncompressed scene keeps each value, as indices into the vertex properties.
#[derive(Debug)]
pub struct UncompressedLayout {
    /// One index per entry of the base fields: position, log scale, rotation, opacity
    /// logit and DC colour.
    pub base: Vec<usize>,
    /// `f_rest_0`, `f_rest_1`, ...
    pub rest: Vec<usize>,
    pub sh_degree: u32,
    pub coeffs_per_channel: usize,
}

/// The optional quantized higher bands of a compressed scene, one `sh` row per splat.
#[derive(Debug)]
pub struct ShBands {
    /// Index of the `sh` element.
    pub element: usize,
    /// Its `f_rest_0`, `f_rest_1`, ... properties.
    pub rest: Vec<usize>,
    pub per_channel: usize,
    pub degree: u32,
    /// Whether the bands are decoded: they must form a known degree and cover every
    /// vertex.
    pub used: bool,
}

/// Where a compressed scene keeps each value.
#[derive(Debug)]
pub struct CompressedLayout {
    /// Index of the `chunk` element.
    pub chunk: usize,
    /// For each chunk bound name, its property in the chunk element, if declared.
    pub bounds: Vec<Option<usize>>,
    /// Whether the chunks carry colour bounds (`min_r`).
    pub has_color_bounds: bool,
    pub packed_position: usize,
    pub packed_rotation: usize,
    pub packed_scale: usize,
    pub packed_color: usize,
    pub sh: Option<ShBands>,
}

/// How the splats are encoded.
#[derive(Debug)]
pub enum Encoding {
    Uncompressed(UncompressedLayout),
    Compressed(CompressedLayout),
}

/// Everything needed to decode the splats of a scene file.
#[derive(Debug)]
pub struct SceneLayout {
    /// Offset of the first body byte.
    pub body_at: usize,
    /// The header's elements, laid out in the body.
    pub elements: Vec<Element>,
    /// Index of the `vertex` element.
    pub vertex: usize,
    pub encoding: Encoding,
}

pub open spec fn index_of(o: Option<int>) -> Option<usize> {
    match o {
        Some(i) => Some(i as usize),
        None => None,
    }
}

pub open spec fn uncompressed_describes(v: ElementView, u: UncompressedLayout) -> bool {
    &&& u.base@.len() == base_fields().len()
    &&& forall|k: int|
        0 <= k < base_fields().len() ==> find_prop(v.props, base_fields()[k].spec_name(), 0)
            == Some(#[trigger] u.base@[k] as int)
    &&& rest_indices(v.props, u.rest@)
    &&& u.sh_degree == spec_sh_degree_for_rest(u.rest@.len() as int)
    &&& u.coeffs_per_channel == spec_coeffs_per_channel(u.sh_degree)
}

pub open spec fn compressed_describes(
    els: Seq<ElementView>,
    v: ElementView,
    c: CompressedLayout,
) -> bool {
    &&& find_element(els, word_chunk(), 0) == Some(c.chunk as int)
    &&& c.bounds@.len() == CHUNK_BOUNDS
    &&& forall|j: int|
        0 <= j < CHUNK_BOUNDS ==> #[trigger] c.bounds@[j] == index_of(
            find_prop(els[c.chunk as int].props, chunk_bound_names()[j], 0),
        )
    &&& c.has_color_bounds == find_prop(
        els[c.chunk as int].props,
        chunk_bound_names()[FIRST_COLOR_BOUND as int],
        0,
    ) is Some
    &&& find_prop(v.props, Field::PackedPosition.spec_name(), 0) == Some(c.packed_position as int)
    &&& find_prop(v.props, Field::PackedRotation.spec_name(), 0) == Some(c.packed_rotation as int)
    &&& find_prop(v.props, Field::PackedScale.spec_name(), 0) == Some(c.packed_scale as int)
    &&& find_prop(v.props, Field::PackedColor.spec_name(), 0) == Some(c.packed_color as int)
    &&& match find_element(els, word_sh(), 0) {
        None => c.sh is None,
        Some(si) => c.sh matches Some(b) && {
            &&& b.element == si
            &&& rest_indices(els[si].props, b.rest@)
            &&& b.per_channel == b.rest@.len() / 3
            &&& b.degree == spec_sh_degree_for_channel(b.per_channel as int)
            &&& b.used == (b.degree > 0 && els[si].count >= v.count)
        },
    }
}

/// Where the first `rows` rows of an element end in the body.
pub open spec fn rows_end(e: ElementView, rows: int) -> int {
    e.start + e.stride * rows
}

/// `f_rest_0` to `f_rest_{n-1}` are all declared and `f_rest_n` is not.
pub open spec fn is_rest_run(props: Seq<PropView>, n: int) -> bool {
    &&& 0 <= n
    &&& forall|j: int| 0 <= j < n ==> #[trigger] find_prop(props, rest_name(j as nat), 0) is Some
    &&& find_prop(props, rest_name(n as nat), 0) is None
}

/// How many `f_rest_*` properties are declared contiguously from `f_rest_0`.
pub open spec fn rest_run_len(props: Seq<PropView>) -> int {
    choose|n: int| is_rest_run(props, n)
}

/// The run of `f_rest_*` properties has exactly the length of any complete list of them.
proof fn lemma_rest_run_len(props: Seq<PropView>, rest: Seq<usize>)
    requires
        rest_indices(props, rest),
    ensures
        rest_run_len(props) == rest.len(),
{
    assert forall|j: int| 0 <= j < rest.len() implies #[trigger] find_prop(
        props,
        rest_name(j as nat),
        0,
    ) is Some by {
        assert(find_prop(props, rest_name(j as nat), 0) == Some(rest[j] as int));
    }
    assert(is_rest_run(props, rest.len() as int));
    let n = rest_run_len(props);
    assert(is_rest_run(props, n));
    if n < rest.len() {
        assert(find_prop(props, rest_name(n as nat), 0) == Some(rest[n] as int));
    } else if n > rest.len() {
        assert(find_prop(props, rest_name(rest.len() as nat), 0) is Some);
    }
}

/// Whether a compressed scene decodes the higher bands of its `sh` element `s`: they form
/// a known degree and there is a row for every splat.
pub open spec fn sh_bands_used(s: ElementView, v: ElementView) -> bool {
    spec_sh_degree_for_channel(rest_run_len(s.props) / 3) > 0 && s.count >= v.count
}

/// The refusal, if any, for the rows a compressed scene reads beyond its vertex rows,
/// given `have` body bytes: the chunk rows must be there, there must be one when there
/// are splats, and each splat's row of decoded higher bands must be there.
pub open spec fn compressed_rows_error(have: int, els: Seq<ElementView>, v: ElementView) -> Option<
    PlyError,
> {
    match find_element(els, word_chunk(), 0) {
        None => None,
        Some(ci) => {
            let c = els[ci];
            if have < rows_end(c, c.count as int) {
                Some(
                    PlyError::Truncated {
                        have: have as usize,
                        need: rows_end(c, c.count as int) as usize,
                    },
                )
            } else if v.count > 0 && c.count == 0 {
                Some(PlyError::NoChunkRows)
            } else {
                match find_element(els, word_sh(), 0) {
                    Some(si) => if sh_bands_used(els[si], v) && have < rows_end(
                        els[si],
                        v.count as int,
                    ) {
                        Some(
                            PlyError::Truncated {
                                have: have as usize,
                                need: rows_end(els[si], v.count as int) as usize,
                            },
                        )
                    } else {
                        None
                    },
                    None => None,
                }
            }
        },
    }
}

/// The refusal, if any, for a scene whose header parsed into `els` with the body at `b`.
pub open spec fn scene_error(raw: Seq<u8>, b: int, els: Seq<ElementView>) -> Option<PlyError> {
    match find_element(els, word_vertex(), 0) {
        None => Some(PlyError::NoVertexElement),
        Some(vi) => {
            let v = els[vi];
            let need = v.start + v.stride * v.count;
            let have = raw.len() - b;
            if have < need {
                Some(PlyError::Truncated { have: have as usize, need: need as usize })
            } else if find_prop(v.props, Field::PackedPosition.spec_name(), 0) is Some {
                if find_element(els, word_chunk(), 0) is None {
                    Some(PlyError::NoChunkElement)
                } else {
                    match first_missing(v.props, packed_fields(), 0) {
                        Some(f) => Some(PlyError::MissingProperty(f)),
                        None => compressed_rows_error(have, els, v),
                    }
                }
            } else {
                match first_missing(v.props, base_fields(), 0) {
                    Some(f) => Some(PlyError::MissingProperty(f)),
                    None => None,
                }
            }
        },
    }
}

/// The refusal, if any, for a whole scene file.
pub open spec fn layout_error(raw: Seq<u8>) -> Option<PlyError> {
    match body_start(raw) {
        None => Some(PlyError::NoEndHeader),
        Some(b) => if b > raw.len() {
            Some(PlyError::UnterminatedHeader)
        } else {
            match header_layout(raw.subrange(0, b)) {
                Err(e) => Some(e),
                Ok(els) => scene_error(raw, b, els),
            }
        },
    }
}

/// `l` is the layout of the scene file `raw`.
pub open spec fn layout_describes(raw: Seq<u8>, l: SceneLayout) -> bool {
    let els = elements_view(l.elements@);
    &&& body_start(raw) == Some(l.body_at as int)
    &&& header_layout(raw.subrange(0, l.body_at as int)) == Ok::<Seq<ElementView>, PlyError>(els)
    &&& find_element(els, word_vertex(), 0) == Some(l.vertex as int)
    &&& els[l.vertex as int].start + els[l.vertex as int].stride * els[l.vertex as int].count
        <= raw.len() - l.body_at
    &&& match l.encoding {
        Encoding::Uncompressed(u) => find_prop(
            els[l.vertex as int].props,
            Field::PackedPosition.spec_name(),
            0,
        ) is None && uncompressed_describes(els[l.vertex as int], u),
        Encoding::Compressed(c) => {
            &&& find_prop(els[l.vertex as int].props, Field::PackedPosition.spec_name(), 0) is Some
            &&& compressed_describes(els, els[l.vertex as int], c)
            &&& rows_end(els[c.chunk as int], els[c.chunk as int].count as int) <= raw.len()
                - l.body_at
            &&& els[l.vertex as int].count > 0 ==> els[c.chunk as int].count > 0
            &&& match c.sh {
                Some(b) => b.used ==> rows_end(
                    els[b.element as int],
                    els[l.vertex as int].count as int,
                ) <= raw.len() - l.body_at,
                None => true,
            }
        },
    }
}

} // verus!

verus! {

/// Indices of `fields` among the element's properties, or the first one it lacks.
fn find_fields(el: &Element, fields: &Vec<Field>) -> (r: Result<Vec<usize>, Field>)
    ensures
        match r {
            Ok(idx) => first_missing(el@.props, fields@, 0) is None && idx@.len() == fields@.len()
                && forall|k: int|
                0 <= k < fields@.len() ==> find_prop(el@.props, fields@[k].spec_name(), 0) == Some(
                    #[trigger] idx@[k] as int,
                ),
            Err(f) => first_missing(el@.props, fields@, 0) == Some(f),
        },
{
    let mut idx: Vec<usize> = Vec::new();
    let mut k: usize = 0;
    while k < fields.len()
        invariant
            k <= fields@.len(),
            idx@.len() == k,
            first_missing(el@.props, fields@, 0) == first_missing(el@.props, fields@, k as int),
            forall|j: int|
                0 <= j < k ==> find_prop(el@.props, fields@[j].spec_name(), 0) == Some(
                    #[trigger] idx@[j] as int,
                ),
        decreases fields.len() - k,
    {
        let f = fields[k];
        let name = f.name();
        match el.prop_index(name.as_slice()) {
            Some(i) => {
                idx.push(i);
            },
            None => {
                return Err(f);
            },
        }
        k += 1;
    }
    Ok(idx)
}

fn base_field_list() -> (r: Vec<Field>)
    ensures
        r@ == base_fields(),
{
    let r = vec![
        Field::X,
        Field::Y,
        Field::Z,
        Field::Scale0,
        Field::Scale1,
        Field::Scale2,
        Field::Rot0,
        Field::Rot1,
        Field::Rot2,
        Field::Rot3,
        Field::Opacity,
        Field::FDc0,
        Field::FDc1,
        Field::FDc2,
    ];
    assert(r@ =~= base_fields());
    r
}

fn packed_field_list() -> (r: Vec<Field>)
    ensures
        r@ == packed_fields(),
{
    let r = vec![Field::PackedRotation, Field::PackedScale, Field::PackedColor];
    assert(r@ =~= packed_fields());
    r
}

/// Layout of an uncompressed vertex element.
pub fn uncompressed_layout(v: &Element) -> (r: Result<UncompressedLayout, PlyError>)
    ensures
        match r {
            Ok(u) => first_missing(v@.props, base_fields(), 0) is None && uncompressed_describes(
                v@,
                u,
            ),
            Err(e) => first_missing(v@.props, base_fields(), 0) matches Some(f) && e
                == PlyError::MissingProperty(f),
        },
{
    let fields = base_field_list();
    let base = match find_fields(v, &fields) {
        Ok(idx) => idx,
        Err(f) => {
            return Err(PlyError::MissingProperty(f));
        },
    };
    let rest = rest_props(v);
    let sh_degree = sh_degree_for_rest(rest.len());
    let coeffs = coeffs_per_channel(sh_degree);
    Ok(UncompressedLayout { base, rest, sh_degree, coeffs_per_channel: coeffs })
}

/// Layout of a compressed scene whose vertex element is `els[vi]`.
pub fn compressed_layout(els: &Vec<Element>, vi: usize) -> (r: Result<CompressedLayout, PlyError>)
    requires
        vi < els@.len(),
        find_prop(els@[vi as int]@.props, Field::PackedPosition.spec_name(), 0) is Some,
    ensures
        match r {
            Ok(c) => find_element(elements_view(els@), word_chunk(), 0) is Some && first_missing(
                els@[vi as int]@.props,
                packed_fields(),
                0,
            ) is None && compressed_describes(elements_view(els@), els@[vi as int]@, c),
            Err(e) => if find_element(elements_view(els@), word_chunk(), 0) is None {
                e == PlyError::NoChunkElement
            } else {
                first_missing(els@[vi as int]@.props, packed_fields(), 0) matches Some(f) && e
                    == PlyError::MissingProperty(f)
            },
        },
{
    let ghost ev = elements_view(els@);
    let chunk_name: Vec<u8> = vec![99, 104, 117, 110, 107];
    assert(chunk_name@ =~= word_chunk());
    let chunk = match element_index(els, chunk_name.as_slice()) {
        Some(c) => c,
        None => {
            return Err(PlyError::NoChunkElement);
        },
    };
    proof {
        lemma_find_element(ev, word_chunk(), 0);
    }
    let chunk_el = &els[chunk];
    assert(ev[chunk as int] == chunk_el@);
    let mut bounds: Vec<Option<usize>> = Vec::new();
    let mut j: usize = 0;
    while j < CHUNK_BOUNDS
        invariant
            j <= CHUNK_BOUNDS,
            bounds@.len() == j,
            forall|k: int|
                0 <= k < j ==> #[trigger] bounds@[k] == index_of(
                    find_prop(chunk_el@.props, chunk_bound_names()[k], 0),
                ),
        decreases CHUNK_BOUNDS - j,
    {
        let name = chunk_bound_name(j);
        let found = chunk_el.prop_index(name.as_slice());
        bounds.push(found);
        j += 1;
    }
    let min_r = chunk_bound_name(FIRST_COLOR_BOUND);
    let has_color_bounds = chunk_el.has(min_r.as_slice());
    let v = &els[vi];
    assert(ev[vi as int] == v@);
    let pp_name = Field::PackedPosition.name();
    let packed_position = match v.prop_index(pp_name.as_slice()) {
        Some(i) => i,
        None => {
            return Err(PlyError::NoChunkElement);
        },
    };
    let packed_list = packed_field_list();
    let packed = match find_fields(v, &packed_list) {
        Ok(idx) => idx,
        Err(f) => {
            return Err(PlyError::MissingProperty(f));
        },
    };
    let sh_name: Vec<u8> = vec![115, 104];
    assert(sh_name@ =~= word_sh());
    let sh = match element_index(els, sh_name.as_slice()) {
        None => None,
        Some(si) => {
            proof {
                lemma_find_element(ev, word_sh(), 0);
            }
            let sh_el = &els[si];
            assert(ev[si as int] == sh_el@);
            let rest = rest_props(sh_el);
            let per_channel = rest.len() / 3;
            let degree = sh_degree_for_channel(per_channel);
            let used = degree > 0 && sh_el.count >= v.count;
            Some(ShBands { element: si, rest, per_channel, degree, used })
        },
    };
    Ok(
        CompressedLayout {
            chunk,
            bounds,
            has_color_bounds,
            packed_position,
            packed_rotation: packed[0],
            packed_scale: packed[1],
            packed_color: packed[2],
            sh,
        },
    )
}

} // verus!

verus! {

/// The rows of every element of a parsed header fit in `usize` bytes.
pub proof fn lemma_rows_fit(t: Seq<u8>, els: Seq<Element>, i: int)
    requires
        header_layout(t) == Ok::<Seq<ElementView>, PlyError>(elements_view(els)),
        0 <= i < els.len(),
    ensures
        els[i].start + els[i].stride * els[i].count <= usize::MAX,
{
    let run = header_run(t, 0, empty_header());
    let st = run->Ok_0;
    let se = st.elements;
    let ev = elements_view(els);
    assert(with_starts(se) == ev);
    assert(se.len() == ev.len());
    assert forall|j: int| 0 <= j < se.len() implies (#[trigger] se[j]).stride >= 0 && se[j].count
        >= 0 by {
        assert(with_starts(se)[j] == ev[j]);
    }
    assert(with_starts(se)[i] == ev[i]);
    lemma_layout_end_monotone(se, i + 1, se.len() as int);
}

/// Bytes taken by the first `j` properties of a row.
pub open spec fn props_size(ps: Seq<PropView>, j: int) -> int
    decreases j,
{
    if j <= 0 {
        0
    } else {
        props_size(ps, j - 1) + ps[j - 1].ty.spec_size()
    }
}

/// Each property sits right after the ones declared before it, and a row is exactly as
/// long as its properties.
pub open spec fn packed_row(e: ElementView) -> bool {
    &&& e.stride == props_size(e.props, e.props.len() as int)
    &&& forall|j: int| 0 <= j < e.props.len() ==> #[trigger] e.props[j].offset == props_size(e.props, j)
}

proof fn lemma_props_size_push(ps: Seq<PropView>, p: PropView, j: int)
    requires
        0 <= j <= ps.len(),
    ensures
        props_size(ps.push(p), j) == props_size(ps, j),
    decreases j,
{
    if j > 0 {
        lemma_props_size_push(ps, p, j - 1);
    }
}

proof fn lemma_step_packs_rows(t: Seq<u8>, ls: int, le: int, st: HeaderState)
    requires
        forall|i: int| 0 <= i < st.elements.len() ==> packed_row(#[trigger] st.elements[i]),
    ensures
        header_step(t, ls, le, st) matches Ok(next) ==> forall|i: int|
            0 <= i < next.elements.len() ==> packed_row(#[trigger] next.elements[i]),
{
    match header_step(t, ls, le, st) {
        Ok(next) => {
            if next.elements.len() == st.elements.len() + 1 {
                assert(packed_row(next.elements.last()));
            } else if next.elements != st.elements {
                let n = st.elements.len() - 1;
                let last = st.elements[n];
                let grown = next.elements[n];
                assert forall|k: int| 0 <= k <= last.props.len() implies props_size(
                    grown.props,
                    k,
                ) == props_size(last.props, k) by {
                    lemma_props_size_push(last.props, grown.props.last(), k);
                }
                assert(grown.props.drop_last() =~= last.props);
                assert forall|i: int| 0 <= i < next.elements.len() implies packed_row(
                    #[trigger] next.elements[i],
                ) by {
                    if i == n {
                        assert forall|j: int| 0 <= j < grown.props.len() implies #[trigger] grown.props[j].offset
                            == props_size(grown.props, j) by {
                            if j < last.props.len() {
                                assert(grown.props[j] == last.props[j]);
                            }
                        }
                    }
                }
            }
        },
        Err(_) => {},
    }
}

proof fn lemma_run_packs_rows(t: Seq<u8>, pos: int, st: HeaderState)
    requires
        forall|i: int| 0 <= i < st.elements.len() ==> packed_row(#[trigger] st.elements[i]),
    ensures
        header_run(t, pos, st) matches Ok(fin) ==> forall|i: int|
            0 <= i < fin.elements.len() ==> packed_row(#[trigger] fin.elements[i]),
    decreases t.len() + 1 - pos,
{
    if 0 <= pos < t.len() {
        let le = line_end(t, pos);
        lemma_line_end_bounds(t, pos);
        lemma_step_packs_rows(t, pos, le, st);
        match header_step(t, pos, le, st) {
            Ok(next) => {
                lemma_run_packs_rows(t, le + 1, next);
            },
            Err(_) => {},
        }
    }
}

/// The header lays rows out by prefix sums: each property's offset is the total size of
/// the properties declared before it, an element's stride is the size of all of them,
/// and each element's rows start where the previous elements' rows end.
pub proof fn lemma_header_prefix_sums(t: Seq<u8>)
    ensures
        header_layout(t) matches Ok(els) ==> {
            &&& forall|i: int| 0 <= i < els.len() ==> packed_row(#[trigger] els[i])
            &&& forall|i: int| 0 <= i < els.len() ==> #[trigger] els[i].start == layout_end(els, i)
        },
{
    lemma_run_packs_rows(t, 0, empty_header());
    match header_layout(t) {
        Ok(els) => {
            let st = header_run(t, 0, empty_header())->Ok_0;
            assert forall|i: int| 0 <= i < els.len() implies packed_row(#[trigger] els[i]) by {
                assert(packed_row(st.elements[i]));
            }
            assert forall|k: int| 0 <= k <= els.len() implies layout_end(els, k) == layout_end(
                st.elements,
                k,
            ) by {
                lemma_layout_end_same(els, st.elements, k);
            }
        },
        Err(_) => {},
    }
}

#[verifier::spinoff_prover]
proof fn lemma_layout_end_same(a: Seq<ElementView>, b: Seq<ElementView>, k: int)
    requires
        0 <= k <= a.len(),
        a.len() == b.len(),
        forall|i: int| 0 <= i < a.len() ==> #[trigger] a[i].stride == b[i].stride && a[i].count
            == b[i].count,
    ensures
        layout_end(a, k) == layout_end(b, k),
    decreases k,
{
    if k > 0 {
        lemma_layout_end_same(a, b, k - 1);
        assert(a[k - 1].stride == b[k - 1].stride && a[k - 1].count == b[k - 1].count);
    }
}

/// Check that the body holds the chunk rows and the decoded band rows of a compressed
/// scene whose header `t` parsed into `els`.
fn compressed_rows_fit(
    Ghost(t): Ghost<Seq<u8>>,
    els: &Vec<Element>,
    v: &Element,
    c: &CompressedLayout,
    have: usize,
) -> (r: Option<PlyError>)
    requires
        header_layout(t) == Ok::<Seq<ElementView>, PlyError>(elements_view(els@)),
        find_element(elements_view(els@), word_vertex(), 0) matches Some(vi) && elements_view(
            els@,
        )[vi] == v@,
        compressed_describes(elements_view(els@), v@, *c),
    ensures
        r == compressed_rows_error(have as int, elements_view(els@), v@),
        r is None ==> {
            let ev = elements_view(els@);
            &&& rows_end(ev[c.chunk as int], ev[c.chunk as int].count as int) <= have
            &&& v.count > 0 ==> ev[c.chunk as int].count > 0
            &&& match c.sh {
                Some(b) => b.used ==> rows_end(ev[b.element as int], v.count as int) <= have,
                None => true,
            }
        },
{
    let ghost ev = elements_view(els@);
    proof {
        lemma_find_element(ev, word_chunk(), 0);
    }
    let ce = &els[c.chunk];
    assert(ev[c.chunk as int] == ce@);
    proof {
        lemma_rows_fit(t, els@, c.chunk as int);
        assert(0 <= ce.stride * ce.count) by (nonlinear_arith);
    }
    let cneed = ce.start + ce.stride * ce.count;
    if have < cneed {
        return Some(PlyError::Truncated { have, need: cneed });
    }
    if v.count > 0 && ce.count == 0 {
        return Some(PlyError::NoChunkRows);
    }
    match &c.sh {
        Some(bands) => {
            proof {
                lemma_find_element(ev, word_sh(), 0);
                lemma_rest_run_len(ev[bands.element as int].props, bands.rest@);
            }
            if bands.used {
                let se = &els[bands.element];
                assert(ev[bands.element as int] == se@);
                proof {
                    lemma_rows_fit(t, els@, bands.element as int);
                    assert(0 <= se.stride * v.count <= se.stride * se.count) by (nonlinear_arith)
                        requires
                            v.count <= se.count,
                    ;
                }
                let sneed = se.start + se.stride * v.count;
                if have < sneed {
                    return Some(PlyError::Truncated { have, need: sneed });
                }
            }
            None
        },
        None => None,
    }
}

/// Find the splats in a scene file: read the header, locate the `vertex` element, check
/// that the body holds all of its rows, and resolve every property the decoder reads.
pub fn read_layout(raw: &[u8]) -> (r: Result<SceneLayout, PlyError>)
    requires
        raw.len() < usize::MAX,
    ensures
        match r {
            Ok(l) => layout_error(raw@) is None && layout_describes(raw@, l),
            Err(e) => layout_error(raw@) == Some(e),
        },
{
    let body_at = match header_end(raw) {
        Some(b) => b,
        None => {
            return Err(PlyError::NoEndHeader);
        },
    };
    if body_at > raw.len() {
        return Err(PlyError::UnterminatedHeader);
    }
    let elements = match parse_header(&raw[0..body_at]) {
        Ok(els) => els,
        Err(e) => {
            return Err(e);
        },
    };
    let ghost ev = elements_view(elements@);
    let vertex_name: Vec<u8> = vec![118, 101, 114, 116, 101, 120];
    assert(vertex_name@ =~= word_vertex());
    let vi = match element_index(&elements, vertex_name.as_slice()) {
        Some(i) => i,
        None => {
            return Err(PlyError::NoVertexElement);
        },
    };
    proof {
        lemma_find_element(ev, word_vertex(), 0);
        lemma_rows_fit(raw@.subrange(0, body_at as int), elements@, vi as int);
        assert(ev[vi as int] == elements@[vi as int]@);
    }
    let encoding = {
        let v = &elements[vi];
        proof {
            assert(0 <= v.stride * v.count) by (nonlinear_arith);
        }
        let need = v.start + v.stride * v.count;
        let have = raw.len() - body_at;
        if have < need {
            return Err(PlyError::Truncated { have, need });
        }
        let pp = Field::PackedPosition.name();
        if v.has(pp.as_slice()) {
            match compressed_layout(&elements, vi) {
                Ok(c) => {
                    match compressed_rows_fit(Ghost(raw@.subrange(0, body_at as int)), &elements, v, &c, have) {
                        Some(e) => {
                            return Err(e);
                        },
                        None => {},
                    }
                    Encoding::Compressed(c)
                },
                Err(e) => {
                    return Err(e);
                },
            }
        } else {
            match uncompressed_layout(v) {
                Ok(u) => Encoding::Uncompressed(u),
                Err(e) => {
                    return Err(e);
                },
            }
        }
    };
    Ok(SceneLayout { body_at, elements, vertex: vi, encoding })
}

} // verus!

verus! {

// ---------------------------------------------------------------------------
// Bit fields of the compressed encoding
// ---------------------------------------------------------------------------

/// Fields of an 11-10-11 packed value, most significant first: `(a, b, c)` with `a` in
/// bits 21..32, `b` in bits 11..21 and `c` in bits 0..11.
pub open spec fn spec_unpack_11_10_11(v: u32) -> (u32, u32, u32) {
    (((v / 0x20_0000) % 0x800) as u32, ((v / 0x800) % 0x400) as u32, (v % 0x800) as u32)
}

/// Fields of a 2-10-10-10 packed rotation: the index of the largest component in bits
/// 30..32, then three 10-bit components from bit 20 down.
pub open spec fn spec_unpack_2_10_10_10(v: u32) -> (u32, u32, u32, u32) {
    (
        (v / 0x4000_0000) as u32,
        ((v / 0x10_0000) % 0x400) as u32,
        ((v / 0x400) % 0x400) as u32,
        (v % 0x400) as u32,
    )
}

/// Bytes of an 8-8-8-8 packed colour, most significant first.
pub open spec fn spec_unpack_8_8_8_8(v: u32) -> (u32, u32, u32, u32) {
    (
        ((v / 0x100_0000) % 0x100) as u32,
        ((v / 0x1_0000) % 0x100) as u32,
        ((v / 0x100) % 0x100) as u32,
        (v % 0x100) as u32,
    )
}

/// The fields of an 11-10-11 word reassemble it: `a * 2^21 + b * 2^11 + c == v` with
/// `a < 2^11`, `b < 2^10` and `c < 2^11`.
pub proof fn lemma_unpack_11_10_11_reassembles(v: u32)
    ensures
        spec_unpack_11_10_11(v).0 < 0x800,
        spec_unpack_11_10_11(v).1 < 0x400,
        spec_unpack_11_10_11(v).2 < 0x800,
        spec_unpack_11_10_11(v).0 * 0x20_0000 + spec_unpack_11_10_11(v).1 * 0x800
            + spec_unpack_11_10_11(v).2 == v,
{
    assert(((v / 0x20_0000) % 0x800) * 0x20_0000 + ((v / 0x800) % 0x400) * 0x800 + v % 0x800 == v)
        by (bit_vector);
}

/// The fields of a 2-10-10-10 word reassemble it: `w * 2^30 + a * 2^20 + b * 2^10 + c ==
/// v` with `w < 4` and each component below `2^10`.
pub proof fn lemma_unpack_2_10_10_10_reassembles(v: u32)
    ensures
        spec_unpack_2_10_10_10(v).0 < 4,
        spec_unpack_2_10_10_10(v).1 < 0x400,
        spec_unpack_2_10_10_10(v).2 < 0x400,
        spec_unpack_2_10_10_10(v).3 < 0x400,
        spec_unpack_2_10_10_10(v).0 * 0x4000_0000 + spec_unpack_2_10_10_10(v).1 * 0x10_0000
            + spec_unpack_2_10_10_10(v).2 * 0x400 + spec_unpack_2_10_10_10(v).3 == v,
{
    assert(v / 0x4000_0000 < 4) by (bit_vector);
    assert((v / 0x4000_0000) * 0x4000_0000 + ((v / 0x10_0000) % 0x400) * 0x10_0000 + ((v / 0x400)
        % 0x400) * 0x400 + v % 0x400 == v) by (bit_vector);
}

/// The bytes of an 8-8-8-8 word reassemble it, most significant first.
pub proof fn lemma_unpack_8_8_8_8_reassembles(v: u32)
    ensures
        spec_unpack_8_8_8_8(v).0 < 0x100,
        spec_unpack_8_8_8_8(v).1 < 0x100,
        spec_unpack_8_8_8_8(v).2 < 0x100,
        spec_unpack_8_8_8_8(v).3 < 0x100,
        spec_unpack_8_8_8_8(v).0 * 0x100_0000 + spec_unpack_8_8_8_8(v).1 * 0x1_0000
            + spec_unpack_8_8_8_8(v).2 * 0x100 + spec_unpack_8_8_8_8(v).3 == v,
{
    assert(((v / 0x100_0000) % 0x100) * 0x100_0000 + ((v / 0x1_0000) % 0x100) * 0x1_0000 + ((v
        / 0x100) % 0x100) * 0x100 + v % 0x100 == v) by (bit_vector);
}

/// Split an 11-10-11 packed position or scale into its three unsigned fields.
pub fn unpack_11_10_11(v: u32) -> (r: (u32, u32, u32))
    ensures
        r == spec_unpack_11_10_11(v),
        r.0 < 0x800 && r.1 < 0x400 && r.2 < 0x800,
        r.0 * 0x20_0000 + r.1 * 0x800 + r.2 == v,
{
    proof {
        lemma_unpack_11_10_11_reassembles(v);
    }
    let a = (v >> 21) & 0x7ff;
    let b = (v >> 11) & 0x3ff;
    let c = v & 0x7ff;
    assert(a == (v / 0x20_0000) % 0x800) by (bit_vector)
        requires
            a == (v >> 21) & 0x7ff,
    ;
    assert(b == (v / 0x800) % 0x400) by (bit_vector)
        requires
            b == (v >> 11) & 0x3ff,
    ;
    assert(c == v % 0x800) by (bit_vector)
        requires
            c == v & 0x7ff,
    ;
    (a, b, c)
}

/// Split a 2-10-10-10 packed rotation into the largest component's index and the three
/// stored components.
pub fn unpack_2_10_10_10(v: u32) -> (r: (u32, u32, u32, u32))
    ensures
        r == spec_unpack_2_10_10_10(v),
        r.0 < 4,
        r.1 < 0x400 && r.2 < 0x400 && r.3 < 0x400,
        r.0 * 0x4000_0000 + r.1 * 0x10_0000 + r.2 * 0x400 + r.3 == v,
{
    proof {
        lemma_unpack_2_10_10_10_reassembles(v);
    }
    let which = v >> 30;
    let a = (v >> 20) & 0x3ff;
    let b = (v >> 10) & 0x3ff;
    let c = v & 0x3ff;
    assert(which == v / 0x4000_0000 && which < 4) by (bit_vector)
        requires
            which == v >> 30,
    ;
    assert(a == (v / 0x10_0000) % 0x400) by (bit_vector)
        requires
            a == (v >> 20) & 0x3ff,
    ;
    assert(b == (v / 0x400) % 0x400) by (bit_vector)
        requires
            b == (v >> 10) & 0x3ff,
    ;
    assert(c == v % 0x400) by (bit_vector)
        requires
            c == v & 0x3ff,
    ;
    (which, a, b, c)
}

/// Split an 8-8-8-8 packed colour into red, green, blue and alpha bytes.
pub fn unpack_8_8_8_8(v: u32) -> (r: (u32, u32, u32, u32))
    ensures
        r == spec_unpack_8_8_8_8(v),
        r.0 < 0x100 && r.1 < 0x100 && r.2 < 0x100 && r.3 < 0x100,
        r.0 * 0x100_0000 + r.1 * 0x1_0000 + r.2 * 0x100 + r.3 == v,
{
    proof {
        lemma_unpack_8_8_8_8_reassembles(v);
    }
    let r = (v >> 24) & 0xff;
    let g = (v >> 16) & 0xff;
    let b = (v >> 8) & 0xff;
    let a = v & 0xff;
    assert(r == (v / 0x100_0000) % 0x100) by (bit_vector)
        requires
            r == (v >> 24) & 0xff,
    ;
    assert(g == (v / 0x1_0000) % 0x100) by (bit_vector)
        requires
            g == (v >> 16) & 0xff,
    ;
    assert(b == (v / 0x100) % 0x100) by (bit_vector)
        requires
            b == (v >> 8) & 0xff,
    ;
    assert(a == v % 0x100) by (bit_vector)
        requires
            a == v & 0xff,
    ;
    (r, g, b, a)
}

/// Splats per chunk of a compressed scene.
pub const SPLATS_PER_CHUNK: usize = 256;

/// The chunk whose bounds splat `i` uses: its own, or the last declared chunk for splats
/// beyond them (chunk 0 when none are declared).
pub open spec fn chunk_of(i: int, chunk_count: int) -> int {
    let last = if chunk_count > 0 {
        chunk_count - 1
    } else {
        0
    };
    if i / (SPLATS_PER_CHUNK as int) < last {
        i / (SPLATS_PER_CHUNK as int)
    } else {
        last
    }
}

/// Offset, in the flattened table of chunk bounds, of the bounds that splat `i` uses:
/// its chunk, or the last chunk for splats beyond the declared chunks.
pub fn chunk_bounds_offset(i: usize, chunk_count: usize) -> (r: usize)
    requires
        chunk_count * CHUNK_BOUNDS <= usize::MAX,
    ensures
        r == CHUNK_BOUNDS * chunk_of(i as int, chunk_count as int),
{
    let last = chunk_count.saturating_sub(1);
    let c = if i / SPLATS_PER_CHUNK < last {
        i / SPLATS_PER_CHUNK
    } else {
        last
    };
    proof {
        assert(c * CHUNK_BOUNDS <= chunk_count * CHUNK_BOUNDS) by (nonlinear_arith)
            requires
                c <= chunk_count,
        ;
    }
    c * CHUNK_BOUNDS
}

} // verus!

verus! {

// ---------------------------------------------------------------------------
// What a refused scene file is told
// ---------------------------------------------------------------------------

/// The bytes of "no `end_header` found".
pub open spec fn msg_no_end_header() -> Seq<u8> {
    seq![110u8, 111, 32, 96, 101, 110, 100, 95, 104, 101, 97, 100, 101, 114, 96, 32, 102, 111, 117, 110, 100]
}

fn push_msg_no_end_header(out: &mut Vec<u8>)
    ensures
        final(out)@ == old(out)@ + msg_no_end_header(),
{
    let lit: [u8; 21] = [110, 111, 32, 96, 101, 110, 100, 95, 104, 101, 97, 100, 101, 114, 96, 32, 102, 111, 117, 110, 100];
    assert(lit@ =~= msg_no_end_header());
    push_bytes(out, &lit);
}

/// The bytes of "unsupported PLY format `".
pub open spec fn msg_unsupported_format_head() -> Seq<u8> {
    seq![117u8, 110, 115, 117, 112, 112, 111, 114, 116, 101, 100, 32, 80, 76, 89, 32, 102, 111, 114, 109, 97, 116, 32, 96]
}

fn push_msg_unsupported_format_head(out: &mut Vec<u8>)
    ensures
        final(out)@ == old(out)@ + msg_unsupported_format_head(),
{
    let lit: [u8; 24] = [117, 110, 115, 117, 112, 112, 111, 114, 116, 101, 100, 32, 80, 76, 89, 32, 102, 111, 114, 109, 97, 116, 32, 96];
    assert(lit@ =~= msg_unsupported_format_head());
    push_bytes(out, &lit);
}

/// The bytes of "` (only binary_little_endian is supported)".
pub open spec fn msg_unsupported_format_tail() -> Seq<u8> {
    seq![96u8, 32, 40, 111, 110, 108, 121, 32, 98, 105, 110, 97, 114, 121, 95, 108, 105, 116, 116, 108, 101, 95, 101, 110, 100, 105, 97, 110, 32, 105, 115, 32, 115, 117, 112, 112, 111, 114, 116, 101, 100, 41]
}

fn push_msg_unsupported_format_tail(out: &mut Vec<u8>)
    ensures
        final(out)@ == old(out)@ + msg_unsupported_format_tail(),
{
    let lit: [u8; 42] = [96, 32, 40, 111, 110, 108, 121, 32, 98, 105, 110, 97, 114, 121, 95, 108, 105, 116, 116, 108, 101, 95, 101, 110, 100, 105, 97, 110, 32, 105, 115, 32, 115, 117, 112, 112, 111, 114, 116, 101, 100, 41];
    assert(lit@ =~= msg_unsupported_format_tail());
    push_bytes(out, &lit);
}

/// The bytes of "bad element count".
pub open spec fn msg_bad_element_count() -> Seq<u8> {
    seq![98u8, 97, 100, 32, 101, 108, 101, 109, 101, 110, 116, 32, 99, 111, 117, 110, 116]
}

fn push_msg_bad_element_count(out: &mut Vec<u8>)
    ensures
        final(out)@ == old(out)@ + msg_bad_element_count(),
{
    let lit: [u8; 17] = [98, 97, 100, 32, 101, 108, 101, 109, 101, 110, 116, 32, 99, 111, 117, 110, 116];
    assert(lit@ =~= msg_bad_element_count());
    push_bytes(out, &lit);
}

/// The bytes of "list properties are not supported".
pub open spec fn msg_list_property() -> Seq<u8> {
    seq![108u8, 105, 115, 116, 32, 112, 114, 111, 112, 101, 114, 116, 105, 101, 115, 32, 97, 114, 101, 32, 110, 111, 116, 32, 115, 117, 112, 112, 111, 114, 116, 101, 100]
}

fn push_msg_list_property(out: &mut Vec<u8>)
    ensures
        final(out)@ == old(out)@ + msg_list_property(),
{
    let lit: [u8; 33] = [108, 105, 115, 116, 32, 112, 114, 111, 112, 101, 114, 116, 105, 101, 115, 32, 97, 114, 101, 32, 110, 111, 116, 32, 115, 117, 112, 112, 111, 114, 116, 101, 100];
    assert(lit@ =~= msg_list_property());
    push_bytes(out, &lit);
}

/// The bytes of "unknown property type `".
pub open spec fn msg_unknown_type_head() -> Seq<u8> {
    seq![117u8, 110, 107, 110, 111, 119, 110, 32, 112, 114, 111, 112, 101, 114, 116, 121, 32, 116, 121, 112, 101, 32, 96]
}

fn push_msg_unknown_type_head(out: &mut Vec<u8>)
    ensures
        final(out)@ == old(out)@ + msg_unknown_type_head(),
{
    let lit: [u8; 23] = [117, 110, 107, 110, 111, 119, 110, 32, 112, 114, 111, 112, 101, 114, 116, 121, 32, 116, 121, 112, 101, 32, 96];
    assert(lit@ =~= msg_unknown_type_head());
    push_bytes(out, &lit);
}

/// The bytes of "`".
pub open spec fn msg_backtick() -> Seq<u8> {
    seq![96u8]
}

fn push_msg_backtick(out: &mut Vec<u8>)
    ensures
        final(out)@ == old(out)@ + msg_backtick(),
{
    let lit: [u8; 1] = [96];
    assert(lit@ =~= msg_backtick());
    push_bytes(out, &lit);
}

/// The bytes of "property before element".
pub open spec fn msg_property_before_element() -> Seq<u8> {
    seq![112u8, 114, 111, 112, 101, 114, 116, 121, 32, 98, 101, 102, 111, 114, 101, 32, 101, 108, 101, 109, 101, 110, 116]
}

fn push_msg_property_before_element(out: &mut Vec<u8>)
    ensures
        final(out)@ == old(out)@ + msg_property_before_element(),
{
    let lit: [u8; 23] = [112, 114, 111, 112, 101, 114, 116, 121, 32, 98, 101, 102, 111, 114, 101, 32, 101, 108, 101, 109, 101, 110, 116];
    assert(lit@ =~= msg_property_before_element());
    push_bytes(out, &lit);
}

/// The bytes of "missing `format` line".
pub open spec fn msg_missing_format() -> Seq<u8> {
    seq![109u8, 105, 115, 115, 105, 110, 103, 32, 96, 102, 111, 114, 109, 97, 116, 96, 32, 108, 105, 110, 101]
}

fn push_msg_missing_format(out: &mut Vec<u8>)
    ensures
        final(out)@ == old(out)@ + msg_missing_format(),
{
    let lit: [u8; 21] = [109, 105, 115, 115, 105, 110, 103, 32, 96, 102, 111, 114, 109, 97, 116, 96, 32, 108, 105, 110, 101];
    assert(lit@ =~= msg_missing_format());
    push_bytes(out, &lit);
}

/// The bytes of "element sizes overflow the address space".
pub open spec fn msg_layout_overflow() -> Seq<u8> {
    seq![101u8, 108, 101, 109, 101, 110, 116, 32, 115, 105, 122, 101, 115, 32, 111, 118, 101, 114, 102, 108, 111, 119, 32, 116, 104, 101, 32, 97, 100, 100, 114, 101, 115, 115, 32, 115, 112, 97, 99, 101]
}

fn push_msg_layout_overflow(out: &mut Vec<u8>)
    ensures
        final(out)@ == old(out)@ + msg_layout_overflow(),
{
    let lit: [u8; 40] = [101, 108, 101, 109, 101, 110, 116, 32, 115, 105, 122, 101, 115, 32, 111, 118, 101, 114, 102, 108, 111, 119, 32, 116, 104, 101, 32, 97, 100, 100, 114, 101, 115, 115, 32, 115, 112, 97, 99, 101];
    assert(lit@ =~= msg_layout_overflow());
    push_bytes(out, &lit);
}

/// The bytes of "no `vertex` element".
pub open spec fn msg_no_vertex() -> Seq<u8> {
    seq![110u8, 111, 32, 96, 118, 101, 114, 116, 101, 120, 96, 32, 101, 108, 101, 109, 101, 110, 116]
}

fn push_msg_no_vertex(out: &mut Vec<u8>)
    ensures
        final(out)@ == old(out)@ + msg_no_vertex(),
{
    let lit: [u8; 19] = [110, 111, 32, 96, 118, 101, 114, 116, 101, 120, 96, 32, 101, 108, 101, 109, 101, 110, 116];
    assert(lit@ =~= msg_no_vertex());
    push_bytes(out, &lit);
}

/// The bytes of "truncated file: body has ".
pub open spec fn msg_truncated_head() -> Seq<u8> {
    seq![116u8, 114, 117, 110, 99, 97, 116, 101, 100, 32, 102, 105, 108, 101, 58, 32, 98, 111, 100, 121, 32, 104, 97, 115, 32]
}

fn push_msg_truncated_head(out: &mut Vec<u8>)
    ensures
        final(out)@ == old(out)@ + msg_truncated_head(),
{
    let lit: [u8; 25] = [116, 114, 117, 110, 99, 97, 116, 101, 100, 32, 102, 105, 108, 101, 58, 32, 98, 111, 100, 121, 32, 104, 97, 115, 32];
    assert(lit@ =~= msg_truncated_head());
    push_bytes(out, &lit);
}

/// The bytes of " bytes, header describes ".
pub open spec fn msg_truncated_mid() -> Seq<u8> {
    seq![32u8, 98, 121, 116, 101, 115, 44, 32, 104, 101, 97, 100, 101, 114, 32, 100, 101, 115, 99, 114, 105, 98, 101, 115, 32]
}

fn push_msg_truncated_mid(out: &mut Vec<u8>)
    ensures
        final(out)@ == old(out)@ + msg_truncated_mid(),
{
    let lit: [u8; 25] = [32, 98, 121, 116, 101, 115, 44, 32, 104, 101, 97, 100, 101, 114, 32, 100, 101, 115, 99, 114, 105, 98, 101, 115, 32];
    assert(lit@ =~= msg_truncated_mid());
    push_bytes(out, &lit);
}

/// The bytes of "missing `".
pub open spec fn msg_missing_head() -> Seq<u8> {
    seq![109u8, 105, 115, 115, 105, 110, 103, 32, 96]
}

fn push_msg_missing_head(out: &mut Vec<u8>)
    ensures
        final(out)@ == old(out)@ + msg_missing_head(),
{
    let lit: [u8; 9] = [109, 105, 115, 115, 105, 110, 103, 32, 96];
    assert(lit@ =~= msg_missing_head());
    push_bytes(out, &lit);
}

/// The bytes of "missing required property `".
pub open spec fn msg_missing_required_head() -> Seq<u8> {
    seq![109u8, 105, 115, 115, 105, 110, 103, 32, 114, 101, 113, 117, 105, 114, 101, 100, 32, 112, 114, 111, 112, 101, 114, 116, 121, 32, 96]
}

fn push_msg_missing_required_head(out: &mut Vec<u8>)
    ensures
        final(out)@ == old(out)@ + msg_missing_required_head(),
{
    let lit: [u8; 27] = [109, 105, 115, 115, 105, 110, 103, 32, 114, 101, 113, 117, 105, 114, 101, 100, 32, 112, 114, 111, 112, 101, 114, 116, 121, 32, 96];
    assert(lit@ =~= msg_missing_required_head());
    push_bytes(out, &lit);
}

/// The bytes of "compressed PLY without a `chunk` element".
pub open spec fn msg_no_chunk() -> Seq<u8> {
    seq![99u8, 111, 109, 112, 114, 101, 115, 115, 101, 100, 32, 80, 76, 89, 32, 119, 105, 116, 104, 111, 117, 116, 32, 97, 32, 96, 99, 104, 117, 110, 107, 96, 32, 101, 108, 101, 109, 101, 110, 116]
}

fn push_msg_no_chunk(out: &mut Vec<u8>)
    ensures
        final(out)@ == old(out)@ + msg_no_chunk(),
{
    let lit: [u8; 40] = [99, 111, 109, 112, 114, 101, 115, 115, 101, 100, 32, 80, 76, 89, 32, 119, 105, 116, 104, 111, 117, 116, 32, 97, 32, 96, 99, 104, 117, 110, 107, 96, 32, 101, 108, 101, 109, 101, 110, 116];
    assert(lit@ =~= msg_no_chunk());
    push_bytes(out, &lit);
}

/// The bytes of "compressed PLY with splats but no chunk rows".
pub open spec fn msg_no_chunk_rows() -> Seq<u8> {
    seq![99u8, 111, 109, 112, 114, 101, 115, 115, 101, 100, 32, 80, 76, 89, 32, 119, 105, 116, 104, 32, 115, 112, 108, 97, 116, 115, 32, 98, 117, 116, 32, 110, 111, 32, 99, 104, 117, 110, 107, 32, 114, 111, 119, 115]
}

fn push_msg_no_chunk_rows(out: &mut Vec<u8>)
    ensures
        final(out)@ == old(out)@ + msg_no_chunk_rows(),
{
    let lit: [u8; 44] = [99, 111, 109, 112, 114, 101, 115, 115, 101, 100, 32, 80, 76, 89, 32, 119, 105, 116, 104, 32, 115, 112, 108, 97, 116, 115, 32, 98, 117, 116, 32, 110, 111, 32, 99, 104, 117, 110, 107, 32, 114, 111, 119, 115];
    assert(lit@ =~= msg_no_chunk_rows());
    push_bytes(out, &lit);
}

/// The bytes of "truncated file: the `end_header` line is not terminated".
pub open spec fn msg_unterminated() -> Seq<u8> {
    seq![116u8, 114, 117, 110, 99, 97, 116, 101, 100, 32, 102, 105, 108, 101, 58, 32, 116, 104, 101, 32, 96, 101, 110, 100, 95, 104, 101, 97, 100, 101, 114, 96, 32, 108, 105, 110, 101, 32, 105, 115, 32, 110, 111, 116, 32, 116, 101, 114, 109, 105, 110, 97, 116, 101, 100]
}

fn push_msg_unterminated(out: &mut Vec<u8>)
    ensures
        final(out)@ == old(out)@ + msg_unterminated(),
{
    let lit: [u8; 55] = [116, 114, 117, 110, 99, 97, 116, 101, 100, 32, 102, 105, 108, 101, 58, 32, 116, 104, 101, 32, 96, 101, 110, 100, 95, 104, 101, 97, 100, 101, 114, 96, 32, 108, 105, 110, 101, 32, 105, 115, 32, 110, 111, 116, 32, 116, 101, 114, 109, 105, 110, 97, 116, 101, 100];
    assert(lit@ =~= msg_unterminated());
    push_bytes(out, &lit);
}

fn push_bytes(out: &mut Vec<u8>, b: &[u8])
    ensures
        final(out)@ == old(out)@ + b@,
{
    let ghost before = out@;
    out.extend_from_slice(b);
    assert(out@ =~= before + b@);
}

/// Whether a missing property is one of the packed fields of a compressed scene.
pub open spec fn is_packed_field(f: Field) -> bool {
    f == Field::PackedPosition || f == Field::PackedRotation || f == Field::PackedScale || f
        == Field::PackedColor
}

impl PlyError {
    /// The header spans this error points at lie within `raw`.
    pub open spec fn spans_within(self, raw: Seq<u8>) -> bool {
        match self {
            PlyError::UnsupportedFormat { start, end } => start <= end <= raw.len(),
            PlyError::UnknownPropertyType { start, end } => start <= end <= raw.len(),
            _ => true,
        }
    }

    /// The message a refused scene file `raw` is reported with.
    pub open spec fn spec_message(self, raw: Seq<u8>) -> Seq<u8> {
        match self {
            PlyError::NoEndHeader => msg_no_end_header(),
            PlyError::UnsupportedFormat { start, end } => msg_unsupported_format_head() + raw.subrange(
                start as int,
                end as int,
            ) + msg_unsupported_format_tail(),
            PlyError::BadElementCount => msg_bad_element_count(),
            PlyError::ListProperty => msg_list_property(),
            PlyError::UnknownPropertyType { start, end } => msg_unknown_type_head() + raw.subrange(
                start as int,
                end as int,
            ) + msg_backtick(),
            PlyError::PropertyBeforeElement => msg_property_before_element(),
            PlyError::MissingFormat => msg_missing_format(),
            PlyError::LayoutOverflow => msg_layout_overflow(),
            PlyError::NoVertexElement => msg_no_vertex(),
            PlyError::Truncated { have, need } => msg_truncated_head() + decimal_digits(have as nat)
                + msg_truncated_mid() + decimal_digits(need as nat),
            PlyError::MissingProperty(f) => if is_packed_field(f) {
                msg_missing_head() + f.spec_name() + msg_backtick()
            } else {
                msg_missing_required_head() + f.spec_name() + msg_backtick()
            },
            PlyError::NoChunkElement => msg_no_chunk(),
            PlyError::NoChunkRows => msg_no_chunk_rows(),
            PlyError::UnterminatedHeader => msg_unterminated(),
        }
    }

    /// The message a refused scene file `raw` is reported with, as bytes (the words quoted
    /// from the header are passed through as they are).
    pub fn message(&self, raw: &[u8]) -> (r: Vec<u8>)
        requires
            self.spans_within(raw@),
        ensures
            r@ == self.spec_message(raw@),
    {
        let mut out: Vec<u8> = Vec::new();
        match *self {
            PlyError::NoEndHeader => push_msg_no_end_header(&mut out),
            PlyError::UnsupportedFormat { start, end } => {
                push_msg_unsupported_format_head(&mut out);
                push_bytes(&mut out, &raw[start..end]);
                push_msg_unsupported_format_tail(&mut out);
            },
            PlyError::BadElementCount => push_msg_bad_element_count(&mut out),
            PlyError::ListProperty => push_msg_list_property(&mut out),
            PlyError::UnknownPropertyType { start, end } => {
                push_msg_unknown_type_head(&mut out);
                push_bytes(&mut out, &raw[start..end]);
                push_msg_backtick(&mut out);
            },
            PlyError::PropertyBeforeElement => push_msg_property_before_element(&mut out),
            PlyError::MissingFormat => push_msg_missing_format(&mut out),
            PlyError::LayoutOverflow => push_msg_layout_overflow(&mut out),
            PlyError::NoVertexElement => push_msg_no_vertex(&mut out),
            PlyError::Truncated { have, need } => {
                push_msg_truncated_head(&mut out);
                push_decimal(&mut out, have);
                push_msg_truncated_mid(&mut out);
                push_decimal(&mut out, need);
            },
            PlyError::MissingProperty(f) => {
                if f == Field::PackedPosition || f == Field::PackedRotation || f
                    == Field::PackedScale || f == Field::PackedColor {
                    push_msg_missing_head(&mut out);
                } else {
                    push_msg_missing_required_head(&mut out);
                }
                let name = f.name();
                push_bytes(&mut out, name.as_slice());
                push_msg_backtick(&mut out);
            },
            PlyError::NoChunkElement => push_msg_no_chunk(&mut out),
            PlyError::NoChunkRows => push_msg_no_chunk_rows(&mut out),
            PlyError::UnterminatedHeader => push_msg_unterminated(&mut out),
        }
        proof {
            assert(out@ =~= self.spec_message(raw@));
        }
        out
    }
}

} // verus!
