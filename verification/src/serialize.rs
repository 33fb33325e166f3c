//! Width- and endian-aware encoding of machine words.
//!
//! A word is four bytes on ELF32 and eight bytes on ELF64, laid out least
//! significant byte first or last. The model is arithmetic: a byte string
//! stands for the number it spells in base 256, and a signed word is stored in
//! two's complement.

use core::num::TryFromIntError;
use vstd::prelude::*;

verus! {

/// Word size of an ELF object.
#[derive(Copy, Clone, Debug, PartialEq, Eq, Structural)]
pub enum Class {
    ELF32,
    ELF64,
}

/// Byte order of an ELF object.
#[derive(Copy, Clone, Debug, PartialEq, Eq, Structural)]
pub enum AnyEndian {
    Little,
    Big,
}

/// Why a word could not be serialized.
#[derive(Debug)]
pub enum Error {
    /// The value does not fit the 32-bit word of an ELF32 object.
    IntConversion { source: TryFromIntError },
}

/// Number of bytes in a machine word of the class.
pub open spec fn word_width(class: Class) -> nat {
    match class {
        Class::ELF32 => 4,
        Class::ELF64 => 8,
    }
}

/// 256 to the power `n`: the number of values that `n` bytes can spell.
pub open spec fn pow256(n: nat) -> nat
    decreases n,
{
    if n == 0 {
        1
    } else {
        256 * pow256((n - 1) as nat)
    }
}

/// The `n` little-endian base-256 digits of `v`.
pub open spec fn le_digits(v: nat, n: nat) -> Seq<u8>
    decreases n,
{
    if n == 0 {
        Seq::empty()
    } else {
        seq![(v % 256) as u8] + le_digits(v / 256, (n - 1) as nat)
    }
}

/// The number that little-endian base-256 digits spell.
pub open spec fn le_value(digits: Seq<u8>) -> nat
    decreases digits.len(),
{
    if digits.len() == 0 {
        0
    } else {
        digits[0] as nat + 256 * le_value(digits.drop_first())
    }
}

/// Whether `v` is in range of an unsigned word of `n` bytes.
pub open spec fn unsigned_in_range(v: int, n: nat) -> bool {
    0 <= v < pow256(n)
}

/// Whether `v` is in range of a signed (two's complement) word of `n` bytes.
pub open spec fn signed_in_range(v: int, n: nat) -> bool {
    -(pow256(n) as int) <= 2 * v < pow256(n)
}

/// The bytes of the unsigned word `v` of `n` bytes in the given byte order.
pub open spec fn encode_unsigned(v: int, n: nat, endian: AnyEndian) -> Seq<u8> {
    match endian {
        AnyEndian::Little => le_digits(v as nat, n),
        AnyEndian::Big => le_digits(v as nat, n).reverse(),
    }
}

/// The bytes of the signed word `v` of `n` bytes in the given byte order.
pub open spec fn encode_signed(v: int, n: nat, endian: AnyEndian) -> Seq<u8> {
    encode_unsigned(
        if v < 0 {
            v + pow256(n)
        } else {
            v
        },
        n,
        endian,
    )
}

/// The unsigned word that `bytes` hold in the given byte order.
pub open spec fn decode_unsigned(bytes: Seq<u8>, endian: AnyEndian) -> int {
    match endian {
        AnyEndian::Little => le_value(bytes) as int,
        AnyEndian::Big => le_value(bytes.reverse()) as int,
    }
}

/// The signed word that `bytes` hold in the given byte order.
pub open spec fn decode_signed(bytes: Seq<u8>, endian: AnyEndian) -> int {
    let u = decode_unsigned(bytes, endian);
    if 2 * u >= pow256(bytes.len()) {
        u - pow256(bytes.len())
    } else {
        u
    }
}

/// The powers of 256 that the two word widths need.
pub proof fn lemma_pow256_values()
    ensures
        pow256(0) == 1,
        pow256(1) == 0x100,
        pow256(2) == 0x1_0000,
        pow256(3) == 0x100_0000,
        pow256(4) == 0x1_0000_0000,
        pow256(8) == 0x1_0000_0000_0000_0000,
{
    reveal_with_fuel(pow256, 9);
}

/// A value has as many digits as it is asked for.
pub proof fn lemma_le_digits_len(v: nat, n: nat)
    ensures
        le_digits(v, n).len() == n,
    decreases n,
{
    if n > 0 {
        lemma_le_digits_len(v / 256, (n - 1) as nat);
    }
}

/// The digits of a value that `n` bytes can spell spell that value.
pub proof fn lemma_le_value_of_digits(v: nat, n: nat)
    requires
        v < pow256(n),
    ensures
        le_value(le_digits(v, n)) == v,
    decreases n,
{
    if n > 0 {
        let rest = le_digits(v / 256, (n - 1) as nat);
        assert(le_digits(v, n).drop_first() =~= rest);
        lemma_le_value_of_digits(v / 256, (n - 1) as nat);
    }
}

/// What `n` digits spell is a value that `n` bytes can spell.
pub proof fn lemma_le_value_bound(digits: Seq<u8>)
    ensures
        le_value(digits) < pow256(digits.len()),
    decreases digits.len(),
{
    if digits.len() > 0 {
        lemma_le_value_bound(digits.drop_first());
    }
}

/// The value that digits spell has these digits.
pub proof fn lemma_le_digits_of_value(digits: Seq<u8>)
    ensures
        le_digits(le_value(digits), digits.len()) == digits,
    decreases digits.len(),
{
    if digits.len() > 0 {
        let rest = digits.drop_first();
        lemma_le_digits_of_value(rest);
        let v = le_value(digits);
        assert(v % 256 == digits[0] as nat);
        assert(v / 256 == le_value(rest));
        assert(le_digits(v, digits.len()) =~= digits);
    } else {
        assert(le_digits(le_value(digits), digits.len()) =~= digits);
    }
}

/// Reversing twice gives the bytes back.
proof fn lemma_reverse_twice(s: Seq<u8>)
    ensures
        s.reverse().reverse() == s,
        s.reverse().len() == s.len(),
{
    assert(s.reverse().reverse() =~= s);
}

/// Encoding keeps the word's width whatever the value and the byte order.
pub proof fn lemma_encode_len(v: int, n: nat, endian: AnyEndian)
    ensures
        encode_unsigned(v, n, endian).len() == n,
        encode_signed(v, n, endian).len() == n,
{
    lemma_le_digits_len(v as nat, n);
    lemma_le_digits_len((v + pow256(n)) as nat, n);
}

/// Decoding undoes encoding: every unsigned value in range of the width is
/// read back from its bytes.
pub proof fn lemma_unsigned_round_trip(v: int, n: nat, endian: AnyEndian)
    requires
        unsigned_in_range(v, n),
    ensures
        decode_unsigned(encode_unsigned(v, n, endian), endian) == v,
{
    lemma_le_value_of_digits(v as nat, n);
    lemma_reverse_twice(le_digits(v as nat, n));
}

/// Decoding undoes encoding: every signed value in range of the width is read
/// back from its bytes.
pub proof fn lemma_signed_round_trip(v: int, n: nat, endian: AnyEndian)
    requires
        signed_in_range(v, n),
    ensures
        decode_signed(encode_signed(v, n, endian), endian) == v,
{
    let u: int = if v < 0 {
        v + pow256(n)
    } else {
        v
    };
    lemma_encode_len(u, n, endian);
    lemma_unsigned_round_trip(u, n, endian);
}

/// Encoding undoes decoding: a word's bytes are the encoding of the unsigned
/// value they hold.
pub proof fn lemma_unsigned_bytes_round_trip(bytes: Seq<u8>, endian: AnyEndian)
    ensures
        unsigned_in_range(decode_unsigned(bytes, endian), bytes.len()),
        encode_unsigned(decode_unsigned(bytes, endian), bytes.len(), endian) == bytes,
{
    lemma_reverse_twice(bytes);
    match endian {
        AnyEndian::Little => {
            lemma_le_value_bound(bytes);
            lemma_le_digits_of_value(bytes);
        },
        AnyEndian::Big => {
            lemma_le_value_bound(bytes.reverse());
            lemma_le_digits_of_value(bytes.reverse());
        },
    }
}

/// The base-256 digit of `v` of weight 256 to the power `i`.
pub open spec fn digit(v: nat, i: nat) -> u8 {
    ((v / pow256(i)) % 256) as u8
}

/// No power of 256 is zero.
pub proof fn lemma_pow256_positive(n: nat)
    ensures
        pow256(n) > 0,
    decreases n,
{
    if n > 0 {
        lemma_pow256_positive((n - 1) as nat);
    }
}

/// The digits come least significant first.
pub proof fn lemma_le_digit(v: nat, n: nat, i: int)
    requires
        0 <= i < n,
    ensures
        le_digits(v, n)[i] == digit(v, i as nat),
    decreases n,
{
    let rest = le_digits(v / 256, (n - 1) as nat);
    lemma_le_digits_len(v / 256, (n - 1) as nat);
    if i > 0 {
        lemma_le_digit(v / 256, (n - 1) as nat, i - 1);
        lemma_pow256_positive((i - 1) as nat);
        vstd::arithmetic::div_mod::lemma_div_denominator(
            v as int,
            256,
            pow256((i - 1) as nat) as int,
        );
        assert(pow256(i as nat) == 256 * pow256((i - 1) as nat));
        assert(le_digits(v, n)[i] == rest[i - 1]);
    } else {
        assert(pow256(0) == 1);
    }
}

/// The byte order of a word: in a little-endian word the byte at index `i`
/// is the digit of weight 256 to the power `i`; in a big-endian word the
/// bytes stand the other way round.
pub proof fn lemma_byte_order(v: int, n: nat, i: int)
    requires
        0 <= v,
        0 <= i < n,
    ensures
        encode_unsigned(v, n, AnyEndian::Little)[i] == digit(v as nat, i as nat),
        encode_unsigned(v, n, AnyEndian::Big)[i] == digit(v as nat, (n - 1 - i) as nat),
{
    lemma_le_digits_len(v as nat, n);
    lemma_le_digit(v as nat, n, i);
    lemma_le_digit(v as nat, n, n - 1 - i);
}

/// A serialized machine word: four bytes on ELF32, eight on ELF64.
pub enum ArchLong {
    Elf32([u8; 4]),
    Elf64([u8; 8]),
}

impl View for ArchLong {
    type V = Seq<u8>;

    open spec fn view(&self) -> Seq<u8> {
        match *self {
            ArchLong::Elf32(v) => v@,
            ArchLong::Elf64(v) => v@,
        }
    }
}

impl ArchLong {
    /// Number of bytes of the word.
    #[allow(clippy::len_without_is_empty)]
    pub fn len(&self) -> (n: usize)
        ensures
            n == self@.len(),
            n == 4 || n == 8,
            n == 4 <==> self is Elf32,
    {
        match *self {
            Self::Elf32(_) => 4,
            Self::Elf64(_) => 8,
        }
    }

    /// The bytes of the word, in the order in which they are written.
    pub fn bytes(&self) -> (b: &[u8])
        ensures
            b@ == self@,
    {
        match self {
            Self::Elf32(v) => v.as_slice(),
            Self::Elf64(v) => v.as_slice(),
        }
    }
}

/// The four bytes of `x`, least significant first.
fn le_bytes_32(x: u32) -> (b: [u8; 4])
    ensures
        b@ == le_digits(x as nat, 4),
{
    let b: [u8; 4] = [
        (x % 256) as u8,
        (x / 0x100 % 256) as u8,
        (x / 0x1_0000 % 256) as u8,
        (x / 0x100_0000 % 256) as u8,
    ];
    proof {
        reveal_with_fuel(le_digits, 5);
        assert(b@ =~= le_digits(x as nat, 4));
    }
    b
}

/// The eight bytes of `x`, least significant first.
fn le_bytes_64(x: u64) -> (b: [u8; 8])
    ensures
        b@ == le_digits(x as nat, 8),
{
    let b: [u8; 8] = [
        (x % 256) as u8,
        (x / 0x100 % 256) as u8,
        (x / 0x1_0000 % 256) as u8,
        (x / 0x100_0000 % 256) as u8,
        (x / 0x1_0000_0000 % 256) as u8,
        (x / 0x100_0000_0000 % 256) as u8,
        (x / 0x1_0000_0000_0000 % 256) as u8,
        (x / 0x100_0000_0000_0000 % 256) as u8,
    ];
    proof {
        reveal_with_fuel(le_digits, 9);
        assert(b@ =~= le_digits(x as nat, 8));
    }
    b
}

/// The four bytes in reverse order.
fn reversed_4(b: [u8; 4]) -> (r: [u8; 4])
    ensures
        r@ == b@.reverse(),
{
    let r: [u8; 4] = [b[3], b[2], b[1], b[0]];
    assert(r@ =~= b@.reverse());
    r
}

/// The eight bytes in reverse order.
fn reversed_8(b: [u8; 8]) -> (r: [u8; 8])
    ensures
        r@ == b@.reverse(),
{
    let r: [u8; 8] = [b[7], b[6], b[5], b[4], b[3], b[2], b[1], b[0]];
    assert(r@ =~= b@.reverse());
    r
}

/// The two's complement of a 32-bit value as an unsigned word.
fn unsigned_of_i32(x: i32) -> (u: u32)
    ensures
        u as int == if x < 0 {
            x + pow256(4)
        } else {
            x as int
        },
{
    proof {
        lemma_pow256_values();
    }
    if x < 0 {
        (x as i64 + 0x1_0000_0000) as u32
    } else {
        x as u32
    }
}

/// The two's complement of a 64-bit value as an unsigned word.
fn unsigned_of_i64(x: i64) -> (u: u64)
    ensures
        u as int == if x < 0 {
            x + pow256(8)
        } else {
            x as int
        },
{
    proof {
        lemma_pow256_values();
    }
    if x < 0 {
        (x as i128 + 0x1_0000_0000_0000_0000) as u64
    } else {
        x as u64
    }
}

/// Integers that serialize into a machine word of their own width.
pub trait SerializeIntoArchValue {
    /// The word's bytes in the given byte order.
    spec fn arch_bytes(&self, endian: AnyEndian) -> Seq<u8>;

    /// The word, least significant byte first.
    fn to_le_arch(&self) -> (r: ArchLong)
        ensures
            r@ == self.arch_bytes(AnyEndian::Little),
    ;

    /// The word, most significant byte first.
    fn to_be_arch(&self) -> (r: ArchLong)
        ensures
            r@ == self.arch_bytes(AnyEndian::Big),
    ;
}

impl SerializeIntoArchValue for u32 {
    open spec fn arch_bytes(&self, endian: AnyEndian) -> Seq<u8> {
        encode_unsigned(*self as int, 4, endian)
    }

    fn to_le_arch(&self) -> (r: ArchLong) {
        ArchLong::Elf32(le_bytes_32(*self))
    }

    fn to_be_arch(&self) -> (r: ArchLong) {
        ArchLong::Elf32(reversed_4(le_bytes_32(*self)))
    }
}

impl SerializeIntoArchValue for u64 {
    open spec fn arch_bytes(&self, endian: AnyEndian) -> Seq<u8> {
        encode_unsigned(*self as int, 8, endian)
    }

    fn to_le_arch(&self) -> (r: ArchLong) {
        ArchLong::Elf64(le_bytes_64(*self))
    }

    fn to_be_arch(&self) -> (r: ArchLong) {
        ArchLong::Elf64(reversed_8(le_bytes_64(*self)))
    }
}

impl SerializeIntoArchValue for i32 {
    open spec fn arch_bytes(&self, endian: AnyEndian) -> Seq<u8> {
        encode_signed(*self as int, 4, endian)
    }

    fn to_le_arch(&self) -> (r: ArchLong) {
        ArchLong::Elf32(le_bytes_32(unsigned_of_i32(*self)))
    }

    fn to_be_arch(&self) -> (r: ArchLong) {
        ArchLong::Elf32(reversed_4(le_bytes_32(unsigned_of_i32(*self))))
    }
}

impl SerializeIntoArchValue for i64 {
    open spec fn arch_bytes(&self, endian: AnyEndian) -> Seq<u8> {
        encode_signed(*self as int, 8, endian)
    }

    fn to_le_arch(&self) -> (r: ArchLong) {
        ArchLong::Elf64(le_bytes_64(unsigned_of_i64(*self)))
    }

    fn to_be_arch(&self) -> (r: ArchLong) {
        ArchLong::Elf64(reversed_8(le_bytes_64(unsigned_of_i64(*self))))
    }
}

/// Serializer for the words of one ELF object: fixed class and byte order.
pub struct ArchSerializer {
    class: Class,
    endianness: AnyEndian,
}

impl ArchSerializer {
    /// The class whose words are written.
    pub closed spec fn class(&self) -> Class {
        self.class
    }

    /// The byte order in which words are written.
    pub closed spec fn endianness(&self) -> AnyEndian {
        self.endianness
    }

    /// A serializer for objects of the class and byte order.
    pub fn new(class: Class, endianness: AnyEndian) -> (s: Self)
        ensures
            s.class() == class,
            s.endianness() == endianness,
    {
        ArchSerializer { class, endianness }
    }

    /// Serializes a signed word. On ELF32 the value must fit 32 bits.
    pub fn bytes_from_signed_long(&self, val: i64) -> (r: Result<ArchLong, Error>)
        ensures
            r is Ok <==> signed_in_range(val as int, word_width(self.class())),
            r matches Ok(word) ==> {
                &&& word@ == encode_signed(
                    val as int,
                    word_width(self.class()),
                    self.endianness(),
                )
                &&& word@.len() == word_width(self.class())
                &&& word is Elf32 <==> self.class() == Class::ELF32
            },
    {
        proof {
            lemma_pow256_values();
            lemma_encode_len(val as int, word_width(self.class), self.endianness);
        }
        match self.class {
            Class::ELF32 => {
                let val: i32 = match i32::try_from(val) {
                    Ok(v) => v,
                    Err(source) => {
                        return Err(Error::IntConversion { source });
                    },
                };
                match self.endianness {
                    AnyEndian::Little => Ok(val.to_le_arch()),
                    AnyEndian::Big => Ok(val.to_be_arch()),
                }
            },
            Class::ELF64 => match self.endianness {
                AnyEndian::Little => Ok(val.to_le_arch()),
                AnyEndian::Big => Ok(val.to_be_arch()),
            },
        }
    }

    /// Serializes an unsigned word. On ELF32 the value must fit 32 bits.
    pub fn bytes_from_unsigned_long(&self, val: u64) -> (r: Result<ArchLong, Error>)
        ensures
            r is Ok <==> unsigned_in_range(val as int, word_width(self.class())),
            r matches Ok(word) ==> {
                &&& word@ == encode_unsigned(
                    val as int,
                    word_width(self.class()),
                    self.endianness(),
                )
                &&& word@.len() == word_width(self.class())
                &&& word is Elf32 <==> self.class() == Class::ELF32
            },
    {
        proof {
            lemma_pow256_values();
            lemma_encode_len(val as int, word_width(self.class), self.endianness);
        }
        match self.class {
            Class::ELF32 => {
                let val: u32 = match u32::try_from(val) {
                    Ok(v) => v,
                    Err(source) => {
                        return Err(Error::IntConversion { source });
                    },
                };
                match self.endianness {
                    AnyEndian::Little => Ok(val.to_le_arch()),
                    AnyEndian::Big => Ok(val.to_be_arch()),
                }
            },
            Class::ELF64 => match self.endianness {
                AnyEndian::Little => Ok(val.to_le_arch()),
                AnyEndian::Big => Ok(val.to_be_arch()),
            },
        }
    }
}

} // verus!
