//! Morton codes: fixed-width keys that spell a point's position as a string of
//! octant digits, the coarsest level first.

use vstd::prelude::*;

verus! {

/// The deepest tree a code type may describe. A region key of this depth still
/// fits in a `u128`.
pub const MAX_LEVELS: usize = 42;

/// What the octree asks of a code type: a depth, a null value that is no code,
/// and the octant digit of a code at each level.
pub trait Morton: Copy + Sized {
    /// How many octant digits a code spells, which is the depth of the tree.
    spec fn levels() -> nat;

    /// The value that marks a region as empty.
    spec fn null_spec() -> Self;

    /// Whether the value is a code of a point: it is not null and its digits
    /// say all there is to say of it.
    spec fn is_code(self) -> bool;

    /// The octant that the code picks at `level`, counted from the root.
    spec fn digit(self, level: nat) -> nat;

    /// The number of levels: how many bits a code spends on each dimension.
    fn dim_bits() -> (n: usize)
        ensures
            n == Self::levels(),
            n <= MAX_LEVELS,
    ;

    /// The null value.
    fn null() -> (m: Self)
        ensures
            m == Self::null_spec(),
    ;

    /// Whether this is the null value.
    fn is_null(self) -> (b: bool)
        ensures
            b == (self == Self::null_spec()),
    ;

    /// Whether this is the code of a point.
    fn is_valid(self) -> (b: bool)
        ensures
            b == self.is_code(),
    ;

    /// The octant that the code picks at `level`, counted from the root.
    fn get_level(self, level: usize) -> (d: usize)
        requires
            level < Self::levels(),
        ensures
            d == self.digit(level as nat),
            d < 8,
    ;

    /// No code type describes a tree deeper than `MAX_LEVELS`.
    proof fn lemma_depth_fits()
        ensures
            Self::levels() <= MAX_LEVELS,
    ;

    /// The null value is not the code of any point.
    proof fn lemma_null_is_no_code()
        ensures
            !Self::null_spec().is_code(),
    ;

    /// Every digit names one of the eight octants.
    proof fn lemma_digit_is_octant(self, level: nat)
        requires
            level < Self::levels(),
        ensures
            self.digit(level) < 8,
    ;

    /// Two codes that agree at every level are the same code.
    proof fn lemma_digits_determine(a: Self, b: Self)
        requires
            a.is_code(),
            b.is_code(),
            forall|l: nat| l < Self::levels() ==> a.digit(l) == b.digit(l),
        ensures
            a == b,
    ;
}

/// The first `depth` digits of a code: the path from the root to the region of
/// that depth in which the code lies.
pub open spec fn path_of<M: Morton>(morton: M, depth: nat) -> Seq<nat> {
    Seq::new(depth, |i: int| morton.digit(i as nat))
}

/// Codes of two levels in the low six bits of a byte.
impl Morton for u8 {
    open spec fn levels() -> nat {
        2
    }

    open spec fn null_spec() -> Self {
        0xffu8
    }

    open spec fn is_code(self) -> bool {
        self < 0x40u8
    }

    open spec fn digit(self, level: nat) -> nat {
        if level < 2 {
            ((self >> ((3 - 3 * level) as u8)) & 7) as nat
        } else {
            0
        }
    }

    fn dim_bits() -> (n: usize) {
        2
    }

    fn null() -> (m: Self) {
        0xffu8
    }

    fn is_null(self) -> (b: bool) {
        self == 0xffu8
    }

    fn is_valid(self) -> (b: bool) {
        self < 0x40u8
    }

    fn get_level(self, level: usize) -> (d: usize) {
        let shift: u8 = 3 - 3 * (level as u8);
        let d: u8 = (self >> shift) & 7;
        assert(d < 8) by (bit_vector)
            requires
                d == (self >> shift) & 7,
        ;
        d as usize
    }

    proof fn lemma_depth_fits() {
    }

    proof fn lemma_null_is_no_code() {
    }

    proof fn lemma_digit_is_octant(self, level: nat) {
        let shift: u8 = (3 - 3 * level) as u8;
        assert((self >> shift) & 7 < 8) by (bit_vector);
    }

    proof fn lemma_digits_determine(a: Self, b: Self) {
        assert(a.digit(0) == b.digit(0));
        assert(a.digit(1) == b.digit(1));
        assert(a == b) by (bit_vector)
            requires
                a < 0x40u8,
                b < 0x40u8,
                (a >> 3u8) & 7 == (b >> 3u8) & 7,
                (a >> 0u8) & 7 == (b >> 0u8) & 7,
        ;
    }
}

/// If two words agree above bit 63 and in every digit, they agree from the
/// `k`-th digit boundary upwards.
proof fn lemma_u64_agree_above(a: u64, b: u64, k: nat)
    requires
        k <= 21,
        a >> 63u64 == b >> 63u64,
        forall|l: nat| l < 21 ==> a.digit(l) == b.digit(l),
    ensures
        a >> ((63 - 3 * k) as u64) == b >> ((63 - 3 * k) as u64),
    decreases k,
{
    if k > 0 {
        lemma_u64_agree_above(a, b, (k - 1) as nat);
        let s: u64 = (63 - 3 * k) as u64;
        let t: u64 = (s + 3) as u64;
        assert(a.digit((k - 1) as nat) == b.digit((k - 1) as nat));
        assert(a >> s == b >> s) by (bit_vector)
            requires
                s <= 60,
                t == s + 3,
                a >> t == b >> t,
                (a >> s) & 7 == (b >> s) & 7,
        ;
    }
}

/// Codes of twenty-one levels in the low 63 bits of a word.
impl Morton for u64 {
    open spec fn levels() -> nat {
        21
    }

    open spec fn null_spec() -> Self {
        0xffff_ffff_ffff_ffffu64
    }

    open spec fn is_code(self) -> bool {
        self < 0x8000_0000_0000_0000u64
    }

    open spec fn digit(self, level: nat) -> nat {
        if level < 21 {
            ((self >> ((60 - 3 * level) as u64)) & 7) as nat
        } else {
            0
        }
    }

    fn dim_bits() -> (n: usize) {
        21
    }

    fn null() -> (m: Self) {
        0xffff_ffff_ffff_ffffu64
    }

    fn is_null(self) -> (b: bool) {
        self == 0xffff_ffff_ffff_ffffu64
    }

    fn is_valid(self) -> (b: bool) {
        self < 0x8000_0000_0000_0000u64
    }

    fn get_level(self, level: usize) -> (d: usize) {
        let shift: u64 = 60 - 3 * (level as u64);
        let d: u64 = (self >> shift) & 7;
        assert(d < 8) by (bit_vector)
            requires
                d == (self >> shift) & 7,
        ;
        d as usize
    }

    proof fn lemma_depth_fits() {
    }

    proof fn lemma_null_is_no_code() {
    }

    proof fn lemma_digit_is_octant(self, level: nat) {
        let shift: u64 = (60 - 3 * level) as u64;
        assert((self >> shift) & 7 < 8) by (bit_vector);
    }

    proof fn lemma_digits_determine(a: Self, b: Self) {
        assert(a >> 63u64 == b >> 63u64) by (bit_vector)
            requires
                a < 0x8000_0000_0000_0000u64,
                b < 0x8000_0000_0000_0000u64,
        ;
        lemma_u64_agree_above(a, b, 21);
        assert(a == b) by (bit_vector)
            requires
                a >> 0u64 == b >> 0u64,
        ;
    }
}

/// If two words agree above bit 126 and in every digit, they agree from the
/// `k`-th digit boundary upwards.
proof fn lemma_u128_agree_above(a: u128, b: u128, k: nat)
    requires
        k <= 42,
        a >> 126u128 == b >> 126u128,
        forall|l: nat| l < 42 ==> a.digit(l) == b.digit(l),
    ensures
        a >> ((126 - 3 * k) as u128) == b >> ((126 - 3 * k) as u128),
    decreases k,
{
    if k > 0 {
        lemma_u128_agree_above(a, b, (k - 1) as nat);
        let s: u128 = (126 - 3 * k) as u128;
        let t: u128 = (s + 3) as u128;
        assert(a.digit((k - 1) as nat) == b.digit((k - 1) as nat));
        assert(a >> s == b >> s) by (bit_vector)
            requires
                s <= 123,
                t == s + 3,
                a >> t == b >> t,
                (a >> s) & 7 == (b >> s) & 7,
        ;
    }
}

/// Codes of forty-two levels in the low 126 bits of a double word.
impl Morton for u128 {
    open spec fn levels() -> nat {
        42
    }

    open spec fn null_spec() -> Self {
        0xffff_ffff_ffff_ffff_ffff_ffff_ffff_ffffu128
    }

    open spec fn is_code(self) -> bool {
        self < 0x4000_0000_0000_0000_0000_0000_0000_0000u128
    }

    open spec fn digit(self, level: nat) -> nat {
        if level < 42 {
            ((self >> ((123 - 3 * level) as u128)) & 7) as nat
        } else {
            0
        }
    }

    fn dim_bits() -> (n: usize) {
        42
    }

    fn null() -> (m: Self) {
        0xffff_ffff_ffff_ffff_ffff_ffff_ffff_ffffu128
    }

    fn is_null(self) -> (b: bool) {
        self == 0xffff_ffff_ffff_ffff_ffff_ffff_ffff_ffffu128
    }

    fn is_valid(self) -> (b: bool) {
        self < 0x4000_0000_0000_0000_0000_0000_0000_0000u128
    }

    fn get_level(self, level: usize) -> (d: usize) {
        let shift: u128 = 123 - 3 * (level as u128);
        let d: u128 = (self >> shift) & 7;
        assert(d < 8) by (bit_vector)
            requires
                d == (self >> shift) & 7,
        ;
        d as usize
    }

    proof fn lemma_depth_fits() {
    }

    proof fn lemma_null_is_no_code() {
    }

    proof fn lemma_digit_is_octant(self, level: nat) {
        let shift: u128 = (123 - 3 * level) as u128;
        assert((self >> shift) & 7 < 8) by (bit_vector);
    }

    proof fn lemma_digits_determine(a: Self, b: Self) {
        assert(a >> 126u128 == b >> 126u128) by (bit_vector)
            requires
                a < 0x4000_0000_0000_0000_0000_0000_0000_0000u128,
                b < 0x4000_0000_0000_0000_0000_0000_0000_0000u128,
        ;
        lemma_u128_agree_above(a, b, 42);
        assert(a == b) by (bit_vector)
            requires
                a >> 0u128 == b >> 0u128,
        ;
    }
}

} // verus!
