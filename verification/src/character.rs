//! Characters: the values a text and a search pattern are made of.
use vstd::prelude::*;

verus! {

/// A character type that can be stored in an index.
///
/// Each character has a numeric code (`into_u64`); converting a code back
/// with `from_u64` truncates it to the width of the type.
pub trait Character: Copy + Sized {
    /// The numeric code of the character.
    spec fn code(self) -> u64;

    /// The largest code of this character type.
    spec fn max_code() -> u64;

    /// The character with the given code, truncated to the width of the type.
    spec fn from_code(x: u64) -> Self;

    /// A code never exceeds the largest code, and converting it back gives the character.
    proof fn lemma_code(c: Self)
        ensures
            c.code() <= Self::max_code(),
            Self::from_code(c.code()) == c,
    ;

    /// A code within range survives the round trip through the character type.
    proof fn lemma_from_code(x: u64)
        requires
            x <= Self::max_code(),
        ensures
            Self::from_code(x).code() == x,
    ;

    /// Convert the character into a u64.
    fn into_u64(self) -> (r: u64)
        ensures
            r == self.code(),
    ;

    /// Convert a u64 into a character (truncating).
    fn from_u64(x: u64) -> (r: Self)
        ensures
            r == Self::from_code(x),
    ;

    /// The largest character of this type.
    fn max_value() -> (r: Self)
        ensures
            r.code() == Self::max_code(),
    ;

    /// Convert the character into a usize.
    fn into_usize(self) -> (r: usize)
        requires
            self.code() <= usize::MAX,
        ensures
            r == self.code(),
    {
        let x = self.into_u64();
        x as usize
    }

    /// Convert a usize into a character (truncating).
    fn from_usize(x: usize) -> (r: Self)
        ensures
            r == Self::from_code(x as u64),
    {
        Self::from_u64(x as u64)
    }
}

impl Character for u8 {
    open spec fn code(self) -> u64 {
        self as u64
    }

    open spec fn max_code() -> u64 {
        0xff
    }

    open spec fn from_code(x: u64) -> Self {
        x as u8
    }

    proof fn lemma_code(c: Self) {
    }

    proof fn lemma_from_code(x: u64) {
    }

    fn into_u64(self) -> (r: u64) {
        self as u64
    }

    fn from_u64(x: u64) -> (r: Self) {
        x as u8
    }

    fn max_value() -> (r: Self) {
        u8::MAX
    }
}

impl Character for u16 {
    open spec fn code(self) -> u64 {
        self as u64
    }

    open spec fn max_code() -> u64 {
        0xffff
    }

    open spec fn from_code(x: u64) -> Self {
        x as u16
    }

    proof fn lemma_code(c: Self) {
    }

    proof fn lemma_from_code(x: u64) {
    }

    fn into_u64(self) -> (r: u64) {
        self as u64
    }

    fn from_u64(x: u64) -> (r: Self) {
        x as u16
    }

    fn max_value() -> (r: Self) {
        u16::MAX
    }
}

impl Character for u32 {
    open spec fn code(self) -> u64 {
        self as u64
    }

    open spec fn max_code() -> u64 {
        0xffff_ffff
    }

    open spec fn from_code(x: u64) -> Self {
        x as u32
    }

    proof fn lemma_code(c: Self) {
    }

    proof fn lemma_from_code(x: u64) {
    }

    fn into_u64(self) -> (r: u64) {
        self as u64
    }

    fn from_u64(x: u64) -> (r: Self) {
        x as u32
    }

    fn max_value() -> (r: Self) {
        u32::MAX
    }
}

impl Character for u64 {
    open spec fn code(self) -> u64 {
        self
    }

    open spec fn max_code() -> u64 {
        0xffff_ffff_ffff_ffff
    }

    open spec fn from_code(x: u64) -> Self {
        x
    }

    proof fn lemma_code(c: Self) {
    }

    proof fn lemma_from_code(x: u64) {
    }

    fn into_u64(self) -> (r: u64) {
        self
    }

    fn from_u64(x: u64) -> (r: Self) {
        x
    }

    fn max_value() -> (r: Self) {
        u64::MAX
    }
}

impl Character for usize {
    open spec fn code(self) -> u64 {
        self as u64
    }

    open spec fn max_code() -> u64 {
        usize::MAX as u64
    }

    open spec fn from_code(x: u64) -> Self {
        x as usize
    }

    proof fn lemma_code(c: Self) {
    }

    proof fn lemma_from_code(x: u64) {
    }

    fn into_u64(self) -> (r: u64) {
        self as u64
    }

    fn from_u64(x: u64) -> (r: Self) {
        x as usize
    }

    fn max_value() -> (r: Self) {
        usize::MAX
    }
}

} // verus!
