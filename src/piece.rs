use vstd::prelude::*;

verus! {

/// An integer type that can hold the numbers of a board's tiles; `0` is the
/// blank.
pub trait Piece: Sized + Copy {
    /// The number this piece stands for.
    spec fn value(&self) -> int;

    /// The largest number this type can hold.
    spec fn upper() -> int;

    /// The blank.
    fn zero() -> (r: Self)
        ensures
            r.value() == 0,
    ;

    /// Whether two pieces stand for the same number.
    fn same(&self, other: &Self) -> (r: bool)
        ensures
            r == (self.value() == other.value()),
    ;

    /// The piece as an index, where it is one.
    fn to_usize(&self) -> (r: Option<usize>)
        ensures
            r is Some <==> 0 <= self.value() <= usize::MAX,
            r is Some ==> r->0 as int == self.value(),
    ;

    /// The piece that stands for `n`, where this type can hold it.
    fn from_usize(n: usize) -> (r: Option<Self>)
        ensures
            r is Some <==> n as int <= Self::upper(),
            r is Some ==> r->0.value() == n as int,
    ;
}

impl Piece for u8 {
    open spec fn value(&self) -> int {
        *self as int
    }

    open spec fn upper() -> int {
        u8::MAX as int
    }

    fn zero() -> (r: Self) {
        0
    }

    fn same(&self, other: &Self) -> (r: bool) {
        *self == *other
    }

    fn to_usize(&self) -> (r: Option<usize>) {
        Some(*self as usize)
    }

    fn from_usize(n: usize) -> (r: Option<Self>) {
        if n <= u8::MAX as usize {
            Some(n as u8)
        } else {
            None
        }
    }
}

impl Piece for u16 {
    open spec fn value(&self) -> int {
        *self as int
    }

    open spec fn upper() -> int {
        u16::MAX as int
    }

    fn zero() -> (r: Self) {
        0
    }

    fn same(&self, other: &Self) -> (r: bool) {
        *self == *other
    }

    fn to_usize(&self) -> (r: Option<usize>) {
        Some(*self as usize)
    }

    fn from_usize(n: usize) -> (r: Option<Self>) {
        if n <= u16::MAX as usize {
            Some(n as u16)
        } else {
            None
        }
    }
}

impl Piece for u32 {
    open spec fn value(&self) -> int {
        *self as int
    }

    open spec fn upper() -> int {
        u32::MAX as int
    }

    fn zero() -> (r: Self) {
        0
    }

    fn same(&self, other: &Self) -> (r: bool) {
        *self == *other
    }

    fn to_usize(&self) -> (r: Option<usize>) {
        if *self as u64 <= usize::MAX as u64 {
            Some(*self as usize)
        } else {
            None
        }
    }

    fn from_usize(n: usize) -> (r: Option<Self>) {
        if n as u64 <= u32::MAX as u64 {
            Some(n as u32)
        } else {
            None
        }
    }
}

impl Piece for u64 {
    open spec fn value(&self) -> int {
        *self as int
    }

    open spec fn upper() -> int {
        u64::MAX as int
    }

    fn zero() -> (r: Self) {
        0
    }

    fn same(&self, other: &Self) -> (r: bool) {
        *self == *other
    }

    fn to_usize(&self) -> (r: Option<usize>) {
        if *self <= usize::MAX as u64 {
            Some(*self as usize)
        } else {
            None
        }
    }

    fn from_usize(n: usize) -> (r: Option<Self>) {
        Some(n as u64)
    }
}

impl Piece for usize {
    open spec fn value(&self) -> int {
        *self as int
    }

    open spec fn upper() -> int {
        usize::MAX as int
    }

    fn zero() -> (r: Self) {
        0
    }

    fn same(&self, other: &Self) -> (r: bool) {
        *self == *other
    }

    fn to_usize(&self) -> (r: Option<usize>) {
        Some(*self)
    }

    fn from_usize(n: usize) -> (r: Option<Self>) {
        Some(n)
    }
}

impl Piece for i32 {
    open spec fn value(&self) -> int {
        *self as int
    }

    open spec fn upper() -> int {
        i32::MAX as int
    }

    fn zero() -> (r: Self) {
        0
    }

    fn same(&self, other: &Self) -> (r: bool) {
        *self == *other
    }

    fn to_usize(&self) -> (r: Option<usize>) {
        if *self >= 0 && *self as u64 <= usize::MAX as u64 {
            Some(*self as usize)
        } else {
            None
        }
    }

    fn from_usize(n: usize) -> (r: Option<Self>) {
        if n as u64 <= i32::MAX as u64 {
            Some(n as i32)
        } else {
            None
        }
    }
}

impl Piece for i64 {
    open spec fn value(&self) -> int {
        *self as int
    }

    open spec fn upper() -> int {
        i64::MAX as int
    }

    fn zero() -> (r: Self) {
        0
    }

    fn same(&self, other: &Self) -> (r: bool) {
        *self == *other
    }

    fn to_usize(&self) -> (r: Option<usize>) {
        if *self >= 0 && *self as u64 <= usize::MAX as u64 {
            Some(*self as usize)
        } else {
            None
        }
    }

    fn from_usize(n: usize) -> (r: Option<Self>) {
        if n as u64 <= i64::MAX as u64 {
            Some(n as i64)
        } else {
            None
        }
    }
}

} // verus!
