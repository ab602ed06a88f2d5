use crate::ac3::{DomainType, IdentifierType};
use vstd::prelude::*;

verus! {

impl DomainType for char {
    fn same_value(&self, other: &char) -> (r: bool) {
        *self == *other
    }
}

impl DomainType for u8 {
    fn same_value(&self, other: &u8) -> (r: bool) {
        *self == *other
    }
}

impl DomainType for u16 {
    fn same_value(&self, other: &u16) -> (r: bool) {
        *self == *other
    }
}

impl DomainType for u32 {
    fn same_value(&self, other: &u32) -> (r: bool) {
        *self == *other
    }
}

impl DomainType for u64 {
    fn same_value(&self, other: &u64) -> (r: bool) {
        *self == *other
    }
}

impl DomainType for i8 {
    fn same_value(&self, other: &i8) -> (r: bool) {
        *self == *other
    }
}

impl DomainType for i16 {
    fn same_value(&self, other: &i16) -> (r: bool) {
        *self == *other
    }
}

impl DomainType for i32 {
    fn same_value(&self, other: &i32) -> (r: bool) {
        *self == *other
    }
}

impl DomainType for i64 {
    fn same_value(&self, other: &i64) -> (r: bool) {
        *self == *other
    }
}

impl DomainType for usize {
    fn same_value(&self, other: &usize) -> (r: bool) {
        *self == *other
    }
}

impl IdentifierType for char {
    open spec fn rank(&self) -> int {
        *self as int
    }

    proof fn lemma_rank_injective(&self, other: &Self) {
    }

    fn same(&self, other: &char) -> (r: bool) {
        *self == *other
    }

    fn precedes(&self, other: &char) -> (r: bool) {
        *self < *other
    }
}

impl IdentifierType for u8 {
    open spec fn rank(&self) -> int {
        *self as int
    }

    proof fn lemma_rank_injective(&self, other: &Self) {
    }

    fn same(&self, other: &u8) -> (r: bool) {
        *self == *other
    }

    fn precedes(&self, other: &u8) -> (r: bool) {
        *self < *other
    }
}

impl IdentifierType for u16 {
    open spec fn rank(&self) -> int {
        *self as int
    }

    proof fn lemma_rank_injective(&self, other: &Self) {
    }

    fn same(&self, other: &u16) -> (r: bool) {
        *self == *other
    }

    fn precedes(&self, other: &u16) -> (r: bool) {
        *self < *other
    }
}

impl IdentifierType for u32 {
    open spec fn rank(&self) -> int {
        *self as int
    }

    proof fn lemma_rank_injective(&self, other: &Self) {
    }

    fn same(&self, other: &u32) -> (r: bool) {
        *self == *other
    }

    fn precedes(&self, other: &u32) -> (r: bool) {
        *self < *other
    }
}

impl IdentifierType for u64 {
    open spec fn rank(&self) -> int {
        *self as int
    }

    proof fn lemma_rank_injective(&self, other: &Self) {
    }

    fn same(&self, other: &u64) -> (r: bool) {
        *self == *other
    }

    fn precedes(&self, other: &u64) -> (r: bool) {
        *self < *other
    }
}

impl IdentifierType for i8 {
    open spec fn rank(&self) -> int {
        *self as int
    }

    proof fn lemma_rank_injective(&self, other: &Self) {
    }

    fn same(&self, other: &i8) -> (r: bool) {
        *self == *other
    }

    fn precedes(&self, other: &i8) -> (r: bool) {
        *self < *other
    }
}

impl IdentifierType for i16 {
    open spec fn rank(&self) -> int {
        *self as int
    }

    proof fn lemma_rank_injective(&self, other: &Self) {
    }

    fn same(&self, other: &i16) -> (r: bool) {
        *self == *other
    }

    fn precedes(&self, other: &i16) -> (r: bool) {
        *self < *other
    }
}

impl IdentifierType for i32 {
    open spec fn rank(&self) -> int {
        *self as int
    }

    proof fn lemma_rank_injective(&self, other: &Self) {
    }

    fn same(&self, other: &i32) -> (r: bool) {
        *self == *other
    }

    fn precedes(&self, other: &i32) -> (r: bool) {
        *self < *other
    }
}

impl IdentifierType for i64 {
    open spec fn rank(&self) -> int {
        *self as int
    }

    proof fn lemma_rank_injective(&self, other: &Self) {
    }

    fn same(&self, other: &i64) -> (r: bool) {
        *self == *other
    }

    fn precedes(&self, other: &i64) -> (r: bool) {
        *self < *other
    }
}

impl IdentifierType for usize {
    open spec fn rank(&self) -> int {
        *self as int
    }

    proof fn lemma_rank_injective(&self, other: &Self) {
    }

    fn same(&self, other: &usize) -> (r: bool) {
        *self == *other
    }

    fn precedes(&self, other: &usize) -> (r: bool) {
        *self < *other
    }
}

} // verus!
