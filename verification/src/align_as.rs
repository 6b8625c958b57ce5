//! Wrappers that carry a value together with an alignment requirement of
//! `N` bytes, named `AN`.
use vstd::prelude::*;

verus! {

/// A value meant to be placed at an address aligned to 1 bytes.
pub struct A1<T> {
    pub data: T,
}

impl<T> A1<T> {
    /// Wraps `data`.
    pub fn new(data: T) -> (r: Self)
        ensures
            r.data == data,
    {
        A1 { data }
    }
}

/// A value meant to be placed at an address aligned to 2 bytes.
pub struct A2<T> {
    pub data: T,
}

impl<T> A2<T> {
    /// Wraps `data`.
    pub fn new(data: T) -> (r: Self)
        ensures
            r.data == data,
    {
        A2 { data }
    }
}

/// A value meant to be placed at an address aligned to 4 bytes.
pub struct A4<T> {
    pub data: T,
}

impl<T> A4<T> {
    /// Wraps `data`.
    pub fn new(data: T) -> (r: Self)
        ensures
            r.data == data,
    {
        A4 { data }
    }
}

/// A value meant to be placed at an address aligned to 8 bytes.
pub struct A8<T> {
    pub data: T,
}

impl<T> A8<T> {
    /// Wraps `data`.
    pub fn new(data: T) -> (r: Self)
        ensures
            r.data == data,
    {
        A8 { data }
    }
}

/// A value meant to be placed at an address aligned to 16 bytes.
pub struct A16<T> {
    pub data: T,
}

impl<T> A16<T> {
    /// Wraps `data`.
    pub fn new(data: T) -> (r: Self)
        ensures
            r.data == data,
    {
        A16 { data }
    }
}

/// A value meant to be placed at an address aligned to 32 bytes.
pub struct A32<T> {
    pub data: T,
}

impl<T> A32<T> {
    /// Wraps `data`.
    pub fn new(data: T) -> (r: Self)
        ensures
            r.data == data,
    {
        A32 { data }
    }
}

/// A value meant to be placed at an address aligned to 64 bytes.
pub struct A64<T> {
    pub data: T,
}

impl<T> A64<T> {
    /// Wraps `data`.
    pub fn new(data: T) -> (r: Self)
        ensures
            r.data == data,
    {
        A64 { data }
    }
}

/// A value meant to be placed at an address aligned to 128 bytes.
pub struct A128<T> {
    pub data: T,
}

impl<T> A128<T> {
    /// Wraps `data`.
    pub fn new(data: T) -> (r: Self)
        ensures
            r.data == data,
    {
        A128 { data }
    }
}

/// A value meant to be placed at an address aligned to 256 bytes.
pub struct A256<T> {
    pub data: T,
}

impl<T> A256<T> {
    /// Wraps `data`.
    pub fn new(data: T) -> (r: Self)
        ensures
            r.data == data,
    {
        A256 { data }
    }
}

/// A value meant to be placed at an address aligned to 512 bytes.
pub struct A512<T> {
    pub data: T,
}

impl<T> A512<T> {
    /// Wraps `data`.
    pub fn new(data: T) -> (r: Self)
        ensures
            r.data == data,
    {
        A512 { data }
    }
}

/// A value meant to be placed at an address aligned to 1024 bytes.
pub struct A1024<T> {
    pub data: T,
}

impl<T> A1024<T> {
    /// Wraps `data`.
    pub fn new(data: T) -> (r: Self)
        ensures
            r.data == data,
    {
        A1024 { data }
    }
}

/// A value meant to be placed at an address aligned to 2048 bytes.
pub struct A2048<T> {
    pub data: T,
}

impl<T> A2048<T> {
    /// Wraps `data`.
    pub fn new(data: T) -> (r: Self)
        ensures
            r.data == data,
    {
        A2048 { data }
    }
}

/// A value meant to be placed at an address aligned to 4096 bytes.
pub struct A4096<T> {
    pub data: T,
}

impl<T> A4096<T> {
    /// Wraps `data`.
    pub fn new(data: T) -> (r: Self)
        ensures
            r.data == data,
    {
        A4096 { data }
    }
}

/// A value meant to be placed at an address aligned to 8192 bytes.
pub struct A8192<T> {
    pub data: T,
}

impl<T> A8192<T> {
    /// Wraps `data`.
    pub fn new(data: T) -> (r: Self)
        ensures
            r.data == data,
    {
        A8192 { data }
    }
}

} // verus!
