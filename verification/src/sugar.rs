use vstd::prelude::*;

verus! {

/// The page size that a wrapped producer gets.
pub const DEFAULT_PAGE_SIZE: u128 = 1024;

/// The number of bytes in a kibibyte.
pub const KIB: u128 = 1024;

/// The number of bytes in a mebibyte.
pub const MIB: u128 = 1048576;

/// The number of bytes in a gibibyte.
pub const GIB: u128 = 1073741824;

/// A size hint: a number of bytes, kibibytes, mebibytes or gibibytes.
#[derive(Clone, Copy, Debug)]
pub enum FileSize {
    Bytes(u128),
    Kbs(u128),
    Mbs(u128),
    Gbs(u128),
}

impl Default for FileSize {
    fn default() -> (size: Self)
        ensures
            size == FileSize::Bytes(0),
    {
        FileSize::Bytes(0)
    }
}

/// `byte_unit::n_kib_bytes`: `n` times 1024.
#[verifier::external_body]
fn kib_bytes(n: u128) -> (bytes: u128)
    requires
        n * KIB <= u128::MAX,
    ensures
        bytes == n * KIB,
{
    byte_unit::n_kib_bytes(n)
}

/// `byte_unit::n_mib_bytes`: `n` times 1024 * 1024.
#[verifier::external_body]
fn mib_bytes(n: u128) -> (bytes: u128)
    requires
        n * MIB <= u128::MAX,
    ensures
        bytes == n * MIB,
{
    byte_unit::n_mib_bytes(n)
}

/// `byte_unit::n_gib_bytes`: `n` times 1024 * 1024 * 1024.
#[verifier::external_body]
fn gib_bytes(n: u128) -> (bytes: u128)
    requires
        n * GIB <= u128::MAX,
    ensures
        bytes == n * GIB,
{
    byte_unit::n_gib_bytes(n)
}

impl FileSize {
    /// The size in bytes.
    pub open spec fn bytes(self) -> int {
        match self {
            FileSize::Bytes(n) => n as int,
            FileSize::Kbs(n) => n * KIB,
            FileSize::Mbs(n) => n * MIB,
            FileSize::Gbs(n) => n * GIB,
        }
    }

    /// The size in bytes.
    pub fn size(self) -> (bytes: u128)
        requires
            self.bytes() <= u128::MAX,
        ensures
            bytes == self.bytes(),
    {
        match self {
            FileSize::Bytes(n) => n,
            FileSize::Kbs(n) => kib_bytes(n),
            FileSize::Mbs(n) => mib_bytes(n),
            FileSize::Gbs(n) => gib_bytes(n),
        }
    }
}

/// The options of a wrapped producer: the root of its cache, and size hints
/// in four units.
pub struct StoreArgs {
    pub root: Option<String>,
    pub bytes: FileSize,
    pub kbs: FileSize,
    pub mbs: FileSize,
    pub gbs: FileSize,
}

impl StoreArgs {
    /// The sum of the four size hints, in bytes.
    pub open spec fn total(self) -> int {
        self.gbs.bytes() + self.mbs.bytes() + self.kbs.bytes() + self.bytes.bytes()
    }

    /// The sum of the four size hints, in bytes.
    pub fn file_size(&self) -> (bytes: u128)
        requires
            self.total() <= u128::MAX,
        ensures
            bytes == self.total(),
    {
        proof {
            assert(self.gbs.bytes() >= 0 && self.mbs.bytes() >= 0 && self.kbs.bytes() >= 0
                && self.bytes.bytes() >= 0) by (nonlinear_arith);
        }
        self.gbs.size() + self.mbs.size() + self.kbs.size() + self.bytes.size()
    }
}

/// What of a function's declaration decides whether it can be wrapped.
pub struct FnShape {
    /// It is declared `const`.
    pub is_const: bool,
    /// It is declared for a foreign calling convention.
    pub has_abi: bool,
    /// It is declared `async`.
    pub is_async: bool,
    /// One of its parameters is a receiver.
    pub has_receiver: bool,
}

/// Why a function cannot be wrapped.
#[derive(Debug, PartialEq, Eq, Structural)]
pub enum Rejection {
    /// It is a `const` function.
    Const,
    /// It is declared for a foreign calling convention.
    Abi,
    /// It is not `async`.
    NotAsync,
    /// It is a method.
    Method,
}

/// Says whether a function of the shape `shape` can be wrapped, and if not,
/// the first reason that speaks against it: it must not be `const`, must not
/// be declared for a foreign calling convention, must be `async`, and must
/// take no receiver.
pub fn check_shape(shape: &FnShape) -> (res: Result<(), Rejection>)
    ensures
        res == (if shape.is_const {
            Err::<(), Rejection>(Rejection::Const)
        } else if shape.has_abi {
            Err::<(), Rejection>(Rejection::Abi)
        } else if !shape.is_async {
            Err::<(), Rejection>(Rejection::NotAsync)
        } else if shape.has_receiver {
            Err::<(), Rejection>(Rejection::Method)
        } else {
            Ok::<(), Rejection>(())
        }),
{
    if shape.is_const {
        Err(Rejection::Const)
    } else if shape.has_abi {
        Err(Rejection::Abi)
    } else if !shape.is_async {
        Err(Rejection::NotAsync)
    } else if shape.has_receiver {
        Err(Rejection::Method)
    } else {
        Ok(())
    }
}

} // verus!
