//! Marshalling of Rust values to and from a foreign, garbage-collected
//! runtime, over the wire format of the `borsh` crate.
//!
//! The library is organised around two capability traits, [`ToHaskell`] and
//! [`FromHaskell`], both parameterized by an extension marker `Tag` so that
//! independent libraries can provide encodings for types they do not own.
//! [`HaskellSize`] and [`HaskellMaxSize`] compute static (maximum) sizes of
//! the encoded form, and the `marshall_*` functions negotiate buffer sizes
//! with the foreign caller.

pub mod base_codec;
pub mod cursor;
pub mod derived;
pub mod deriving_via;
pub mod error;
pub mod from_haskell;
pub mod haskell_max_size;
pub mod haskell_size;
pub mod instances;
pub mod tagged;
pub mod to_haskell;
pub mod use_borsh;
pub mod wire;

pub use cursor::ByteCursor;
pub use deriving_via::tag_val;
pub use deriving_via::untag_ref;
pub use deriving_via::untag_val;
pub use deriving_via::Haskell;
pub use error::MarshalError;
pub use from_haskell::FromHaskell;
pub use haskell_max_size::HaskellMaxSize;
pub use haskell_size::HaskellSize;
pub use from_haskell::marshall_from_haskell_fixed;
pub use from_haskell::marshall_from_haskell_var;
pub use to_haskell::marshall_result_to_haskell_var;
pub use to_haskell::marshall_to_haskell_fixed;
pub use to_haskell::marshall_to_haskell_max;
pub use to_haskell::marshall_to_haskell_var;
pub use tagged::tag;
pub use tagged::Tagged;
pub use to_haskell::ToHaskell;
pub use use_borsh::unwrap_use_borsh;
pub use use_borsh::unwrap_use_borsh_ref;
pub use use_borsh::UseBorsh;
