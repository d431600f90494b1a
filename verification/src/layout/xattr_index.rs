//! Name indexes for well-known xattr prefixes.

use vstd::prelude::*;

verus! {

pub const USER: u8 = 1;
pub const POSIX_ACL_ACCESS: u8 = 2;
pub const POSIX_ACL_DEFAULT: u8 = 3;
pub const TRUSTED: u8 = 4;
pub const LUSTRE: u8 = 5;
pub const SECURITY: u8 = 6;

} // verus!
