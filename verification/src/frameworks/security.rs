//! Security framework: Keychain Services stubs. Nothing is ever stored;
//! queries find nothing.
use vstd::prelude::*;
use crate::environment::Environment;
use crate::mem::{spliced, u32_le_bytes};

verus! {

pub type OSStatus = i32;

pub const ERR_SEC_SUCCESS: OSStatus = 0;

pub const ERR_SEC_ITEM_NOT_FOUND: OSStatus = -25300;

/// Finds nothing: stores nil in `*result` (if given) and answers
/// `errSecItemNotFound`.
#[allow(non_snake_case)]
pub fn SecItemCopyMatching(env: &mut Environment, query: u32, result: u32) -> (r: OSStatus)
    requires
        old(env).wf(),
        result != 0 ==> result + 4 <= old(env).mem@.len(),
    ensures
        final(env).wf(),
        r == ERR_SEC_ITEM_NOT_FOUND,
        final(env).objc == old(env).objc,
        final(env).framework_state == old(env).framework_state,
        final(env).mem.live_blocks() == old(env).mem.live_blocks(),
        result == 0 ==> final(env).mem@ == old(env).mem@,
        result != 0 ==> final(env).mem@ == spliced(old(env).mem@, result as int, u32_le_bytes(0)),
{
    if result != 0 {
        env.mem.write_u32(result, 0);
    }
    ERR_SEC_ITEM_NOT_FOUND
}

/// Pretends to store the item.
#[allow(non_snake_case)]
pub fn SecItemAdd(env: &mut Environment, attributes: u32, result: u32) -> (r: OSStatus)
    ensures
        r == ERR_SEC_SUCCESS,
        *final(env) == *old(env),
{
    ERR_SEC_SUCCESS
}

/// There is nothing to delete.
#[allow(non_snake_case)]
pub fn SecItemDelete(env: &mut Environment, query: u32) -> (r: OSStatus)
    ensures
        r == ERR_SEC_ITEM_NOT_FOUND,
        *final(env) == *old(env),
{
    ERR_SEC_ITEM_NOT_FOUND
}

/// There is nothing to update.
#[allow(non_snake_case)]
pub fn SecItemUpdate(env: &mut Environment, query: u32, attributes_to_update: u32) -> (r: OSStatus)
    ensures
        r == ERR_SEC_ITEM_NOT_FOUND,
        *final(env) == *old(env),
{
    ERR_SEC_ITEM_NOT_FOUND
}

} // verus!
