//! `NSData`: the bytes behind a data object.
use vstd::prelude::*;
use crate::environment::Environment;
use crate::objc::{id, HostObject};

verus! {

/// The bytes of the data object `data`: its `length` bytes at `bytes` in
/// guest memory, none where it is empty or has no buffer.
pub open spec fn data_bytes(env: Environment, data: id) -> Seq<u8> {
    match env.objc.objects@[data].host {
        HostObject::Data { bytes, length } => if length == 0 || bytes == 0 {
            seq![]
        } else {
            env.mem@.subrange(bytes as int, bytes + length)
        },
        _ => seq![],
    }
}

/// A copy of the bytes of a data object.
pub fn to_rust_slice(env: &mut Environment, data: id) -> (v: Vec<u8>)
    requires
        old(env).wf(),
        old(env).objc.objects@.contains_key(data),
        old(env).objc.objects@[data].host is Data,
        old(env).objc.objects@[data].host matches HostObject::Data { bytes, length } ==> (length
            == 0 || bytes == 0 || bytes + length <= old(env).mem@.len()),
    ensures
        *final(env) == *old(env),
        v@ == data_bytes(*old(env), data),
{
    match env.objc.host_of(data) {
        HostObject::Data { bytes, length } => {
            if *length == 0 || *bytes == 0 {
                Vec::new()
            } else {
                env.mem.bytes_at(*bytes, *length)
            }
        },
        _ => Vec::new(),
    }
}

} // verus!
