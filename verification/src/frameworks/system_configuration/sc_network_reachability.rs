//! SCNetworkReachability: reachability targets are objects that remember
//! what they were made for; the network is always reported reachable.
use vstd::prelude::*;
use vstd::utf8::{decode_utf8, valid_utf8};
use crate::environment::{made_object_of_known_class, Environment};
use crate::external::utf8_strict;
use crate::frameworks::libxml2::{cstr_or_empty, read_cstr, readable_cstr};
use crate::mem::{spliced, u32_le_bytes};
use crate::objc::{id, nil, release, released, retain, retained, ClassId, HostObject, ObjectRecord};

verus! {

pub type SCNetworkReachabilityFlags = u32;

pub const kSCNetworkReachabilityFlagsReachable: SCNetworkReachabilityFlags = 2;

/// `CFRetain`: adds a reference and returns the object.
#[allow(non_snake_case)]
pub fn CFRetain(env: &mut Environment, target: id) -> (r: id)
    requires
        old(env).wf(),
        target == nil || old(env).objc.objects@.contains_key(target),
        target != nil && !old(env).objc.objects@[target].is_static ==> old(env).objc.objects@[target].refcount < u32::MAX,
    ensures
        final(env).objc.autorelease_pool@ == old(env).objc.autorelease_pool@,
        final(env).wf(),
        r == target,
        final(env).mem == old(env).mem,
        final(env).framework_state == old(env).framework_state,
        final(env).objc.classes == old(env).objc.classes,
        final(env).objc.objects@ == retained(old(env).objc.objects@, target),
{
    retain(&mut env.objc, target);
    target
}

/// `CFRelease`: drops a reference; the last one frees the object.
#[allow(non_snake_case)]
pub fn CFRelease(env: &mut Environment, target: id)
    requires
        old(env).wf(),
        target == nil || old(env).objc.objects@.contains_key(target),
    ensures
        final(env).objc.autorelease_pool@ == old(env).objc.autorelease_pool@,
        final(env).wf(),
        final(env).mem@ == old(env).mem@,
        final(env).framework_state == old(env).framework_state,
        final(env).objc.classes == old(env).objc.classes,
        final(env).objc.objects@ == released(old(env).objc.objects@, target),
{
    release(&mut env.objc, &mut env.mem, target);
}

/// Retains a reachability target; null is passed through.
#[allow(non_snake_case)]
pub fn SCNetworkReachabilityRetain(env: &mut Environment, target: id) -> (r: id)
    requires
        old(env).wf(),
        target == nil || old(env).objc.objects@.contains_key(target),
        target != nil && !old(env).objc.objects@[target].is_static ==> old(env).objc.objects@[target].refcount < u32::MAX,
    ensures
        final(env).objc.autorelease_pool@ == old(env).objc.autorelease_pool@,
        final(env).wf(),
        r == target,
        final(env).mem == old(env).mem,
        final(env).framework_state == old(env).framework_state,
        final(env).objc.classes == old(env).objc.classes,
        final(env).objc.objects@ == retained(old(env).objc.objects@, target),
{
    if target != nil {
        CFRetain(env, target)
    } else {
        target
    }
}

/// Releases a reachability target; null is ignored.
#[allow(non_snake_case)]
pub fn SCNetworkReachabilityRelease(env: &mut Environment, target: id)
    requires
        old(env).wf(),
        target == nil || old(env).objc.objects@.contains_key(target),
    ensures
        final(env).objc.autorelease_pool@ == old(env).objc.autorelease_pool@,
        final(env).wf(),
        final(env).mem@ == old(env).mem@,
        final(env).framework_state == old(env).framework_state,
        final(env).objc.classes == old(env).objc.classes,
        final(env).objc.objects@ == released(old(env).objc.objects@, target),
{
    if target != nil {
        CFRelease(env, target);
    }
}

/// The host name a target made from `name` remembers: the name where it is
/// valid UTF-8, else the empty string.
pub open spec fn reachability_name(name: Seq<u8>) -> Seq<char> {
    if valid_utf8(name) {
        decode_utf8(name)
    } else {
        seq![]
    }
}

/// A reachability target for the host named by the string at `name`.
#[allow(non_snake_case)]
pub fn SCNetworkReachabilityCreateWithName(env: &mut Environment, allocator: u32, name: u32) -> (r: id)
    requires
        old(env).wf(),
        readable_cstr(old(env).mem@, name),
        old(env).mem@.len() + 8 <= u32::MAX,
    ensures
        final(env).wf(),
        final(env).objc.objects@.dom() == old(env).objc.objects@.dom().insert(r),
        !old(env).objc.objects@.contains_key(r),
        forall|x: u32| #[trigger] old(env).objc.objects@.contains_key(x) ==> final(env).objc.objects@[x] == old(env).objc.objects@[x],
        final(env).objc.objects@[r].class == ClassId::SCNetworkReachability,
        final(env).objc.objects@[r].refcount == 1,
        !final(env).objc.objects@[r].is_static,
        final(env).objc.objects@[r].host matches HostObject::Reachability { name: Some(n), callout, context }
            && n@ == reachability_name(cstr_or_empty(old(env).mem@, name)) && callout == 0 && context == 0,
        made_object_of_known_class(*old(env), *final(env), r, final(env).objc.objects@[r]),
{
    let bytes = read_cstr(env, name);
    let name_str: String = match utf8_strict(&bytes) {
        Some(s) => s,
        None => String::new(),
    };
    let o = env.new_object_of_known_class(
        ClassId::SCNetworkReachability,
        HostObject::Reachability { name: Some(name_str), callout: 0, context: 0 },
    );
    assert(env.objc.objects@.dom() =~= old(env).objc.objects@.dom().insert(o));
    o
}

/// A reachability target for an address (which is not looked at).
#[allow(non_snake_case)]
pub fn SCNetworkReachabilityCreateWithAddress(env: &mut Environment, allocator: u32, address: u32) -> (r: id)
    requires
        old(env).wf(),
        old(env).mem@.len() + 8 <= u32::MAX,
    ensures
        final(env).wf(),
        made_object_of_known_class(
            *old(env),
            *final(env),
            r,
            ObjectRecord {
                class: ClassId::SCNetworkReachability,
                host: HostObject::Reachability { name: None, callout: 0, context: 0 },
                refcount: 1,
                is_static: false,
            },
        ),
{
    env.new_object_of_known_class(
        ClassId::SCNetworkReachability,
        HostObject::Reachability { name: None, callout: 0, context: 0 },
    )
}

/// A reachability target for a pair of addresses (which are not looked at).
#[allow(non_snake_case)]
pub fn SCNetworkReachabilityCreateWithAddressPair(
    env: &mut Environment,
    allocator: u32,
    local: u32,
    remote: u32,
) -> (r: id)
    requires
        old(env).wf(),
        old(env).mem@.len() + 8 <= u32::MAX,
    ensures
        final(env).wf(),
        made_object_of_known_class(
            *old(env),
            *final(env),
            r,
            ObjectRecord {
                class: ClassId::SCNetworkReachability,
                host: HostObject::Reachability { name: None, callout: 0, context: 0 },
                refcount: 1,
                is_static: false,
            },
        ),
{
    env.new_object_of_known_class(
        ClassId::SCNetworkReachability,
        HostObject::Reachability { name: None, callout: 0, context: 0 },
    )
}

/// Reports every target reachable: writes the flags to `*flags`.
#[allow(non_snake_case)]
pub fn SCNetworkReachabilityGetFlags(env: &mut Environment, target: id, flags: u32) -> (r: bool)
    requires
        old(env).wf(),
        flags + 4 <= old(env).mem@.len(),
    ensures
        final(env).wf(),
        r,
        final(env).mem@ == spliced(old(env).mem@, flags as int, u32_le_bytes(kSCNetworkReachabilityFlagsReachable)),
        final(env).mem.live_blocks() == old(env).mem.live_blocks(),
        final(env).objc == old(env).objc,
        final(env).framework_state == old(env).framework_state,
{
    env.mem.write_u32(flags, kSCNetworkReachabilityFlagsReachable);
    true
}

/// The host name (by its text), callback and context of a reachability
/// target.
pub open spec fn reach_fields(h: HostObject) -> (Option<Seq<char>>, u32, u32) {
    match h {
        HostObject::Reachability { name, callout, context } => (
            match name {
                Some(n) => Some(n@),
                None => None,
            },
            callout,
            context,
        ),
        _ => (None, 0, 0),
    }
}

/// Stores the callback and its context on the target; answers `false`
/// (callbacks are never made).
#[allow(non_snake_case)]
pub fn SCNetworkReachabilitySetCallback(env: &mut Environment, target: id, callout: u32, context: u32) -> (r: bool)
    requires
        old(env).wf(),
        old(env).objc.objects@.contains_key(target),
        old(env).objc.objects@[target].host is Reachability,
    ensures
        final(env).objc.autorelease_pool@ == old(env).objc.autorelease_pool@,
        final(env).wf(),
        !r,
        final(env).mem == old(env).mem,
        final(env).framework_state == old(env).framework_state,
        final(env).objc.classes == old(env).objc.classes,
        final(env).objc.objects@.dom() == old(env).objc.objects@.dom(),
        forall|x: u32| #[trigger] old(env).objc.objects@.contains_key(x) && x != target ==> final(env).objc.objects@[x] == old(env).objc.objects@[x],
        final(env).objc.objects@[target].class == old(env).objc.objects@[target].class,
        final(env).objc.objects@[target].refcount == old(env).objc.objects@[target].refcount,
        final(env).objc.objects@[target].is_static == old(env).objc.objects@[target].is_static,
        final(env).objc.objects@[target].host is Reachability,
        reach_fields(final(env).objc.objects@[target].host) == (
            reach_fields(old(env).objc.objects@[target].host).0,
            callout,
            context,
        ),
{
    let rec = env.objc.objects.remove(&target).unwrap();
    let host = match rec.host {
        HostObject::Reachability { name, .. } => HostObject::Reachability { name, callout, context },
        other => other,
    };
    env.objc.objects.insert(
        target,
        ObjectRecord { class: rec.class, host, refcount: rec.refcount, is_static: rec.is_static },
    );
    assert(env.objc.objects@.dom() =~= old(env).objc.objects@.dom());
    false
}

/// Run loops are not used: answers `false`.
#[allow(non_snake_case)]
pub fn SCNetworkReachabilityScheduleWithRunLoop(env: &mut Environment, target: id, run_loop: u32, run_loop_mode: u32) -> (r: bool)
    ensures
        !r,
        *final(env) == *old(env),
{
    false
}

/// Run loops are not used: answers `false`.
#[allow(non_snake_case)]
pub fn SCNetworkReachabilityUnscheduleFromRunLoop(env: &mut Environment, target: id, run_loop: u32, run_loop_mode: u32) -> (r: bool)
    ensures
        !r,
        *final(env) == *old(env),
{
    false
}

/// Dispatch queues are not used: answers `false`.
#[allow(non_snake_case)]
pub fn SCNetworkReachabilitySetDispatchQueue(env: &mut Environment, target: id, queue: u32) -> (r: bool)
    ensures
        !r,
        *final(env) == *old(env),
{
    false
}

} // verus!
