//! `NSProcessInfo`: the process-wide singleton.
use vstd::prelude::*;
use crate::environment::Environment;
use crate::objc::{id, ClassId, HostObject, ObjectRecord};

verus! {

pub struct State {
    /// `NSProcessInfo*`
    pub process_info: Option<id>,
}

impl Default for State {
    fn default() -> (s: State)
        ensures
            s.process_info is None,
    {
        State { process_info: None }
    }
}

/// `[NSProcessInfo processInfo]`: the singleton, made on first request.
pub fn process_info(env: &mut Environment) -> (o: id)
    requires
        old(env).wf(),
        old(env).mem@.len() + 4 <= u32::MAX,
    ensures
        final(env).objc.autorelease_pool@ == old(env).objc.autorelease_pool@,
        final(env).wf(),
        old(env).framework_state.ns_process_info.process_info matches Some(x) ==> o == x
            && *final(env) == *old(env),
        old(env).framework_state.ns_process_info.process_info is None ==> {
            &&& o == old(env).mem@.len()
            &&& !old(env).objc.objects@.contains_key(o)
            &&& final(env).objc.objects@ == old(env).objc.objects@.insert(
                o,
                ObjectRecord {
                    class: ClassId::NSProcessInfo,
                    host: HostObject::Plain,
                    refcount: 1,
                    is_static: false,
                },
            )
            &&& final(env).mem@.len() == old(env).mem@.len() + 4
            &&& final(env).framework_state == with_process_info(
                old(env).framework_state,
                Some(o),
            )
        },
{
    if let Some(existing) = env.framework_state.ns_process_info.process_info {
        return existing;
    }
    let o = env.objc.alloc_object(ClassId::NSProcessInfo, HostObject::Plain, &mut env.mem);
    env.framework_state.ns_process_info.process_info = Some(o);
    o
}

pub open spec fn with_process_info(
    fs: crate::environment::FrameworkState,
    v: Option<id>,
) -> crate::environment::FrameworkState {
    crate::environment::FrameworkState { ns_process_info: State { process_info: v }, ..fs }
}

/// Checks that `this` is the process-info singleton (anything else stops
/// the emulator, so callers must pass the singleton).
pub fn assert_process_info_singleton(env: &mut Environment, this: id)
    requires
        old(env).framework_state.ns_process_info.process_info == Some(this),
    ensures
        *final(env) == *old(env),
{
}

} // verus!
