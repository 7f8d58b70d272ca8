//! `NSUbiquitousKeyValueStore`: the default store singleton. Its storage is
//! the local user defaults.
use vstd::prelude::*;
use crate::environment::{Environment, FrameworkState};
use crate::objc::{id, ClassId, HostObject, ObjectRecord};

verus! {

pub struct State {
    pub default_store: Option<id>,
}

impl Default for State {
    fn default() -> (s: State)
        ensures
            s.default_store is None,
    {
        State { default_store: None }
    }
}

pub open spec fn with_default_store(fs: FrameworkState, v: Option<id>) -> FrameworkState {
    FrameworkState { ns_ubiquitous_key_value_store: State { default_store: v }, ..fs }
}

/// `[NSUbiquitousKeyValueStore defaultStore]`: the singleton, made on first
/// request.
pub fn default_store(env: &mut Environment) -> (o: id)
    requires
        old(env).wf(),
        old(env).mem@.len() + 4 <= u32::MAX,
    ensures
        final(env).objc.autorelease_pool@ == old(env).objc.autorelease_pool@,
        final(env).wf(),
        old(env).framework_state.ns_ubiquitous_key_value_store.default_store matches Some(x) ==> o
            == x && *final(env) == *old(env),
        old(env).framework_state.ns_ubiquitous_key_value_store.default_store is None ==> {
            &&& o == old(env).mem@.len()
            &&& !old(env).objc.objects@.contains_key(o)
            &&& final(env).objc.objects@ == old(env).objc.objects@.insert(
                o,
                ObjectRecord {
                    class: ClassId::NSUbiquitousKeyValueStore,
                    host: HostObject::Plain,
                    refcount: 1,
                    is_static: false,
                },
            )
            &&& final(env).mem@.len() == old(env).mem@.len() + 4
            &&& final(env).framework_state == with_default_store(
                old(env).framework_state,
                Some(o),
            )
        },
{
    if let Some(existing) = env.framework_state.ns_ubiquitous_key_value_store.default_store {
        return existing;
    }
    let o = env.objc.alloc_object(ClassId::NSUbiquitousKeyValueStore, HostObject::Plain, &mut env.mem);
    env.framework_state.ns_ubiquitous_key_value_store.default_store = Some(o);
    o
}

} // verus!
