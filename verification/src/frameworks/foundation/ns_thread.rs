//! `NSThread`: what the host does when a thread object is detached. Running
//! the thread is the caller's business.
use vstd::prelude::*;
use std::collections::HashMap;
use crate::environment::{Environment, FrameworkState};
use crate::objc::{
    id, nil, release, released, retain, retained, ClassId, HostObject, ObjectRecord,
    ThreadHostObject,
};

verus! {

/// Default stack size of a secondary thread.
pub const SECONDARY_THREAD_DEFAULT_STACK_SIZE: u32 = 0x8_0000;

/// The default quality of service class.
pub const QOS_CLASS_DEFAULT: i32 = 0x15;

pub struct State {
    pub is_multi_threaded: bool,
    /// Thread object of each guest thread, by thread handle.
    pub ns_threads: HashMap<u32, id>,
}

impl Default for State {
    fn default() -> (s: State)
        ensures
            !s.is_multi_threaded,
            s.ns_threads@ == Map::<u32, id>::empty(),
    {
        State { is_multi_threaded: false, ns_threads: HashMap::new() }
    }
}

/// The host data of a thread object made to run `selector` on `target`
/// with `object`.
pub open spec fn new_thread_host(
    selector: u32,
    target: id,
    object: id,
    tolerate_type_mismatch: bool,
) -> ThreadHostObject {
    ThreadHostObject {
        target,
        selector,
        object,
        thread_dictionary: nil,
        name: nil,
        owned: true,
        finished: false,
        executing: false,
        cancelled: false,
        stack_size: SECONDARY_THREAD_DEFAULT_STACK_SIZE,
        tolerate_type_mismatch,
        is_main_thread: false,
        quality_of_service: QOS_CLASS_DEFAULT,
    }
}

pub open spec fn retain_ok(objects: Map<u32, ObjectRecord>, o: id) -> bool {
    o == nil || (objects.contains_key(o) && (objects[o].is_static || objects[o].refcount
        < u32::MAX))
}

/// Makes the thread object of `[NSThread detachNewThreadSelector:...]`:
/// a new thread owned by itself, which retains its target and its
/// argument, and marks the process as multi-threaded. The caller then
/// creates the guest thread (with `thread_stack_size`) and records it with
/// `thread_started`.
pub fn detach_new_thread_inner(
    env: &mut Environment,
    selector: u32,
    target: id,
    object: id,
    tolerate_type_mismatch: bool,
) -> (t: id)
    requires
        old(env).wf(),
        old(env).mem@.len() + 4 <= u32::MAX,
        retain_ok(old(env).objc.objects@, target),
        retain_ok(old(env).objc.objects@, object),
        target != nil && target == object && !old(env).objc.objects@[target].is_static ==> old(
            env,
        ).objc.objects@[target].refcount + 1 < u32::MAX,
    ensures
        final(env).objc.autorelease_pool@ == old(env).objc.autorelease_pool@,
        final(env).wf(),
        t == old(env).mem@.len(),
        !old(env).objc.objects@.contains_key(t),
        final(env).mem@.len() == old(env).mem@.len() + 4,
        final(env).objc.objects@ == retained(
            retained(
                old(env).objc.objects@.insert(
                    t,
                    ObjectRecord {
                        class: ClassId::NSThread,
                        host: HostObject::Thread(
                            new_thread_host(selector, target, object, tolerate_type_mismatch),
                        ),
                        refcount: 1,
                        is_static: false,
                    },
                ),
                target,
            ),
            object,
        ),
        final(env).framework_state == (FrameworkState {
            ns_thread: State {
                is_multi_threaded: true,
                ns_threads: old(env).framework_state.ns_thread.ns_threads,
            },
            ..old(env).framework_state
        }),
{
    let host = ThreadHostObject {
        target,
        selector,
        object,
        thread_dictionary: nil,
        name: nil,
        owned: true,
        finished: false,
        executing: false,
        cancelled: false,
        stack_size: SECONDARY_THREAD_DEFAULT_STACK_SIZE,
        tolerate_type_mismatch,
        is_main_thread: false,
        quality_of_service: QOS_CLASS_DEFAULT,
    };
    let t = env.objc.alloc_object(ClassId::NSThread, HostObject::Thread(host), &mut env.mem);
    retain(&mut env.objc, target);
    retain(&mut env.objc, object);
    env.framework_state.ns_thread.is_multi_threaded = true;
    t
}

/// The stack size with which the guest thread of `t` is created.
pub fn thread_stack_size(env: &Environment, t: id) -> (r: u32)
    requires
        env.objc.objects@.contains_key(t),
        env.objc.objects@[t].host is Thread,
    ensures
        r == thread_host(env.objc.objects@, t).stack_size,
{
    match env.objc.host_of(t) {
        HostObject::Thread(h) => h.stack_size,
        _ => SECONDARY_THREAD_DEFAULT_STACK_SIZE,
    }
}

/// `start`, once the guest thread `pthread` has been created for the
/// thread object `t`: the thread is recorded as the object of that guest
/// thread, and the process is marked as multi-threaded. A guest thread is
/// recorded once only.
pub fn thread_started(env: &mut Environment, t: id, pthread: u32)
    requires
        old(env).wf(),
        !old(env).framework_state.ns_thread.ns_threads@.contains_key(pthread),
    ensures
        final(env).wf(),
        final(env).mem == old(env).mem,
        final(env).objc == old(env).objc,
        final(env).framework_state.ns_thread.ns_threads@ == old(env).framework_state.ns_thread.ns_threads@.insert(pthread, t),
        final(env).framework_state.ns_thread.is_multi_threaded,
        final(env).framework_state == (FrameworkState {
            ns_thread: final(env).framework_state.ns_thread,
            ..old(env).framework_state
        }),
{
    env.framework_state.ns_thread.ns_threads.insert(pthread, t);
    env.framework_state.ns_thread.is_multi_threaded = true;
}

/// The thread data of `t` (defaults for an object without any).
pub open spec fn thread_host(objects: Map<u32, ObjectRecord>, t: id) -> ThreadHostObject {
    match objects[t].host {
        HostObject::Thread(h) => h,
        _ => new_thread_host(0, nil, nil, false),
    }
}

/// `objects` with the thread `t` marked as executing (or not) and finished
/// (or not).
pub open spec fn with_thread_flags(objects: Map<u32, ObjectRecord>, t: id, executing: bool, finished: bool) -> Map<u32, ObjectRecord> {
    let h = thread_host(objects, t);
    objects.insert(
        t,
        ObjectRecord {
            class: objects[t].class,
            host: HostObject::Thread(ThreadHostObject { executing, finished, ..h }),
            refcount: objects[t].refcount,
            is_static: objects[t].is_static,
        },
    )
}

fn set_thread_flags(env: &mut Environment, t: id, executing: bool, finished: bool)
    requires
        old(env).wf(),
        old(env).objc.objects@.contains_key(t),
        old(env).objc.objects@[t].host is Thread,
    ensures
        final(env).objc.autorelease_pool@ == old(env).objc.autorelease_pool@,
        final(env).wf(),
        final(env).mem == old(env).mem,
        final(env).framework_state == old(env).framework_state,
        final(env).objc.classes == old(env).objc.classes,
        final(env).objc.objects@ == with_thread_flags(old(env).objc.objects@, t, executing, finished),
{
    let h = match env.objc.host_of(t) {
        HostObject::Thread(h) => ThreadHostObject {
            target: h.target,
            selector: h.selector,
            object: h.object,
            thread_dictionary: h.thread_dictionary,
            name: h.name,
            owned: h.owned,
            finished,
            executing,
            cancelled: h.cancelled,
            stack_size: h.stack_size,
            tolerate_type_mismatch: h.tolerate_type_mismatch,
            is_main_thread: h.is_main_thread,
            quality_of_service: h.quality_of_service,
        },
        _ => new_thread_host_exec(),
    };
    env.objc.set_host(t, HostObject::Thread(h));
}

fn new_thread_host_exec() -> (h: ThreadHostObject)
    ensures
        h == new_thread_host(0, nil, nil, false),
{
    ThreadHostObject {
        target: nil,
        selector: 0,
        object: nil,
        thread_dictionary: nil,
        name: nil,
        owned: true,
        finished: false,
        executing: false,
        cancelled: false,
        stack_size: SECONDARY_THREAD_DEFAULT_STACK_SIZE,
        tolerate_type_mismatch: false,
        is_main_thread: false,
        quality_of_service: QOS_CLASS_DEFAULT,
    }
}

/// What happens before a thread's body runs: a thread object is marked as
/// executing and `true` is returned (the caller then sends it `main`); any
/// other object is left alone and `false` is returned.
pub fn thread_invocation_begin(env: &mut Environment, t: id) -> (run: bool)
    requires
        old(env).wf(),
        old(env).objc.objects@.contains_key(t),
    ensures
        final(env).objc.autorelease_pool@ == old(env).objc.autorelease_pool@,
        final(env).wf(),
        run == (old(env).objc.objects@[t].class == ClassId::NSThread && old(env).objc.objects@[t].host is Thread),
        final(env).mem == old(env).mem,
        final(env).framework_state == old(env).framework_state,
        final(env).objc.classes == old(env).objc.classes,
        run ==> final(env).objc.objects@ == with_thread_flags(old(env).objc.objects@, t, true, false),
        !run ==> final(env).objc.objects@ == old(env).objc.objects@,
{
    let class = env.objc.class_of(t);
    let is_thread = match env.objc.host_of(t) {
        HostObject::Thread(_) => true,
        _ => false,
    };
    if class != ClassId::NSThread || !is_thread {
        return false;
    }
    set_thread_flags(env, t, true, false);
    true
}

/// The object table after a thread's body has run: the thread is marked
/// finished, its argument and target are released, and so is the thread
/// itself if it owns itself.
pub open spec fn after_thread_end(objects: Map<u32, ObjectRecord>, t: id) -> Map<u32, ObjectRecord> {
    let h = thread_host(objects, t);
    let o1 = with_thread_flags(objects, t, false, true);
    let o2 = released(released(o1, h.object), h.target);
    if h.owned {
        released(o2, t)
    } else {
        o2
    }
}

/// What happens after a thread's body has run on the guest thread
/// `pthread` (see `after_thread_end`); the thread is also forgotten as the
/// object of that guest thread.
pub fn thread_invocation_end(env: &mut Environment, t: id, pthread: u32)
    requires
        old(env).wf(),
        old(env).objc.objects@.contains_key(t),
        old(env).objc.objects@[t].host is Thread,
        ({
            let h = thread_host(old(env).objc.objects@, t);
            let o1 = with_thread_flags(old(env).objc.objects@, t, false, true);
            &&& h.object == nil || o1.contains_key(h.object)
            &&& h.target == nil || released(o1, h.object).contains_key(h.target)
            &&& h.owned ==> released(released(o1, h.object), h.target).contains_key(t)
        }),
    ensures
        final(env).objc.autorelease_pool@ == old(env).objc.autorelease_pool@,
        final(env).wf(),
        final(env).mem@ == old(env).mem@,
        final(env).objc.classes == old(env).objc.classes,
        final(env).objc.objects@ == after_thread_end(old(env).objc.objects@, t),
        final(env).framework_state.ns_thread.ns_threads@ == old(env).framework_state.ns_thread.ns_threads@.remove(pthread),
        final(env).framework_state.ns_thread.is_multi_threaded == old(env).framework_state.ns_thread.is_multi_threaded,
{
    let (target, object, owned) = match env.objc.host_of(t) {
        HostObject::Thread(h) => (h.target, h.object, h.owned),
        _ => (nil, nil, false),
    };
    set_thread_flags(env, t, false, true);
    release(&mut env.objc, &mut env.mem, object);
    release(&mut env.objc, &mut env.mem, target);
    env.framework_state.ns_thread.ns_threads.remove(&pthread);
    if owned {
        release(&mut env.objc, &mut env.mem, t);
    }
}

} // verus!
