//! The Objective-C object store: every object the host created or
//! registered, keyed by its guest address, with its class, its host-side
//! data and its reference count.
use vstd::prelude::*;
use std::collections::HashMap;
use crate::frameworks::foundation::ns_string::StringHostObject;
use crate::mem::Mem;

verus! {

broadcast use vstd::std_specs::hash::group_hash_axioms;

/// An object pointer (a guest address; 0 is `nil`).
#[allow(non_camel_case_types)]
pub type id = u32;

pub const nil: id = 0;

/// The classes whose instances the host creates.
#[derive(PartialEq, Eq, Structural, Clone, Copy)]
pub enum ClassId {
    NSObject,
    NSString,
    NSMutableString,
    NSStringStatic,
    ConstantStringUtf8,
    ConstantStringUtf16,
    NSData,
    NSDate,
    NSNumber,
    NSTimer,
    NSThread,
    NSLocale,
    NSProcessInfo,
    NSUserDefaults,
    NSUbiquitousKeyValueStore,
    GKLocalPlayer,
    SCNetworkReachability,
}

/// The host-side part of an `NSThread`.
pub struct ThreadHostObject {
    pub target: id,
    /// 0 = none
    pub selector: u32,
    pub object: id,
    pub thread_dictionary: id,
    pub name: id,
    pub owned: bool,
    pub finished: bool,
    pub executing: bool,
    pub cancelled: bool,
    pub stack_size: u32,
    pub tolerate_type_mismatch: bool,
    pub is_main_thread: bool,
    pub quality_of_service: i32,
}

/// The host-side data of an object.
pub enum HostObject {
    /// No host-side data.
    Plain,
    Str(StringHostObject),
    /// Bytes in guest memory.
    Data { bytes: u32, length: u32 },
    Thread(ThreadHostObject),
    /// A reachability target: host name (if made from one), callback and
    /// its context.
    Reachability { name: Option<String>, callout: u32, context: u32 },
}

pub struct ObjectRecord {
    pub class: ClassId,
    pub host: HostObject,
    pub refcount: u32,
    /// Static objects (such as constant strings in the binary) are never
    /// freed, and retain and release do nothing to them.
    pub is_static: bool,
}

pub struct ObjC {
    pub objects: HashMap<u32, ObjectRecord>,
    /// The guest address of each class object made so far, by class code.
    pub classes: HashMap<u32, u32>,
    /// The objects handed to the autorelease pool since it was last
    /// drained, in order (an object may stand more than once).
    pub autorelease_pool: Vec<id>,
}

/// A number for each class, to key the class table.
pub open spec fn class_code(c: ClassId) -> u32 {
    match c {
        ClassId::NSObject => 0,
        ClassId::NSString => 1,
        ClassId::NSMutableString => 2,
        ClassId::NSStringStatic => 3,
        ClassId::ConstantStringUtf8 => 4,
        ClassId::ConstantStringUtf16 => 5,
        ClassId::NSData => 6,
        ClassId::NSDate => 14,
        ClassId::NSNumber => 15,
        ClassId::NSTimer => 16,
        ClassId::NSThread => 7,
        ClassId::NSLocale => 8,
        ClassId::NSProcessInfo => 9,
        ClassId::NSUserDefaults => 10,
        ClassId::NSUbiquitousKeyValueStore => 11,
        ClassId::GKLocalPlayer => 12,
        ClassId::SCNetworkReachability => 13,
    }
}

pub fn class_code_exec(c: ClassId) -> (r: u32)
    ensures
        r == class_code(c),
{
    match c {
        ClassId::NSObject => 0,
        ClassId::NSString => 1,
        ClassId::NSMutableString => 2,
        ClassId::NSStringStatic => 3,
        ClassId::ConstantStringUtf8 => 4,
        ClassId::ConstantStringUtf16 => 5,
        ClassId::NSData => 6,
        ClassId::NSDate => 14,
        ClassId::NSNumber => 15,
        ClassId::NSTimer => 16,
        ClassId::NSThread => 7,
        ClassId::NSLocale => 8,
        ClassId::NSProcessInfo => 9,
        ClassId::NSUserDefaults => 10,
        ClassId::NSUbiquitousKeyValueStore => 11,
        ClassId::GKLocalPlayer => 12,
        ClassId::SCNetworkReachability => 13,
    }
}

impl ObjC {
    pub open spec fn wf(&self) -> bool {
        &&& !self.objects@.contains_key(nil)
        &&& forall|o: u32| #[trigger]
            self.objects@.contains_key(o) ==> (self.objects@[o].is_static
                || self.objects@[o].refcount >= 1)
    }

    pub fn new() -> (o: ObjC)
        ensures
            o.wf(),
            o.objects@ == Map::<u32, ObjectRecord>::empty(),
            o.classes@ == Map::<u32, u32>::empty(),
            o.autorelease_pool@ == Seq::<id>::empty(),
    {
        ObjC { objects: HashMap::new(), classes: HashMap::new(), autorelease_pool: Vec::new() }
    }

    /// The guest address of a class object, made (four bytes of fresh
    /// memory) on first request.
    pub fn get_known_class(&mut self, c: ClassId, mem: &mut Mem) -> (a: u32)
        requires
            old(self).wf(),
            old(mem).wf(),
            !old(self).classes@.contains_key(class_code(c)) ==> old(mem)@.len() + 4 <= u32::MAX,
        ensures
            final(self).wf(),
            final(mem).wf(),
            final(self).objects@ == old(self).objects@,
            final(self).autorelease_pool@ == old(self).autorelease_pool@,
            old(self).classes@.contains_key(class_code(c)) ==> {
                &&& a == old(self).classes@[class_code(c)]
                &&& final(self).classes@ == old(self).classes@
                &&& *final(mem) == *old(mem)
            },
            !old(self).classes@.contains_key(class_code(c)) ==> {
                &&& a == old(mem)@.len()
                &&& final(self).classes@ == old(self).classes@.insert(class_code(c), a)
                &&& final(mem)@ == old(mem)@ + Seq::new(4, |i: int| 0u8)
                &&& final(mem).live_blocks() == old(mem).live_blocks().push(a)
            },
    {
        let code = class_code_exec(c);
        match self.classes.get(&code) {
            Some(a) => *a,
            None => {
                let a = mem.allocate(4);
                self.classes.insert(code, a);
                a
            },
        }
    }

    /// Whether `o` names a live object.
    pub fn is_live(&self, o: id) -> (r: bool)
        ensures
            r == self.objects@.contains_key(o),
    {
        self.objects.contains_key(&o)
    }

    pub fn class_of(&self, o: id) -> (c: ClassId)
        requires
            self.objects@.contains_key(o),
        ensures
            c == self.objects@[o].class,
    {
        self.objects.get(&o).unwrap().class
    }

    pub fn host_of(&self, o: id) -> (h: &HostObject)
        requires
            self.objects@.contains_key(o),
        ensures
            *h == self.objects@[o].host,
    {
        &self.objects.get(&o).unwrap().host
    }

    /// Creates an object of class `class` with the given host data and a
    /// reference count of one. Its address is a fresh block of guest memory.
    pub fn alloc_object(&mut self, class: ClassId, host: HostObject, mem: &mut Mem) -> (o: id)
        requires
            old(self).wf(),
            old(mem).wf(),
            old(mem)@.len() + 4 <= u32::MAX,
            forall|x: u32| #[trigger] old(self).objects@.contains_key(x) ==> x < old(mem)@.len(),
        ensures
            final(self).wf(),
            final(mem).wf(),
            o == old(mem)@.len(),
            o != nil,
            !old(self).objects@.contains_key(o),
            final(mem)@ == old(mem)@ + Seq::new(4, |i: int| 0u8),
            final(mem).live_blocks() == old(mem).live_blocks().push(o),
            final(self).classes == old(self).classes,
            final(self).autorelease_pool@ == old(self).autorelease_pool@,
            final(self).objects@ == old(self).objects@.insert(
                o,
                ObjectRecord { class, host, refcount: 1, is_static: false },
            ),
    {
        let o = mem.allocate(4);
        self.objects.insert(o, ObjectRecord { class, host, refcount: 1, is_static: false });
        o
    }

    /// Registers an object that lives at a fixed address, such as a constant
    /// in the binary.
    pub fn register_static_object(&mut self, o: id, class: ClassId, host: HostObject)
        requires
            old(self).wf(),
            o != nil,
        ensures
            final(self).wf(),
            final(self).classes == old(self).classes,
            final(self).autorelease_pool@ == old(self).autorelease_pool@,
            final(self).objects@ == old(self).objects@.insert(
                o,
                ObjectRecord { class, host, refcount: 0, is_static: true },
            ),
    {
        self.objects.insert(o, ObjectRecord { class, host, refcount: 0, is_static: true });
    }

    /// Replaces the host data of a live object.
    pub fn set_host(&mut self, o: id, host: HostObject)
        requires
            old(self).wf(),
            old(self).objects@.contains_key(o),
        ensures
            final(self).wf(),
            final(self).classes == old(self).classes,
            final(self).autorelease_pool@ == old(self).autorelease_pool@,
            final(self).objects@ == old(self).objects@.insert(
                o,
                ObjectRecord {
                    class: old(self).objects@[o].class,
                    host,
                    refcount: old(self).objects@[o].refcount,
                    is_static: old(self).objects@[o].is_static,
                },
            ),
    {
        let rec = self.objects.remove(&o).unwrap();
        self.objects.insert(
            o,
            ObjectRecord { class: rec.class, host, refcount: rec.refcount, is_static: rec.is_static },
        );
    }
}

/// What `retain` does to the object table.
pub open spec fn retained(objects: Map<u32, ObjectRecord>, o: id) -> Map<u32, ObjectRecord> {
    if o == nil || objects[o].is_static {
        objects
    } else {
        objects.insert(
            o,
            ObjectRecord {
                class: objects[o].class,
                host: objects[o].host,
                refcount: (objects[o].refcount + 1) as u32,
                is_static: false,
            },
        )
    }
}

/// What `release` does to the object table: the last release of a
/// non-static object deallocates it.
pub open spec fn released(objects: Map<u32, ObjectRecord>, o: id) -> Map<u32, ObjectRecord> {
    if o == nil || objects[o].is_static {
        objects
    } else if objects[o].refcount <= 1 {
        objects.remove(o)
    } else {
        objects.insert(
            o,
            ObjectRecord {
                class: objects[o].class,
                host: objects[o].host,
                refcount: (objects[o].refcount - 1) as u32,
                is_static: false,
            },
        )
    }
}

/// Whether `release` deallocates `o`.
pub open spec fn release_frees(objects: Map<u32, ObjectRecord>, o: id) -> bool {
    o != nil && !objects[o].is_static && objects[o].refcount <= 1
}

/// Adds one reference to `o` (nothing for `nil` or a static object).
pub fn retain(objc: &mut ObjC, o: id)
    requires
        old(objc).wf(),
        o == nil || old(objc).objects@.contains_key(o),
        o != nil && !old(objc).objects@[o].is_static ==> old(objc).objects@[o].refcount < u32::MAX,
    ensures
        final(objc).wf(),
        final(objc).objects@ == retained(old(objc).objects@, o),
        final(objc).classes == old(objc).classes,
        final(objc).autorelease_pool@ == old(objc).autorelease_pool@,
{
    if o == nil {
        return;
    }
    let rec = objc.objects.remove(&o).unwrap();
    let refcount = if rec.is_static {
        rec.refcount
    } else {
        rec.refcount + 1
    };
    objc.objects.insert(
        o,
        ObjectRecord { class: rec.class, host: rec.host, refcount, is_static: rec.is_static },
    );
    proof {
        if old(objc).objects@[o].is_static {
            assert(objc.objects@ =~= old(objc).objects@);
        }
    }
}

/// Drops one reference to `o` (nothing for `nil` or a static object); the
/// last one deallocates the object and gives its memory back.
pub fn release(objc: &mut ObjC, mem: &mut Mem, o: id)
    requires
        old(objc).wf(),
        old(mem).wf(),
        o == nil || old(objc).objects@.contains_key(o),
    ensures
        final(objc).wf(),
        final(mem).wf(),
        final(mem)@ == old(mem)@,
        final(objc).objects@ == released(old(objc).objects@, o),
        final(objc).classes == old(objc).classes,
        final(objc).autorelease_pool@ == old(objc).autorelease_pool@,
        release_frees(old(objc).objects@, o) ==> final(mem).live_blocks().to_set() == old(
            mem,
        ).live_blocks().to_set().remove(o),
        !release_frees(old(objc).objects@, o) ==> final(mem).live_blocks() == old(
            mem,
        ).live_blocks(),
{
    if o == nil {
        return;
    }
    let rec = objc.objects.remove(&o).unwrap();
    if rec.is_static {
        objc.objects.insert(o, rec);
        assert(objc.objects@ =~= old(objc).objects@);
        return;
    }
    if rec.refcount <= 1 {
        mem.free(o);
        return;
    }
    objc.objects.insert(
        o,
        ObjectRecord {
            class: rec.class,
            host: rec.host,
            refcount: rec.refcount - 1,
            is_static: false,
        },
    );
}

/// Hands `o` to the autorelease pool, which releases it once when drained
/// (nothing for `nil`); returns `o`.
pub fn autorelease(objc: &mut ObjC, o: id) -> (r: id)
    ensures
        r == o,
        final(objc).objects == old(objc).objects,
        final(objc).classes == old(objc).classes,
        final(objc).autorelease_pool@ == if o == nil {
            old(objc).autorelease_pool@
        } else {
            old(objc).autorelease_pool@.push(o)
        },
{
    if o != nil {
        objc.autorelease_pool.push(o);
    }
    o
}

/// The object table after releasing each object of `pool` in turn; an
/// object that is no longer live is passed over.
pub open spec fn drained(objects: Map<u32, ObjectRecord>, pool: Seq<id>) -> Map<u32, ObjectRecord>
    decreases pool.len(),
{
    if pool.len() == 0 {
        objects
    } else {
        let o = pool[0];
        let next = if objects.contains_key(o) {
            released(objects, o)
        } else {
            objects
        };
        drained(next, pool.drop_first())
    }
}

/// Drains the autorelease pool: each object in it is released once, in
/// the order it was handed over, and the pool is left empty.
pub fn drain_autorelease_pool(objc: &mut ObjC, mem: &mut Mem)
    requires
        old(objc).wf(),
        old(mem).wf(),
    ensures
        final(objc).wf(),
        final(mem).wf(),
        final(mem)@ == old(mem)@,
        final(objc).objects@ == drained(old(objc).objects@, old(objc).autorelease_pool@),
        final(objc).classes == old(objc).classes,
        final(objc).autorelease_pool@ == Seq::<id>::empty(),
{
    let mut pool: Vec<id> = Vec::new();
    std::mem::swap(&mut pool, &mut objc.autorelease_pool);
    let ghost p0 = pool@;
    let ghost objects0 = objc.objects@;
    let mut i: usize = 0;
    assert(p0.subrange(0, p0.len() as int) =~= p0);
    while i < pool.len()
        invariant
            pool@ == p0,
            p0 == old(objc).autorelease_pool@,
            objc.wf(),
            mem.wf(),
            mem@ == old(mem)@,
            objc.classes == old(objc).classes,
            objc.autorelease_pool@ == Seq::<id>::empty(),
            i <= p0.len(),
            drained(objc.objects@, p0.subrange(i as int, p0.len() as int)) == drained(
                old(objc).objects@,
                p0,
            ),
        decreases p0.len() - i,
    {
        let o = pool[i];
        let ghost rest = p0.subrange(i as int, p0.len() as int);
        assert(rest[0] == o);
        assert(rest.drop_first() =~= p0.subrange(i + 1, p0.len() as int));
        if objc.objects.contains_key(&o) {
            release(objc, mem, o);
        }
        i = i + 1;
    }
    assert(p0.subrange(i as int, p0.len() as int) =~= Seq::<id>::empty());
}

} // verus!
