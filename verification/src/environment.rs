//! The emulator's state as the frameworks see it: guest memory, the object
//! store and each framework's own state.
use vstd::prelude::*;
use crate::frameworks::foundation::{
    ns_locale, ns_process_info, ns_string, ns_thread, ns_ubiquitous_key_value_store,
    ns_user_defaults,
};
use crate::frameworks::game_kit::gk_local_player;
use crate::frameworks::libsqlite3::SqliteState;
use crate::frameworks::opengles::gles_guest::GlesState;
use crate::frameworks::xml_state::XmlState;
use crate::mem::Mem;
use crate::objc::ObjC;

verus! {

pub struct FrameworkState {
    pub libxml2: XmlState,
    pub sqlite: SqliteState,
    pub ns_string: ns_string::State,
    pub ns_thread: ns_thread::State,
    pub ns_locale: ns_locale::State,
    pub ns_process_info: ns_process_info::State,
    pub ns_user_defaults: ns_user_defaults::State,
    pub ns_ubiquitous_key_value_store: ns_ubiquitous_key_value_store::State,
    pub gk_local_player: gk_local_player::State,
    pub opengles: GlesState,
}

pub struct Environment {
    pub mem: Mem,
    pub objc: ObjC,
    pub framework_state: FrameworkState,
}

impl Environment {
    /// Memory, object store and handle tables are well formed, no text is
    /// pooled twice and each pooled string is a live static string holding
    /// its text, and every object lies in memory that has been handed out.
    pub open spec fn wf(&self) -> bool {
        &&& self.mem.wf()
        &&& self.objc.wf()
        &&& self.framework_state.libxml2.wf()
        &&& self.framework_state.sqlite.wf()
        &&& self.framework_state.ns_string.wf()
        &&& forall|i: int| 0 <= i < self.framework_state.ns_string.static_str_pool@.len() ==> {
            let (k, o) = #[trigger] self.framework_state.ns_string.static_str_pool@[i];
            &&& self.objc.objects@.contains_key(o)
            &&& self.objc.objects@[o].is_static
            &&& self.objc.objects@[o].class == crate::objc::ClassId::NSStringStatic
            &&& self.objc.objects@[o].host matches crate::objc::HostObject::Str(
                crate::frameworks::foundation::ns_string::StringHostObject::Utf8(s),
            ) && s@ == k@
        }
        &&& forall|o: u32| #[trigger]
            self.objc.objects@.contains_key(o) ==> o < self.mem@.len()
    }

    /// A fresh emulator state: a zeroed null page and nothing allocated, no
    /// objects or classes, and every framework in its starting state.
    pub fn new() -> (env: Environment)
        ensures
            env.wf(),
            env.objc.objects@ == Map::<u32, crate::objc::ObjectRecord>::empty(),
            env.objc.classes@ == Map::<u32, u32>::empty(),
            env.objc.autorelease_pool@ == Seq::<crate::objc::id>::empty(),
            env.mem@ == Seq::new(crate::mem::NULL_PAGE_SIZE as nat, |i: int| 0u8),
            env.mem@.len() == crate::mem::NULL_PAGE_SIZE,
            env.mem.live_blocks() == Seq::<u32>::empty(),
            starting_state(env.framework_state),
    {
        Environment {
            mem: Mem::new(),
            objc: ObjC::new(),
            framework_state: FrameworkState {
                libxml2: XmlState::new(),
                sqlite: SqliteState::new(),
                ns_string: ns_string::State::default(),
                ns_thread: ns_thread::State::default(),
                ns_locale: ns_locale::State::default(),
                ns_process_info: ns_process_info::State::default(),
                ns_user_defaults: ns_user_defaults::State::default(),
                ns_ubiquitous_key_value_store: ns_ubiquitous_key_value_store::State::default(),
                gk_local_player: gk_local_player::State::default(),
                opengles: GlesState::new(),
            },
        }
    }
}

/// Every framework's state as it is before the first call: no handles,
/// documents, connections, cached strings or singletons.
pub open spec fn starting_state(fs: FrameworkState) -> bool {
    &&& fs.libxml2.next_id == crate::frameworks::xml_state::HANDLE_BASE
    &&& fs.libxml2.handles@ == Set::<u32>::empty()
    &&& fs.libxml2.nodes@ == Map::<u32, crate::frameworks::xml_state::XmlNodeData>::empty()
    &&& fs.libxml2.docs@ == Map::<u32, crate::frameworks::xml_state::XmlDocData>::empty()
    &&& fs.libxml2.readers@ == Map::<u32, crate::frameworks::xml_state::XmlReaderData>::empty()
    &&& fs.sqlite.handles@ == Set::<u32>::empty()
    &&& fs.sqlite.next_handle == crate::frameworks::libsqlite3::FIRST_HANDLE
    &&& fs.ns_string.static_str_pool@.len() == 0
    &&& !fs.ns_thread.is_multi_threaded
    &&& fs.ns_thread.ns_threads@ == Map::<u32, crate::objc::id>::empty()
    &&& fs.ns_locale.current_locale is None
    &&& fs.ns_locale.system_locale is None
    &&& fs.ns_locale.preferred_languages is None
    &&& fs.ns_process_info.process_info is None
    &&& fs.ns_user_defaults.standard_defaults is None
    &&& fs.ns_ubiquitous_key_value_store.default_store is None
    &&& fs.gk_local_player.local_player is None
    &&& fs.opengles.strings_cache@ == Map::<u32, u32>::empty()
}

/// `fs` with its libxml2 tables replaced.
pub open spec fn with_libxml2(fs: FrameworkState, x: XmlState) -> FrameworkState {
    FrameworkState { libxml2: x, ..fs }
}

/// `fs` with its SQLite handles replaced.
pub open spec fn with_sqlite(fs: FrameworkState, x: SqliteState) -> FrameworkState {
    FrameworkState { sqlite: x, ..fs }
}

/// `new` is `old` with the object `o`, described by `rec`, made in fresh
/// guest memory.
pub open spec fn made_object(
    old: Environment,
    new: Environment,
    o: crate::objc::id,
    rec: crate::objc::ObjectRecord,
) -> bool {
    &&& o == old.mem@.len()
    &&& o != 0
    &&& !old.objc.objects@.contains_key(o)
    &&& new.objc.objects@ == old.objc.objects@.insert(o, rec)
    &&& new.objc.classes == old.objc.classes
    &&& new.objc.autorelease_pool@ == old.objc.autorelease_pool@
    &&& new.mem@ == old.mem@ + Seq::new(4, |i: int| 0u8)
    &&& new.mem.live_blocks() == old.mem.live_blocks().push(o)
    &&& new.framework_state == old.framework_state
}

impl Environment {
    /// Makes an object in fresh guest memory.
    pub fn new_object(&mut self, class: crate::objc::ClassId, host: crate::objc::HostObject) -> (o:
        crate::objc::id)
        requires
            old(self).wf(),
            old(self).mem@.len() + 4 <= u32::MAX,
        ensures
            final(self).wf(),
            made_object(
                *old(self),
                *final(self),
                o,
                crate::objc::ObjectRecord { class, host, refcount: 1, is_static: false },
            ),
    {
        self.objc.alloc_object(class, host, &mut self.mem)
    }
}

/// `new` is `old` after the class object of `rec.class` was looked up
/// (made on first use, four bytes of fresh memory) and then the object
/// `o`, described by `rec`, was made in fresh memory.
pub open spec fn made_object_of_known_class(
    old: Environment,
    new: Environment,
    o: crate::objc::id,
    rec: crate::objc::ObjectRecord,
) -> bool {
    let code = crate::objc::class_code(rec.class);
    let had = old.objc.classes@.contains_key(code);
    let grow: int = if had {
        0
    } else {
        4
    };
    &&& o == old.mem@.len() + grow
    &&& o != 0
    &&& !old.objc.objects@.contains_key(o)
    &&& new.objc.objects@ == old.objc.objects@.insert(o, rec)
    &&& new.objc.classes@ == if had {
        old.objc.classes@
    } else {
        old.objc.classes@.insert(code, old.mem@.len() as u32)
    }
    &&& new.mem@ == old.mem@ + Seq::new((grow + 4) as nat, |i: int| 0u8)
    &&& new.framework_state == old.framework_state
}

impl Environment {
    /// Looks up the class object (making it on first use), then makes an
    /// object of that class in fresh guest memory.
    pub fn new_object_of_known_class(
        &mut self,
        class: crate::objc::ClassId,
        host: crate::objc::HostObject,
    ) -> (o: crate::objc::id)
        requires
            old(self).wf(),
            old(self).mem@.len() + 8 <= u32::MAX,
        ensures
            final(self).wf(),
            made_object_of_known_class(
                *old(self),
                *final(self),
                o,
                crate::objc::ObjectRecord { class, host, refcount: 1, is_static: false },
            ),
    {
        self.objc.get_known_class(class, &mut self.mem);
        let o = self.objc.alloc_object(class, host, &mut self.mem);
        proof {
            if !old(self).objc.classes@.contains_key(crate::objc::class_code(class)) {
                assert(self.mem@ =~= old(self).mem@ + Seq::new(8, |i: int| 0u8));
            }
        }
        o
    }
}

} // verus!
