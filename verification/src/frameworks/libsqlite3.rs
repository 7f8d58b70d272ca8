//! SQLite: the bookkeeping of database handles. Opening the database file
//! is done by the caller; this module builds the file's path, hands out
//! handles and closes them.
use vstd::prelude::*;
use std::collections::HashSet;
use crate::environment::{with_sqlite, Environment};
use crate::frameworks::libxml2::{cstr_or_empty, read_cstr, readable_cstr};
use crate::external::{utf8_lossy, utf8_lossy_decoded};
use crate::mem::{spliced, u32_le_bytes};

verus! {

broadcast use vstd::std_specs::hash::group_hash_axioms;

pub const SQLITE_OK: u32 = 0;
pub const SQLITE_ERROR: u32 = 1;

/// The first handle given out.
pub const FIRST_HANDLE: u32 = 0x8000_0000;

/// The open connections, by handle. Handles go up in steps of 4.
pub struct SqliteState {
    pub handles: HashSet<u32>,
    pub next_handle: u32,
}

impl SqliteState {
    pub open spec fn wf(&self) -> bool {
        forall|h: u32| #[trigger] self.handles@.contains(h) ==> h < self.next_handle
    }

    pub fn new() -> (s: SqliteState)
        ensures
            s.wf(),
            s.handles@ == Set::<u32>::empty(),
            s.next_handle == FIRST_HANDLE,
    {
        SqliteState { handles: HashSet::new(), next_handle: FIRST_HANDLE }
    }
}

/// `sqlite3_close`: forgets the connection `p_db`; `SQLITE_ERROR` when no
/// such connection is open.
pub fn sqlite3_close(env: &mut Environment, p_db: u32) -> (r: u32)
    requires
        old(env).wf(),
    ensures
        final(env).wf(),
        final(env).mem == old(env).mem,
        final(env).objc == old(env).objc,
        r == if old(env).framework_state.sqlite.handles@.contains(p_db) {
            SQLITE_OK
        } else {
            SQLITE_ERROR
        },
        final(env).framework_state.sqlite.handles@ == old(env).framework_state.sqlite.handles@.remove(p_db),
        final(env).framework_state.sqlite.next_handle == old(env).framework_state.sqlite.next_handle,
        final(env).framework_state == with_sqlite(old(env).framework_state, final(env).framework_state.sqlite),
{
    if env.framework_state.sqlite.handles.remove(&p_db) {
        SQLITE_OK
    } else {
        SQLITE_ERROR
    }
}

/// `sqlite3_close_v2`: as `sqlite3_close`.
pub fn sqlite3_close_v2(env: &mut Environment, p_db: u32) -> (r: u32)
    requires
        old(env).wf(),
    ensures
        final(env).wf(),
        final(env).mem == old(env).mem,
        final(env).objc == old(env).objc,
        r == if old(env).framework_state.sqlite.handles@.contains(p_db) {
            SQLITE_OK
        } else {
            SQLITE_ERROR
        },
        final(env).framework_state.sqlite.handles@ == old(env).framework_state.sqlite.handles@.remove(p_db),
        final(env).framework_state.sqlite.next_handle == old(env).framework_state.sqlite.next_handle,
        final(env).framework_state == with_sqlite(old(env).framework_state, final(env).framework_state.sqlite),
{
    if env.framework_state.sqlite.handles.remove(&p_db) {
        SQLITE_OK
    } else {
        SQLITE_ERROR
    }
}

/// `sqlite3_free`: gives a block back to guest memory; null is ignored.
pub fn sqlite3_free(env: &mut Environment, ptr: u32)
    requires
        old(env).wf(),
    ensures
        final(env).wf(),
        final(env).mem@ == old(env).mem@,
        final(env).objc == old(env).objc,
        final(env).framework_state == old(env).framework_state,
        ptr == 0 ==> final(env).mem == old(env).mem,
        ptr != 0 ==> final(env).mem.live_blocks().to_set() == old(env).mem.live_blocks().to_set().remove(ptr),
{
    if ptr == 0 {
        return;
    }
    env.mem.free(ptr);
}

/// The directory that holds the applications' databases.
pub open spec fn db_dir() -> Seq<char> {
    "/storage/emulated/0/Android/data/org.touchhle.android.unofficial/files/touchHLE_apps/"@
}

/// `s` with every `/` replaced by `_`.
pub open spec fn slashes_to_underscores(s: Seq<char>) -> Seq<char> {
    s.map_values(|c: char| if c == '/' { '_' } else { c })
}

/// The host path of the database a guest opens by the name `name`: the
/// name, with slashes made underscores, in the databases' directory.
pub open spec fn db_path(name: Seq<u8>) -> Seq<char> {
    db_dir() + slashes_to_underscores(utf8_lossy_decoded(name))
}

/// The host path for the database named by the string at `filename_ptr`.
pub fn db_path_for(env: &Environment, filename_ptr: u32) -> (path: String)
    requires
        env.wf(),
        readable_cstr(env.mem@, filename_ptr),
    ensures
        path@ == db_path(cstr_or_empty(env.mem@, filename_ptr)),
{
    let bytes = read_cstr(env, filename_ptr);
    let filename = utf8_lossy(&bytes);
    let chars = crate::unicode::chars_of(filename.as_str());
    let dir = "/storage/emulated/0/Android/data/org.touchhle.android.unofficial/files/touchHLE_apps/";
    let mut path = dir.to_owned();
    let ghost start = path@;
    let mut i: usize = 0;
    while i < chars.len()
        invariant
            i <= chars@.len(),
            start == dir@,
            path@ == start + slashes_to_underscores(chars@.subrange(0, i as int)),
        decreases chars@.len() - i,
    {
        let c = chars[i];
        let d = if c == '/' {
            '_'
        } else {
            c
        };
        path.push(d);
        i = i + 1;
        assert(slashes_to_underscores(chars@.subrange(0, i as int)) =~= slashes_to_underscores(
            chars@.subrange(0, i - 1),
        ).push(d));
    }
    proof {
        reveal_strlit("/storage/emulated/0/Android/data/org.touchhle.android.unofficial/files/touchHLE_apps/");
        assert(chars@.subrange(0, chars@.len() as int) =~= chars@);
    }
    path
}

/// Records a database connection that was just opened: hands out the next
/// handle, writes it to `*pp_db` and answers `SQLITE_OK`.
pub fn register_connection(env: &mut Environment, pp_db: u32) -> (r: u32)
    requires
        old(env).wf(),
        pp_db + 4 <= old(env).mem@.len(),
        old(env).framework_state.sqlite.next_handle + 4 <= u32::MAX,
    ensures
        final(env).wf(),
        r == SQLITE_OK,
        final(env).objc == old(env).objc,
        final(env).mem@ == spliced(
            old(env).mem@,
            pp_db as int,
            u32_le_bytes(old(env).framework_state.sqlite.next_handle),
        ),
        final(env).mem.live_blocks() == old(env).mem.live_blocks(),
        final(env).framework_state.sqlite.next_handle == old(env).framework_state.sqlite.next_handle + 4,
        final(env).framework_state.sqlite.handles@ == old(env).framework_state.sqlite.handles@.insert(
            old(env).framework_state.sqlite.next_handle,
        ),
        final(env).framework_state == with_sqlite(old(env).framework_state, final(env).framework_state.sqlite),
{
    let handle = env.framework_state.sqlite.next_handle;
    env.framework_state.sqlite.next_handle = handle + 4;
    env.framework_state.sqlite.handles.insert(handle);
    env.mem.write_u32(pp_db, handle);
    SQLITE_OK
}

} // verus!
