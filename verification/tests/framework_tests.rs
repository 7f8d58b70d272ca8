use touchhle::objc::{autorelease, drain_autorelease_pool};
use touchhle::frameworks::foundation::ns_timer::{timer_action, TimerAction};
use touchhle::environment::Environment;
use touchhle::frameworks::foundation::ns_character_set::{ascii_range_set, unicode_range_set};
use touchhle::frameworks::foundation::ns_data::to_rust_slice;
use touchhle::frameworks::foundation::ns_locale::{
    country_from_locale_identifier, get_preferred_countries, get_preferred_languages,
    language_from_locale_identifier, locale_identifier,
};
use touchhle::frameworks::foundation::ns_process_info::{assert_process_info_singleton, process_info};
use touchhle::frameworks::foundation::ns_string::{
    data_using_encoding_lossy_inner, from_rust_string, mutable_from_rust_string,
    string_by_replacing_occurrences, string_by_replacing_occurrences_inner, to_rust_string, NSASCIIStringEncoding,
    NSUTF16LittleEndianStringEncoding, NSUTF8StringEncoding,
};
use touchhle::frameworks::foundation::ns_thread::{
    detach_new_thread_inner, thread_invocation_begin, thread_invocation_end, thread_stack_size, thread_started,
    SECONDARY_THREAD_DEFAULT_STACK_SIZE,
};
use touchhle::frameworks::foundation::ns_time_zone::{abbr_for_name, name_for_abbr, offset_for_name};
use touchhle::frameworks::foundation::ns_ubiquitous_key_value_store::default_store;
use touchhle::frameworks::libsqlite3::{
    db_path_for, register_connection, sqlite3_close, sqlite3_close_v2, sqlite3_free, SQLITE_ERROR,
    SQLITE_OK,
};
use touchhle::frameworks::opengles::gles_guest::{
    glCreateProgram, glCreateShader, glGenVertexArrays, glGetBooleanv, glGetError, glGetFloatv,
    glGetIntegerv, glGetPointerv, GL_COMPRESSED_TEXTURE_FORMATS, GL_MAX_TEXTURE_SIZE,
    GL_NUM_COMPRESSED_TEXTURE_FORMATS, pixel_data_size, scaled_rect, GL_LUMINANCE_ALPHA, glGenVertexArraysOES, glGetProgramInfoLog,
    glGetShaderiv, glGetString, glGetUniformLocation, glIsVertexArrayOES, image_size_estimate,
    GL_RGB, GL_RGBA, GL_UNSIGNED_BYTE, GL_UNSIGNED_SHORT_5_6_5, GL_VENDOR,
};
use touchhle::frameworks::security::{
    SecItemAdd, SecItemCopyMatching, SecItemDelete, SecItemUpdate, ERR_SEC_ITEM_NOT_FOUND,
    ERR_SEC_SUCCESS,
};
use touchhle::frameworks::system_configuration::sc_network_reachability::{
    SCNetworkReachabilityCreateWithAddress, SCNetworkReachabilityCreateWithName,
    SCNetworkReachabilityGetFlags, SCNetworkReachabilityRelease, SCNetworkReachabilityRetain,
    SCNetworkReachabilitySetCallback,
};
use touchhle::objc::{HostObject, ThreadHostObject};

#[test]
fn sqlite_handles() {
    let mut env = Environment::new();
    let pp = env.mem.allocate(4);
    assert_eq!(register_connection(&mut env, pp), SQLITE_OK);
    let h = env.mem.read_u32(pp);
    assert_eq!(h, 0x8000_0000);
    assert_eq!(register_connection(&mut env, pp), SQLITE_OK);
    assert_eq!(env.mem.read_u32(pp), 0x8000_0004);
    assert_eq!(sqlite3_close(&mut env, h), SQLITE_OK);
    assert_eq!(sqlite3_close(&mut env, h), SQLITE_ERROR);
    assert_eq!(sqlite3_close_v2(&mut env, 0x8000_0004), SQLITE_OK);
    assert_eq!(sqlite3_close_v2(&mut env, 0x8000_0004), SQLITE_ERROR);
}

#[test]
fn sqlite_paths_and_free() {
    let mut env = Environment::new();
    let name = env.mem.alloc_and_write_cstr(b"Documents/save.db");
    assert_eq!(
        db_path_for(&env, name),
        "/storage/emulated/0/Android/data/org.touchhle.android.unofficial/files/touchHLE_apps/Documents_save.db"
    );
    let block = env.mem.allocate(8);
    assert!(env.mem.is_live_block(block));
    sqlite3_free(&mut env, 0);
    assert!(env.mem.is_live_block(block));
    sqlite3_free(&mut env, block);
    assert!(!env.mem.is_live_block(block));
}

#[test]
fn reachability_targets() {
    let mut env = Environment::new();
    let name = env.mem.alloc_and_write_cstr(b"apple.com");
    let t = SCNetworkReachabilityCreateWithName(&mut env, 0, name);
    assert!(matches!(env.objc.host_of(t), HostObject::Reachability { name: Some(n), .. } if n == "apple.com"));
    assert_eq!(SCNetworkReachabilityRetain(&mut env, t), t);
    assert_eq!(SCNetworkReachabilityRetain(&mut env, 0), 0);
    SCNetworkReachabilityRelease(&mut env, t);
    assert!(env.objc.is_live(t));
    SCNetworkReachabilityRelease(&mut env, t);
    assert!(!env.objc.is_live(t));
    SCNetworkReachabilityRelease(&mut env, 0);
    let bad = env.mem.alloc_and_write_cstr(&[0xFF, 0x41]);
    let t2 = SCNetworkReachabilityCreateWithName(&mut env, 0, bad);
    assert!(matches!(env.objc.host_of(t2), HostObject::Reachability { name: Some(n), .. } if n.is_empty()));
    let t3 = SCNetworkReachabilityCreateWithAddress(&mut env, 0, 0);
    assert!(!SCNetworkReachabilitySetCallback(&mut env, t3, 0x1234, 0x99));
    assert!(matches!(env.objc.host_of(t3), HostObject::Reachability { name: None, callout: 0x1234, context: 0x99 }));
    let flags = env.mem.allocate(4);
    assert!(SCNetworkReachabilityGetFlags(&mut env, t3, flags));
    assert_eq!(env.mem.read_u32(flags), 2);
}

#[test]
fn keychain_stubs() {
    let mut env = Environment::new();
    let out = env.mem.allocate(4);
    env.mem.write_u32(out, 77);
    assert_eq!(SecItemCopyMatching(&mut env, 0, out), ERR_SEC_ITEM_NOT_FOUND);
    assert_eq!(env.mem.read_u32(out), 0);
    assert_eq!(SecItemCopyMatching(&mut env, 0, 0), ERR_SEC_ITEM_NOT_FOUND);
    assert_eq!(SecItemAdd(&mut env, 0, 0), ERR_SEC_SUCCESS);
    assert_eq!(SecItemDelete(&mut env, 0), ERR_SEC_ITEM_NOT_FOUND);
    assert_eq!(SecItemUpdate(&mut env, 0, 0), ERR_SEC_ITEM_NOT_FOUND);
}

#[test]
fn gl_strings_and_stubs() {
    let mut env = Environment::new();
    let v = glGetString(&mut env, GL_VENDOR);
    assert_eq!(env.mem.cstr_at(v), b"Imagination Technologies".to_vec());
    assert_eq!(glGetString(&mut env, GL_VENDOR), v);
    let u = glGetString(&mut env, 0x1234);
    assert_eq!(env.mem.cstr_at(u), b"Unknown".to_vec());
    assert_eq!(image_size_estimate(10, GL_RGBA, GL_UNSIGNED_BYTE), 40);
    assert_eq!(image_size_estimate(10, GL_RGB, GL_UNSIGNED_BYTE), 30);
    assert_eq!(image_size_estimate(10, GL_RGB, GL_UNSIGNED_SHORT_5_6_5), 20);
    let arrays = env.mem.allocate(12);
    glGenVertexArraysOES(&mut env, 3, arrays);
    assert_eq!(env.mem.read_u32(arrays), 1);
    assert_eq!(env.mem.read_u32(arrays + 8), 3);
    glGenVertexArrays(&mut env, 0, arrays);
    glGenVertexArrays(&mut env, -2, arrays);
    assert_eq!(env.mem.read_u32(arrays + 4), 2);
    assert_eq!(glIsVertexArrayOES(&mut env, 1), 0);
    assert_eq!(glCreateProgram(&mut env), 1);
    assert_eq!(glCreateShader(&mut env, 0), 1);
    assert_eq!(glGetUniformLocation(&mut env, 1, 0), -1);
    let p = env.mem.allocate(8);
    glGetShaderiv(&mut env, 1, 0, p);
    assert_eq!(env.mem.read_u32(p), 1);
    env.mem.write_u32(p, 9);
    env.mem.write(p + 4, 9);
    glGetProgramInfoLog(&mut env, 1, 10, p, p + 4);
    assert_eq!(env.mem.read_u32(p), 0);
    assert_eq!(env.mem.read(p + 4), 0);
}

#[test]
fn locale_identifiers() {
    assert_eq!(language_from_locale_identifier("en_US"), "en");
    assert_eq!(language_from_locale_identifier("pt-BR"), "pt");
    assert_eq!(language_from_locale_identifier("fr"), "fr");
    assert_eq!(country_from_locale_identifier("zh_Hans_CN").as_deref(), Some("CN"));
    assert_eq!(country_from_locale_identifier("en-GB").as_deref(), Some("GB"));
    assert_eq!(country_from_locale_identifier("fr"), None);
    assert_eq!(locale_identifier("en", "US"), "en_US");
    assert_eq!(locale_identifier("en", ""), "en");
    assert_eq!(get_preferred_languages(None, vec![]), vec!["en".to_string()]);
    assert_eq!(get_preferred_languages(None, vec!["de".to_string()]), vec!["de".to_string()]);
    assert_eq!(
        get_preferred_languages(Some(vec!["ja".to_string()]), vec!["de".to_string()]),
        vec!["ja".to_string()]
    );
    assert_eq!(get_preferred_countries(vec![]), vec!["US".to_string()]);
    assert_eq!(get_preferred_countries(vec!["FR".to_string()]), vec!["FR".to_string()]);
}

#[test]
fn time_zones() {
    assert_eq!(offset_for_name("Asia/Tokyo"), Some(32400));
    assert_eq!(offset_for_name("America/New_York"), Some(-18000));
    assert_eq!(offset_for_name("Mars/Olympus"), None);
    assert_eq!(abbr_for_name("Europe/Paris"), Some("CET"));
    assert_eq!(name_for_abbr("CST"), Some("CST"));
    assert_eq!(name_for_abbr("KST"), Some("Asia/Seoul"));
    assert_eq!(name_for_abbr("AKST"), Some("America/Anchorage"));
    assert_eq!(name_for_abbr("XYZ"), None);
}

#[test]
fn character_sets() {
    let s = ascii_range_set(&[(0x41, 0x43), (0x10041, 0x10041)]);
    assert_eq!(s.len(), 3);
    assert!(s.contains(&0x41) && s.contains(&0x43));
    let u = unicode_range_set(&[(0x41, 0x43), (0xFFFF, 0x10001)]);
    assert_eq!(u.len(), 4);
    assert!(u.contains(&0xFFFF) && !u.contains(&0x0000));
    assert!(unicode_range_set(&[(5, 4)]).is_empty());
}

#[test]
fn threads_and_singletons() {
    let mut env = Environment::new();
    let target = from_rust_string(&mut env, String::from("t"));
    let t = detach_new_thread_inner(&mut env, 0x55, target, 0, true);
    assert!(env.framework_state.ns_thread.is_multi_threaded);
    assert!(matches!(env.objc.host_of(t), HostObject::Thread(ThreadHostObject { target: x, owned: true, tolerate_type_mismatch: true, selector: 0x55, .. }) if *x == target));
    assert_eq!(env.objc.objects.get(&target).unwrap().refcount, 2);
    let p = process_info(&mut env);
    assert_eq!(process_info(&mut env), p);
    assert_process_info_singleton(&mut env, p);
    let d = default_store(&mut env);
    assert_eq!(default_store(&mut env), d);
    assert_ne!(d, p);
}

#[test]
fn data_objects() {
    let mut env = Environment::new();
    let s = from_rust_string(&mut env, String::from("hé"));
    let d = data_using_encoding_lossy_inner(&mut env, s, NSUTF8StringEncoding, false);
    assert_eq!(to_rust_slice(&mut env, d), "hé".as_bytes().to_vec());
    let d = data_using_encoding_lossy_inner(&mut env, s, NSUTF16LittleEndianStringEncoding, false);
    assert_eq!(to_rust_slice(&mut env, d), vec![0x68, 0, 0xE9, 0]);
    let d = data_using_encoding_lossy_inner(&mut env, s, NSASCIIStringEncoding, false);
    assert_eq!(to_rust_slice(&mut env, d), vec![0x68, 0xE9]);
    let w = from_rust_string(&mut env, String::from("a\u{0100}"));
    assert_eq!(data_using_encoding_lossy_inner(&mut env, w, NSASCIIStringEncoding, false), 0);
    let d = data_using_encoding_lossy_inner(&mut env, w, NSASCIIStringEncoding, true);
    assert_eq!(to_rust_slice(&mut env, d), b"a?".to_vec());
    let e = from_rust_string(&mut env, String::new());
    let d = data_using_encoding_lossy_inner(&mut env, e, NSUTF8StringEncoding, false);
    assert_eq!(to_rust_slice(&mut env, d), Vec::<u8>::new());
}

#[test]
fn replacing_occurrences() {
    let mut env = Environment::new();
    let src = from_rust_string(&mut env, String::from("aXbxc"));
    let tgt = from_rust_string(&mut env, String::from("x"));
    let rep = from_rust_string(&mut env, String::from("--"));
    let r = string_by_replacing_occurrences_inner(&mut env, src, tgt, rep, 0);
    assert_eq!(to_rust_string(&mut env, r), "aXb--c");
    let r = string_by_replacing_occurrences_inner(&mut env, src, tgt, rep, 1);
    assert_eq!(to_rust_string(&mut env, r), "a--b--c");
    let empty = from_rust_string(&mut env, String::new());
    // an empty target gives a copy: an immutable source is shared
    assert_eq!(string_by_replacing_occurrences_inner(&mut env, src, empty, rep, 0), src);
    let m = mutable_from_rust_string(&mut env, String::from("mm"));
    let c = string_by_replacing_occurrences_inner(&mut env, m, empty, rep, 0);
    assert_ne!(c, m);
    assert_eq!(to_rust_string(&mut env, c), "mm");
    let aa = from_rust_string(&mut env, String::from("aaa"));
    let two = from_rust_string(&mut env, String::from("aa"));
    let r = string_by_replacing_occurrences_inner(&mut env, aa, two, rep, 0);
    assert_eq!(to_rust_string(&mut env, r), "--a");
}

#[test]
fn gl_queries_answered_by_the_host() {
    let mut env = Environment::new();
    let p = env.mem.allocate(64);
    assert!(glGetIntegerv(&mut env, GL_NUM_COMPRESSED_TEXTURE_FORMATS, p, true));
    assert_eq!(env.mem.read_u32(p), 14);
    assert!(glGetIntegerv(&mut env, GL_COMPRESSED_TEXTURE_FORMATS, p, true));
    assert_eq!(env.mem.read_u32(p), 0x8C03);
    assert_eq!(env.mem.read_u32(p + 12), 0x8C00);
    assert_eq!(env.mem.read_u32(p + 52), 0x8B96);
    assert!(glGetIntegerv(&mut env, GL_MAX_TEXTURE_SIZE, p, true));
    assert_eq!(env.mem.read_u32(p), 2048);
    assert!(glGetIntegerv(&mut env, 0x8cdf, p, true));
    assert_eq!(env.mem.read_u32(p), 1);
    env.mem.write_u32(p, 7);
    assert!(!glGetIntegerv(&mut env, 0x0B70, p, true));
    assert_eq!(env.mem.read_u32(p), 7);
    assert!(glGetIntegerv(&mut env, 0x0B70, p, false));
    assert_eq!(env.mem.read_u32(p), 1);
    env.mem.write_u32(p, 7);
    assert!(!glGetBooleanv(&mut env, 0x0B71, p, true));
    assert_eq!(env.mem.read(p), 7);
    assert!(glGetBooleanv(&mut env, 0x0B71, p, false));
    assert_eq!(env.mem.read_u32(p), 0);
    env.mem.write_u32(p, 7);
    assert!(glGetFloatv(&mut env, 0x0B21, p, false));
    assert_eq!(env.mem.read_u32(p), 0);
    env.mem.write_u32(p, 7);
    assert!(glGetPointerv(&mut env, 0x808E, p, false));
    assert_eq!(env.mem.read_u32(p), 0);
    assert_eq!(glGetError(None, false), 0);
    assert_eq!(glGetError(Some(0x500), false), 0x500);
    assert_eq!(glGetError(Some(0x500), true), 0);
    assert_eq!(glGetError(Some(0), true), 0);
}

#[test]
fn texture_sizes_and_scaled_rectangles() {
    assert_eq!(pixel_data_size(4, 3, GL_RGBA, GL_UNSIGNED_BYTE), 48);
    assert_eq!(pixel_data_size(4, 3, GL_LUMINANCE_ALPHA, GL_UNSIGNED_BYTE), 24);
    assert_eq!(pixel_data_size(4, 3, GL_RGB, GL_UNSIGNED_SHORT_5_6_5), 24);
    assert_eq!(pixel_data_size(0, 100, GL_RGB, GL_UNSIGNED_BYTE), 0);
    assert_eq!(scaled_rect(1, 2, 320, 480, 2), (2, 4, 640, 960));
    assert_eq!(scaled_rect(-5, 0, 10, 10, 1), (-5, 0, 10, 10));
}

#[test]
fn detached_thread_is_recorded_run_and_forgotten() {
    let mut env = Environment::new();
    let target = from_rust_string(&mut env, String::from("target"));
    let t = detach_new_thread_inner(&mut env, 0x55, target, 0, false);
    assert_eq!(thread_stack_size(&env, t), SECONDARY_THREAD_DEFAULT_STACK_SIZE);
    thread_started(&mut env, t, 7);
    assert_eq!(env.framework_state.ns_thread.ns_threads.get(&7), Some(&t));
    assert!(thread_invocation_begin(&mut env, t));
    assert!(matches!(env.objc.host_of(t), HostObject::Thread(ThreadHostObject { executing: true, finished: false, .. })));
    thread_invocation_end(&mut env, t, 7);
    assert!(env.framework_state.ns_thread.ns_threads.get(&7).is_none());
    assert_eq!(env.objc.objects.get(&target).unwrap().refcount, 1);
    assert!(!thread_invocation_begin(&mut env, target));
}

#[test]
fn replacing_refuses_surrogates_only_when_ignoring_case() {
    let mut env = Environment::new();
    let src = from_rust_string(&mut env, String::from("aXbxc"));
    let tgt = from_rust_string(&mut env, String::from("x"));
    let rep = from_rust_string(&mut env, String::from("-"));
    let r = string_by_replacing_occurrences(&mut env, src, tgt, rep, 1).unwrap();
    assert_eq!(to_rust_string(&mut env, r), "a-b-c");
    let emoji = from_rust_string(&mut env, String::from("a\u{1F600}x"));
    let before = env.mem.len();
    assert_eq!(string_by_replacing_occurrences(&mut env, emoji, tgt, rep, 1), None);
    assert_eq!(env.mem.len(), before);
    let r = string_by_replacing_occurrences(&mut env, emoji, tgt, rep, 0).unwrap();
    assert_eq!(to_rust_string(&mut env, r), "a\u{1F600}-");
}

#[test]
fn readable_c_strings() {
    let mut env = Environment::new();
    let p = env.mem.alloc_and_write_cstr(b"db.sqlite");
    assert!(env.mem.has_cstr(p));
    assert!(env.mem.has_cstr(p + 9));
    let q = env.mem.allocate(4);
    env.mem.write_u32(q, 0x41414141);
    assert!(!env.mem.has_cstr(q));
    assert!(!env.mem.has_cstr(env.mem.len() + 10));
}

#[test]
fn timer_decisions() {
    assert!(timer_action(true, true, true, true) == TimerAction::AlreadyRunning);
    assert!(timer_action(false, false, true, true) == TimerAction::Invalidated);
    assert!(timer_action(false, true, false, true) == TimerAction::NotYetDue);
    assert!(timer_action(false, true, true, true) == TimerAction::FireAndReschedule);
    assert!(timer_action(false, true, true, false) == TimerAction::FireAndRemove);
}

#[test]
fn replaced_strings_go_to_the_autorelease_pool() {
    let mut env = Environment::new();
    let src = from_rust_string(&mut env, String::from("abc"));
    let tgt = from_rust_string(&mut env, String::from("b"));
    let rep = from_rust_string(&mut env, String::from("B"));
    let r = string_by_replacing_occurrences_inner(&mut env, src, tgt, rep, 0);
    assert_eq!(env.objc.autorelease_pool, vec![r]);
    assert_eq!(autorelease(&mut env.objc, src), src);
    assert_eq!(autorelease(&mut env.objc, 0), 0);
    assert_eq!(env.objc.autorelease_pool, vec![r, src]);
    drain_autorelease_pool(&mut env.objc, &mut env.mem);
    assert!(env.objc.autorelease_pool.is_empty());
    assert!(!env.objc.objects.contains_key(&r));
    assert!(!env.objc.objects.contains_key(&src));
    assert!(env.objc.objects.contains_key(&tgt));
}
