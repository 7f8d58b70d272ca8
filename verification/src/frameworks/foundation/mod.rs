//! Foundation: shared types, and one module per class or group of classes.
pub mod ns_character_set;
pub mod ns_data;
pub mod ns_locale;
pub mod ns_process_info;
pub mod ns_string;
pub mod ns_string_compare;
pub mod ns_string_ops;
pub mod ns_string_search;
pub mod ns_thread;
pub mod ns_time_zone;
pub mod ns_timer;
pub mod ns_ubiquitous_key_value_store;
pub mod ns_user_defaults;

use vstd::prelude::*;

verus! {

pub type NSUInteger = u32;

pub type NSInteger = i32;

/// A UTF-16 code unit.
#[allow(non_camel_case_types)]
pub type unichar = u16;

pub type NSComparisonResult = NSInteger;

pub const NSOrderedAscending: NSComparisonResult = -1;

pub const NSOrderedSame: NSComparisonResult = 0;

pub const NSOrderedDescending: NSComparisonResult = 1;

/// `NSNotFound`: the largest signed integer.
pub const NSNotFound: NSInteger = 0x7fff_ffff;

#[derive(Clone, Copy, PartialEq, Eq, Structural)]
pub struct NSRange {
    pub location: NSUInteger,
    pub length: NSUInteger,
}

} // verus!
