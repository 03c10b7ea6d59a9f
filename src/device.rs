//! A zram device and the settings that configuration gives it.

use vstd::prelude::*;
use crate::algorithms::{algorithms_of, parse_algorithms, Algorithms, AlgorithmsView};
use crate::error::LineError;
use crate::expr::{check_expression, expression_parses};
use crate::paths::{has_parent_component, is_absolute, normal_form, verify_mount_point};
use crate::text::{i32_of, parse_i32, parse_u64, same_text, u64_of, words};

verus! {

/// One zram device: its settings, and once sized, its size and memory cap.
#[derive(Debug)]
pub struct Device {
    pub name: String,
    /// Devices are disabled on hosts with more memory than this (MB).
    pub host_memory_limit_mb: Option<u64>,
    /// Size expression, in MB of `ram`; `min(ram / 2, 4096)` when absent.
    pub zram_size: Option<String>,
    pub compression_algorithms: Algorithms,
    pub writeback_dev: Option<String>,
    /// Size in bytes; zero for a device that is not active.
    pub disksize: u64,
    /// Resident memory cap expression, in MB; `0` (no cap) when absent.
    pub zram_resident_limit: Option<String>,
    /// Resident memory cap in bytes.
    pub mem_limit: u64,
    pub swap_priority: i32,
    /// When set, the device holds a file system mounted there.
    pub mount_point: Option<String>,
    pub fs_type: Option<String>,
    pub options: String,
    /// Deprecated fraction of memory, as written; overrides `zram_size`.
    pub zram_fraction: Option<String>,
    /// Deprecated cap in MB (`Some(None)`: explicitly none); overrides `zram_size`.
    pub max_zram_size_mb: Option<Option<u64>>,
}

pub struct DeviceView {
    pub name: Seq<char>,
    pub host_memory_limit_mb: Option<u64>,
    pub zram_size: Option<Seq<char>>,
    pub compression_algorithms: AlgorithmsView,
    pub writeback_dev: Option<Seq<char>>,
    pub disksize: u64,
    pub zram_resident_limit: Option<Seq<char>>,
    pub mem_limit: u64,
    pub swap_priority: i32,
    pub mount_point: Option<Seq<char>>,
    pub fs_type: Option<Seq<char>>,
    pub options: Seq<char>,
    pub zram_fraction: Option<Seq<char>>,
    pub max_zram_size_mb: Option<Option<u64>>,
}

pub open spec fn text_of(o: Option<String>) -> Option<Seq<char>> {
    match o {
        Some(s) => Some(s@),
        None => None,
    }
}

impl View for Device {
    type V = DeviceView;

    open spec fn view(&self) -> DeviceView {
        DeviceView {
            name: self.name@,
            host_memory_limit_mb: self.host_memory_limit_mb,
            zram_size: text_of(self.zram_size),
            compression_algorithms: self.compression_algorithms@,
            writeback_dev: text_of(self.writeback_dev),
            disksize: self.disksize,
            zram_resident_limit: text_of(self.zram_resident_limit),
            mem_limit: self.mem_limit,
            swap_priority: self.swap_priority,
            mount_point: text_of(self.mount_point),
            fs_type: text_of(self.fs_type),
            options: self.options@,
            zram_fraction: text_of(self.zram_fraction),
            max_zram_size_mb: self.max_zram_size_mb,
        }
    }
}

/// A device as it is before any configuration sets a key of it.
pub open spec fn default_device(name: Seq<char>) -> DeviceView {
    DeviceView {
        name,
        host_memory_limit_mb: None,
        zram_size: None,
        compression_algorithms: AlgorithmsView { stages: seq![], global: seq![] },
        writeback_dev: None,
        disksize: 0,
        zram_resident_limit: None,
        mem_limit: 0,
        swap_priority: 100,
        mount_point: None,
        fs_type: None,
        options: "discard"@,
        zram_fraction: None,
        max_zram_size_mb: None,
    }
}

/// Swap: no mount point, and no file system type other than `swap`.
pub open spec fn is_swap_view(d: DeviceView) -> bool {
    d.mount_point is None && (d.fs_type is None || d.fs_type->0 == "swap"@)
}

/// The file system type: as set, else `swap` for swap, else `ext2`.
pub open spec fn effective_fs_type_view(d: DeviceView) -> Seq<char> {
    match d.fs_type {
        Some(t) => t,
        None => if is_swap_view(d) {
            "swap"@
        } else {
            "ext2"@
        },
    }
}

/// `none`, or a number of megabytes.
pub open spec fn optional_size_of(v: Seq<char>) -> Option<Option<u64>> {
    if v == "none"@ {
        Some(None)
    } else {
        match u64_of(v) {
            Some(n) => Some(Some(n)),
            None => None,
        }
    }
}

/// A swap priority: an integer in `-1..=32767`.
pub open spec fn priority_of(v: Seq<char>) -> Option<i32> {
    match i32_of(v) {
        Some(p) => if -1 <= p <= 0x7FFF {
            Some(p)
        } else {
            None
        },
        None => None,
    }
}

pub open spec fn is_size_key(key: Seq<char>) -> bool {
    key == "host-memory-limit"@ || key == "memory-limit"@
}

pub open spec fn is_path_key(key: Seq<char>) -> bool {
    key == "writeback-device"@ || key == "mount-point"@
}

pub open spec fn is_expression_key(key: Seq<char>) -> bool {
    key == "zram-size"@ || key == "zram-resident-limit"@
}

/// The keys that a device section recognises.
pub open spec fn is_known_key(key: Seq<char>) -> bool {
    is_size_key(key) || is_expression_key(key) || key == "compression-algorithm"@ || is_path_key(
        key,
    ) || key == "swap-priority"@ || key == "fs-type"@ || key == "options"@ || key
        == "zram-fraction"@ || key == "max-zram-size"@
}

/// Whether the value of `key` is accepted (unknown keys accept anything).
pub open spec fn setting_accepted(key: Seq<char>, value: Seq<char>) -> bool {
    if is_size_key(key) {
        optional_size_of(value) is Some
    } else if is_expression_key(key) {
        expression_parses(value)
    } else if key == "compression-algorithm"@ {
        true
    } else if key == "writeback-device"@ {
        is_absolute(value) && !has_parent_component(value)
    } else if key == "swap-priority"@ {
        priority_of(value) is Some
    } else if key == "mount-point"@ {
        is_absolute(value) && !has_parent_component(value)
    } else if key == "fs-type"@ || key == "options"@ || key == "zram-fraction"@ {
        true
    } else if key == "max-zram-size"@ {
        optional_size_of(value) is Some
    } else {
        true
    }
}

/// The error that a refused path gives.
pub open spec fn path_error(value: Seq<char>, e: LineError) -> bool {
    if !is_absolute(value) {
        e == LineError::NotAbsolute
    } else {
        e == LineError::NotNormalized
    }
}

/// The error that a refused value of `key` gives.
pub open spec fn setting_error(key: Seq<char>, value: Seq<char>, e: LineError) -> bool {
    if is_size_key(key) {
        e == LineError::BadSize
    } else if is_expression_key(key) {
        e is BadExpression
    } else if key == "compression-algorithm"@ {
        false
    } else if key == "writeback-device"@ {
        path_error(value, e)
    } else if key == "swap-priority"@ {
        priority_error(value, e)
    } else if key == "mount-point"@ {
        path_error(value, e)
    } else {
        e == LineError::BadSize
    }
}

/// The error that a refused swap priority gives.
pub open spec fn priority_error(value: Seq<char>, e: LineError) -> bool {
    if i32_of(value) is None {
        e == LineError::BadPriority
    } else {
        e == LineError::PriorityOutOfRange(i32_of(value)->0)
    }
}

/// The device after `key = value` is applied to it: the field of `key`
/// takes the value, every other field is kept; unknown keys change nothing.
pub open spec fn with_setting(d: DeviceView, key: Seq<char>, value: Seq<char>) -> DeviceView {
    if is_size_key(key) {
        DeviceView { host_memory_limit_mb: optional_size_of(value)->0, ..d }
    } else if key == "zram-size"@ {
        DeviceView { zram_size: Some(value), ..d }
    } else if key == "zram-resident-limit"@ {
        DeviceView { zram_resident_limit: Some(value), ..d }
    } else if key == "compression-algorithm"@ {
        DeviceView { compression_algorithms: algorithms_of(words(value)), ..d }
    } else if key == "writeback-device"@ {
        DeviceView { writeback_dev: Some(normal_form(value)), ..d }
    } else if key == "swap-priority"@ {
        DeviceView { swap_priority: priority_of(value)->0, ..d }
    } else if key == "mount-point"@ {
        DeviceView { mount_point: Some(normal_form(value)), ..d }
    } else if key == "fs-type"@ {
        DeviceView { fs_type: Some(value), ..d }
    } else if key == "options"@ {
        DeviceView { options: value, ..d }
    } else if key == "zram-fraction"@ {
        DeviceView { zram_fraction: Some(value), ..d }
    } else if key == "max-zram-size"@ {
        DeviceView { max_zram_size_mb: Some(optional_size_of(value)->0), ..d }
    } else {
        d
    }
}

/// `none`, or a number of megabytes.
pub fn parse_optional_size(val: &str) -> (r: Result<Option<u64>, LineError>)
    ensures
        match optional_size_of(val@) {
            Some(o) => r == Ok::<Option<u64>, LineError>(o),
            None => r == Err::<Option<u64>, LineError>(LineError::BadSize),
        },
{
    if same_text(val, "none") {
        return Ok(None);
    }
    match parse_u64(val) {
        Some(n) => Ok(Some(n)),
        None => Err(LineError::BadSize),
    }
}

/// A swap priority, as `swapon --priority` takes it: `-1..=32767`.
pub fn parse_swap_priority(val: &str) -> (r: Result<i32, LineError>)
    ensures
        match priority_of(val@) {
            Some(p) => r == Ok::<i32, LineError>(p),
            None => r is Err && priority_error(val@, r->Err_0),
        },
{
    match parse_i32(val) {
        Some(p) => if -1 <= p && p <= 0x7FFF {
            Ok(p)
        } else {
            Err(LineError::PriorityOutOfRange(p))
        },
        None => Err(LineError::BadPriority),
    }
}

/// Checks that `value` parses as a size expression and keeps its text.
pub fn parse_size_expr(value: &str) -> (r: Result<String, LineError>)
    ensures
        expression_parses(value@) ==> (r matches Ok(t) && t@ == value@),
        !expression_parses(value@) ==> r matches Err(LineError::BadExpression(_)),
{
    match check_expression(value) {
        Ok(()) => Ok(value.to_string()),
        Err(msg) => Err(LineError::BadExpression(msg)),
    }
}

impl Device {
    /// A device with every setting at its default.
    pub fn new(name: String) -> (r: Device)
        ensures
            r@ == default_device(name@),
    {
        let r = Device {
            name,
            host_memory_limit_mb: None,
            zram_size: None,
            compression_algorithms: Algorithms {
                compression_algorithms: Vec::new(),
                recompression_global: String::new(),
            },
            writeback_dev: None,
            disksize: 0,
            zram_resident_limit: None,
            mem_limit: 0,
            swap_priority: 100,
            mount_point: None,
            fs_type: None,
            options: "discard".to_string(),
            zram_fraction: None,
            max_zram_size_mb: None,
        };
        assert(r.compression_algorithms@.stages =~= seq![]);
        r
    }

    /// Whether the device is used as swap: no mount point, and no file
    /// system type other than `swap`.
    pub fn is_swap(&self) -> (r: bool)
        ensures
            r == is_swap_view(self@),
    {
        self.mount_point.is_none() && match &self.fs_type {
            None => true,
            Some(t) => same_text(t.as_str(), "swap"),
        }
    }

    /// The file system type: as set, else `swap` for swap, else `ext2`.
    pub fn effective_fs_type(&self) -> (r: &str)
        ensures
            r@ == effective_fs_type_view(self@),
    {
        match &self.fs_type {
            Some(t) => t.as_str(),
            None => if self.is_swap() {
                "swap"
            } else {
                "ext2"
            },
        }
    }

    /// Applies `key = value` of the device's section. Returns whether the key
    /// is one that a device section recognises; an unknown key changes nothing.
    pub fn parse_line(&mut self, key: &str, value: &str) -> (r: Result<bool, LineError>)
        ensures
            r is Ok == setting_accepted(key@, value@),
            r is Ok ==> r->Ok_0 == is_known_key(key@) && final(self)@ == with_setting(
                old(self)@,
                key@,
                value@,
            ),
            r is Err ==> setting_error(key@, value@, r->Err_0) && final(self)@ == old(self)@,
    {
        if same_text(key, "host-memory-limit") || same_text(key, "memory-limit") {
            match parse_optional_size(value) {
                Ok(v) => self.host_memory_limit_mb = v,
                Err(e) => return Err(e),
            }
        } else if same_text(key, "zram-size") {
            match parse_size_expr(value) {
                Ok(v) => self.zram_size = Some(v),
                Err(e) => return Err(e),
            }
        } else if same_text(key, "zram-resident-limit") {
            match parse_size_expr(value) {
                Ok(v) => self.zram_resident_limit = Some(v),
                Err(e) => return Err(e),
            }
        } else if same_text(key, "compression-algorithm") {
            self.compression_algorithms = parse_algorithms(value);
        } else if same_text(key, "writeback-device") {
            match verify_mount_point(key, value) {
                Ok(v) => self.writeback_dev = Some(v),
                Err(e) => return Err(e),
            }
        } else if same_text(key, "swap-priority") {
            match parse_swap_priority(value) {
                Ok(v) => self.swap_priority = v,
                Err(e) => return Err(e),
            }
        } else if same_text(key, "mount-point") {
            match verify_mount_point(key, value) {
                Ok(v) => self.mount_point = Some(v),
                Err(e) => return Err(e),
            }
        } else if same_text(key, "fs-type") {
            self.fs_type = Some(value.to_string());
        } else if same_text(key, "options") {
            self.options = value.to_string();
        } else if same_text(key, "zram-fraction") {
            self.zram_fraction = Some(value.to_string());
        } else if same_text(key, "max-zram-size") {
            match parse_optional_size(value) {
                Ok(v) => self.max_zram_size_mb = Some(v),
                Err(e) => return Err(e),
            }
        } else {
            return Ok(false);
        }
        Ok(true)
    }
}

} // verus!
