use fasteval::Evaler;
use zram_generator::device::Device;
use zram_generator::error::{ConfigError, LineError, SizeError};
use zram_generator::paths::verify_mount_point;
use zram_generator::sizing::{QueryKind, SizeQuery};
use zram_generator::sysfacts::{get_total_memory_kb, kernel_has_option, MemInfoError};

const DEFAULT_ZRAM_SIZE: &str = "min(ram / 2, 4096)";

/// Evaluates size expressions against `ram` and extra variables, as the
/// generator does, handing back bit patterns.
fn evaluator<'a>(memtotal_mb: u64, vars: &'a [(&'a str, f64)]) -> impl Fn(SizeQuery) -> Result<u64, String> + Copy + 'a {
    move |q: SizeQuery| match q.kind {
        QueryKind::Expression => {
            let mut slab = fasteval::Slab::new();
            let mut ns = |name: &str, args: Vec<f64>| -> Option<f64> {
                if !args.is_empty() {
                    None
                } else if name == "ram" {
                    Some(memtotal_mb as f64)
                } else {
                    vars.iter().find(|(n, _)| *n == name).map(|(_, v)| *v)
                }
            };
            fasteval::Parser::new()
                .parse(&q.text, &mut slab.ps)
                .and_then(|e| e.from(&slab.ps).eval(&slab, &mut ns))
                .map(f64::to_bits)
                .map_err(|e| format!("{:?}", e))
        }
        QueryKind::FractionOfRam => q
            .text
            .parse::<f64>()
            .map(|f| (f * memtotal_mb as f64).to_bits())
            .map_err(|e| e.to_string()),
    }
}

fn describe(e: ConfigError) -> String {
    match e {
        ConfigError::Size { device, key, cause: SizeError::NotANumber } => format!("{}: {}=NaN < 0", device, key),
        ConfigError::Size { cause: SizeError::Evaluation(m), .. } => m,
        other => format!("{:?}", other),
    }
}

fn dev_with_zram_size_size(val: Option<&str>, memtotal_mb: u64) -> u64 {
    let mut dev = Device::new("zram0".to_string());
    if let Some(val) = val {
        dev.parse_line("zram-size", val).unwrap();
    }
    assert!(dev.is_enabled(memtotal_mb));
    let vars = [("two", 2.0)];
    dev.set_disksize_if_enabled(memtotal_mb, evaluator(memtotal_mb, &vars))
        .unwrap_or_else(|e| panic!("{}", describe(e)));
    dev.disksize
}

fn total_kb(text: &str) -> u64 {
    match get_total_memory_kb(text) {
        Ok(v) => v,
        Err(MemInfoError::NotFound) => panic!("Couldn't find MemTotal in meminfo"),
        Err(e) => panic!("{:?}", e),
    }
}

#[test]
fn test_get_total_memory_kb() {
    let mem = total_kb(
        "\
MemTotal:        8013220 kB
MemFree:          721288 kB
MemAvailable:    1740336 kB
Buffers:          292752 kB
",
    );
    assert_eq!(mem, 8013220);
}

#[test]
#[should_panic(expected = "Couldn't find MemTotal")]
fn test_get_total_memory_not_found() {
    total_kb(
        "\
MemTotala:        8013220 kB
aMemTotal:        8013220 kB
MemTotal::        8013220 kB
",
    );
}

#[test]
fn test_kernel_has_option() {
    assert_eq!(kernel_has_option("foo=1 foo=0 foo=on foo=off foo\n", "foo"), Some(true));
}

#[test]
fn test_kernel_has_no_option() {
    assert_eq!(
        kernel_has_option(
            "\
foo=1
foo=0
",
            "foo"
        ),
        Some(false)
    );
}

#[test]
fn test_verify_mount_point() {
    for e in ["foo/bar", "/foo/../bar", "/foo/.."] {
        assert!(verify_mount_point("test", e).is_err(), "{}", e);
    }

    for (p, o) in [
        ("/foobar", "/foobar"),
        ("/", "/"),
        ("//", "/"),
        ("///", "/"),
        ("/foo/./bar/", "/foo/bar"),
    ] {
        assert_eq!(verify_mount_point("test", p).unwrap(), o, "{} vs {}", p, o);
    }
}

#[test]
fn test_eval_size_expression() {
    assert_eq!(dev_with_zram_size_size(Some("0.5 * ram"), 100), 50 * 1024 * 1024);
}

#[test]
fn test_eval_size_expression_with_additional() {
    assert_eq!(dev_with_zram_size_size(Some("0.5 * ram * two"), 100), 50 * 2 * 1024 * 1024);
}

#[test]
fn test_eval_size_expression_500() {
    assert_eq!(dev_with_zram_size_size(Some("500"), 5000), 500 * 1024 * 1024);
}

#[test]
fn test_eval_size_expression_500k() {
    assert_eq!(dev_with_zram_size_size(Some("500k"), 5000), 500 * 1000 * 1024 * 1024);
}

#[test]
fn test_eval_size_expression_32g() {
    assert_eq!(dev_with_zram_size_size(Some("32G"), 5000), 32 * 1000_000_000 * 1024 * 1024);
}

#[test]
fn test_eval_size_expression_default() {
    assert_eq!(dev_with_zram_size_size(None, 100), 50 * 1024 * 1024);
    assert_eq!(dev_with_zram_size_size(None, 10000), 4096 * 1024 * 1024);
}

#[test]
fn test_eval_size_expression_default_equivalent() {
    assert_eq!(dev_with_zram_size_size(Some(DEFAULT_ZRAM_SIZE), 100), 50 * 1024 * 1024);
    assert_eq!(dev_with_zram_size_size(Some(DEFAULT_ZRAM_SIZE), 10000), 4096 * 1024 * 1024);
}

#[test]
#[should_panic(expected = "Undefined(\"array\")")]
fn test_eval_size_expression_unknown_variable() {
    dev_with_zram_size_size(Some("array(1,2)"), 100);
}

#[test]
#[should_panic(expected = "zram-size=NaN")]
fn test_eval_size_expression_nan() {
    dev_with_zram_size_size(Some("(ram-100)/0"), 100);
}

#[test]
fn test_eval_size_expression_inf() {
    assert_eq!(dev_with_zram_size_size(Some("(ram-99)/0"), 100), u64::MAX);
}

#[test]
fn test_eval_size_expression_min() {
    assert_eq!(dev_with_zram_size_size(Some("min(0.5 * ram, 4000)"), 3000), 1500 * 1024 * 1024);
}

#[test]
fn negative_size_is_refused() {
    let mut dev = Device::new("zram1".to_string());
    dev.parse_line("zram-size", "ram - 200").unwrap();
    let r = dev.set_disksize_if_enabled(100, evaluator(100, &[]));
    assert_eq!(
        r,
        Err(ConfigError::Size {
            device: "zram1".to_string(),
            key: "zram-size".to_string(),
            cause: SizeError::Negative
        })
    );
}

#[test]
fn malformed_expression_is_refused_when_read() {
    let mut dev = Device::new("zram0".to_string());
    let r = dev.parse_line("zram-size", "ram * (");
    assert!(matches!(r, Err(LineError::BadExpression(_))));
    assert!(dev.zram_size.is_none());
    assert_eq!(dev.parse_line("zram-resident-limit", "ram / 4"), Ok(true));
    assert_eq!(dev.zram_resident_limit.as_deref(), Some("ram / 4"));
}

#[test]
fn resident_limit_is_evaluated() {
    let mut dev = Device::new("zram0".to_string());
    dev.parse_line("zram-resident-limit", "ram / 4").unwrap();
    dev.set_disksize_if_enabled(4000, evaluator(4000, &[])).unwrap();
    assert_eq!(dev.mem_limit, 1000 * 1024 * 1024);
    assert_eq!(dev.disksize, 2000 * 1024 * 1024);
}

#[test]
fn disabled_device_is_not_evaluated() {
    let mut dev = Device::new("zram0".to_string());
    dev.parse_line("host-memory-limit", "2050").unwrap();
    dev.parse_line("zram-size", "ram").unwrap();
    assert!(!dev.is_enabled(3000));
    let never = |_q: SizeQuery| -> Result<u64, String> { panic!("evaluated") };
    dev.set_disksize_if_enabled(3000, never).unwrap();
    assert_eq!(dev.disksize, 0);
    assert!(dev.is_enabled(2050));
}

#[test]
fn legacy_fraction_replaces_size_expression() {
    let mut dev = Device::new("zram0".to_string());
    dev.parse_line("zram-fraction", "0.1").unwrap();
    dev.parse_line("zram-size", "ram").unwrap();
    let eval = evaluator(3000, &[]);
    let only_fraction = move |q: SizeQuery| -> Result<u64, String> {
        assert_eq!(q.kind, QueryKind::FractionOfRam);
        eval(q)
    };
    dev.set_disksize_if_enabled(3000, only_fraction).unwrap();
    assert_eq!(dev.disksize, 300 * 1024 * 1024);
}

#[test]
fn legacy_max_size_caps_default_fraction() {
    let mut dev = Device::new("zram0".to_string());
    dev.parse_line("max-zram-size", "1000").unwrap();
    let never = |_q: SizeQuery| -> Result<u64, String> { panic!("evaluated") };
    dev.set_disksize_if_enabled(3000, never).unwrap();
    assert_eq!(dev.disksize, 1000 * 1024 * 1024);
    dev.parse_line("max-zram-size", "none").unwrap();
    dev.set_disksize_if_enabled(3000, never).unwrap();
    assert_eq!(dev.disksize, 1500 * 1024 * 1024);
}

#[test]
fn mount_point_is_normalised() {
    let mut dev = Device::new("zram0".to_string());
    assert_eq!(dev.parse_line("mount-point", "/foo/./bar/"), Ok(true));
    assert_eq!(dev.mount_point.as_deref(), Some("/foo/bar"));
    assert_eq!(dev.parse_line("mount-point", "/foo/../bar"), Err(LineError::NotNormalized));
    assert_eq!(dev.parse_line("mount-point", "foo/bar"), Err(LineError::NotAbsolute));
    assert_eq!(dev.parse_line("writeback-device", ""), Err(LineError::NotAbsolute));
    assert_eq!(dev.mount_point.as_deref(), Some("/foo/bar"));
    assert!(!dev.is_swap());
    assert_eq!(dev.effective_fs_type(), "ext2");
}

#[test]
fn swap_priority_range() {
    let mut dev = Device::new("zram0".to_string());
    assert_eq!(dev.swap_priority, 100);
    assert_eq!(dev.parse_line("swap-priority", "-1"), Ok(true));
    assert_eq!(dev.swap_priority, -1);
    assert_eq!(dev.parse_line("swap-priority", "32767"), Ok(true));
    assert_eq!(dev.swap_priority, 32767);
    assert_eq!(dev.parse_line("swap-priority", "32768"), Err(LineError::PriorityOutOfRange(32768)));
    assert_eq!(dev.parse_line("swap-priority", "-2"), Err(LineError::PriorityOutOfRange(-2)));
    assert_eq!(dev.parse_line("swap-priority", "high"), Err(LineError::BadPriority));
    assert_eq!(dev.swap_priority, 32767);
}

#[test]
fn host_memory_limit_values() {
    let mut dev = Device::new("zram0".to_string());
    assert_eq!(dev.parse_line("memory-limit", "1235"), Ok(true));
    assert_eq!(dev.host_memory_limit_mb, Some(1235));
    assert_eq!(dev.parse_line("host-memory-limit", "none"), Ok(true));
    assert_eq!(dev.host_memory_limit_mb, None);
    assert_eq!(dev.parse_line("host-memory-limit", "-5"), Err(LineError::BadSize));
    assert_eq!(dev.parse_line("host-memory-limit", "18446744073709551616"), Err(LineError::BadSize));
    assert_eq!(dev.parse_line("host-memory-limit", "18446744073709551615"), Ok(true));
    assert_eq!(dev.host_memory_limit_mb, Some(u64::MAX));
}

#[test]
fn unknown_key_is_ignored() {
    let mut dev = Device::new("zram0".to_string());
    assert_eq!(dev.parse_line("colour", "blue"), Ok(false));
    assert_eq!(dev.options, "discard");
}

#[test]
fn fs_type_decides_swap() {
    let mut dev = Device::new("zram0".to_string());
    assert!(dev.is_swap());
    assert_eq!(dev.effective_fs_type(), "swap");
    dev.parse_line("fs-type", "ext4").unwrap();
    assert!(!dev.is_swap());
    assert_eq!(dev.effective_fs_type(), "ext4");
    dev.parse_line("fs-type", "swap").unwrap();
    assert!(dev.is_swap());
}

#[test]
fn normal_form_round_trip() {
    for p in ["/", "//", "/foo/./bar/", "/a//b/.", "/x.y/.z/"] {
        let once = verify_mount_point("mount-point", p).unwrap();
        let twice = verify_mount_point("mount-point", &once).unwrap();
        assert_eq!(once, twice, "{}", p);
    }
    assert_eq!(verify_mount_point("mount-point", "/a//b/.").unwrap(), "/a/b");
    assert_eq!(verify_mount_point("mount-point", "/x.y/.z/").unwrap(), "/x.y/.z");
}
