use zram_generator::algorithms::parse_compression_algorithm_params;
use zram_generator::device::Device;
use zram_generator::error::{ConfigError, LineError};
use zram_generator::locate::order_fragments;
use zram_generator::resolve::{
    active_devices, add_kernel_default, finish_devices, find_device, merge_fragment, merge_fragments, size_devices,
    Notice, SetDirective,
};
use zram_generator::sizing::SizeQuery;
use zram_generator::sysfacts::kernel_zram_option;

fn merge_all(fragments: &[(&str, &str)]) -> Result<(Vec<Device>, Vec<SetDirective>, Vec<Notice>), ConfigError> {
    let mut devices = Vec::new();
    let mut directives = Vec::new();
    let mut notices = Vec::new();
    for (path, text) in fragments {
        merge_fragment(&mut devices, &mut directives, &mut notices, path, text)?;
    }
    Ok((devices, directives, notices))
}

#[test]
fn dropin_overrides_single_key() {
    let (devices, _, _) = merge_all(&[
        ("/etc/systemd/zram-generator.conf", "[zram0]\nhost-memory-limit=1235\n"),
        ("/etc/systemd/zram-generator.conf.d/options.conf", "[zram0]\noptions=\n"),
    ])
    .unwrap();
    assert_eq!(devices.len(), 1);
    assert_eq!(devices[0].name, "zram0");
    assert_eq!(devices[0].host_memory_limit_mb, Some(1235));
    assert_eq!(devices[0].options, "");
}

#[test]
fn last_fragment_wins_per_key() {
    let (devices, _, _) = merge_all(&[
        ("/usr/lib/a.conf", "[zram1]\nswap-priority=5\n[zram0]\nfs-type=ext4\nzram-size=ram\n"),
        ("/etc/b.conf", "[zram0]\nzram-size=ram / 4\n"),
        ("/run/c.conf", "[zram1]\nswap-priority=7\nmemory-limit=10\n[zram0]\nhost-memory-limit=none\n"),
    ])
    .unwrap();
    assert_eq!(devices.len(), 2);
    assert_eq!(devices[0].name, "zram1");
    assert_eq!(devices[0].swap_priority, 7);
    assert_eq!(devices[0].host_memory_limit_mb, Some(10));
    assert_eq!(devices[1].name, "zram0");
    assert_eq!(devices[1].fs_type.as_deref(), Some("ext4"));
    assert_eq!(devices[1].zram_size.as_deref(), Some("ram / 4"));
    assert_eq!(devices[1].host_memory_limit_mb, None);
}

#[test]
fn other_sections_and_keys_are_reported() {
    let (devices, directives, notices) = merge_all(&[(
        "/etc/x.conf",
        "foo=bar\nget!x=1\n[swap]\nzram-size=1\n[zramX]\n[zram2]\ncolour=blue\n",
    )])
    .unwrap();
    assert_eq!(devices.len(), 1);
    assert_eq!(devices[0].name, "zram2");
    assert!(directives.is_empty());
    assert_eq!(
        notices,
        vec![
            Notice::InvalidTopLevelKey { path: "/etc/x.conf".to_string(), key: "foo".to_string() },
            Notice::UnknownOperation { path: "/etc/x.conf".to_string(), operation: "get!".to_string() },
            Notice::IgnoredSection { path: "/etc/x.conf".to_string(), section: "swap".to_string() },
            Notice::IgnoredSection { path: "/etc/x.conf".to_string(), section: "zramX".to_string() },
            Notice::UnknownKey {
                path: "/etc/x.conf".to_string(),
                device: "zram2".to_string(),
                key: "colour".to_string()
            },
        ]
    );
}

#[test]
fn set_directives_are_collected_in_order() {
    let (_, directives, _) = merge_all(&[
        ("/a.conf", "set!top=echo 5\n[zram0]\nzram-size=top\n"),
        ("/b.conf", "set!two=echo 2\nset!top=echo 6\n"),
    ])
    .unwrap();
    let got: Vec<(String, String, String)> =
        directives.into_iter().map(|d| (d.path, d.name, d.command)).collect();
    assert_eq!(
        got,
        vec![
            ("/a.conf".to_string(), "top".to_string(), "echo 5".to_string()),
            ("/b.conf".to_string(), "two".to_string(), "echo 2".to_string()),
            ("/b.conf".to_string(), "top".to_string(), "echo 6".to_string()),
        ]
    );
}

#[test]
fn bad_value_names_fragment_and_key() {
    let r = merge_all(&[("/etc/bad.conf", "[zram0]\nmount-point=relative/path\n")]);
    assert_eq!(
        r.err(),
        Some(ConfigError::Line {
            path: "/etc/bad.conf".to_string(),
            device: "zram0".to_string(),
            key: "mount-point".to_string(),
            value: "relative/path".to_string(),
            reason: LineError::NotAbsolute,
        })
    );
}

#[test]
fn syntax_error_is_fatal() {
    let r = merge_all(&[("/etc/broken.conf", "[zram0\nzram-size=1\n")]);
    assert!(matches!(r, Err(ConfigError::Syntax { .. })));
}

#[test]
fn byte_order_mark_is_skipped() {
    let (devices, _, notices) = merge_all(&[("/etc/bom.conf", "\u{feff}[zram3]\nswap-priority=3\n")]).unwrap();
    assert!(notices.is_empty());
    assert_eq!(devices.len(), 1);
    assert_eq!(devices[0].swap_priority, 3);
}

#[test]
fn device_section_names() {
    let (devices, _, _) =
        merge_all(&[("/a.conf", "[zram00]\n[zram+4]\n[zram]\n[zram-1]\n[zram 1]\n[zram7]\n")]).unwrap();
    let names: Vec<&str> = devices.iter().map(|d| d.name.as_str()).collect();
    assert_eq!(names, vec!["zram00", "zram7"]);
}

#[test]
fn compression_algorithm_setting() {
    let (devices, _, _) = merge_all(&[(
        "/a.conf",
        "[zram0]\ncompression-algorithm=zstd(level=3,dict=/x) lz4 (recompress=1,max=2) lzo(\n",
    )])
    .unwrap();
    let a = &devices[0].compression_algorithms;
    assert_eq!(
        a.compression_algorithms,
        vec![
            ("zstd".to_string(), "level=3 dict=/x".to_string()),
            ("lz4".to_string(), String::new()),
            ("lzo".to_string(), String::new()),
        ]
    );
    assert_eq!(a.recompression_global, "recompress=1 max=2");
}

#[test]
fn algorithm_params_split() {
    assert_eq!(parse_compression_algorithm_params("zstd"), ("zstd".to_string(), String::new()));
    assert_eq!(parse_compression_algorithm_params("zstd(a,b)"), ("zstd".to_string(), "a b".to_string()));
    assert_eq!(parse_compression_algorithm_params("zstd(a,b"), ("zstd".to_string(), "a b".to_string()));
    assert_eq!(parse_compression_algorithm_params("(x)"), (String::new(), "x".to_string()));
}

#[test]
fn kernel_override_adds_zram0() {
    let mut devices = Vec::new();
    add_kernel_default(&mut devices, false);
    assert!(devices.is_empty());
    add_kernel_default(&mut devices, true);
    assert_eq!(devices.len(), 1);
    assert_eq!(devices[0].name, "zram0");
    assert_eq!(devices[0].options, "discard");
    add_kernel_default(&mut devices, true);
    assert_eq!(devices.len(), 1);
    assert_eq!(find_device(&devices, "zram0"), 0);
    assert_eq!(find_device(&devices, "zram1"), 1);
}

#[test]
fn sizing_keeps_only_active_devices() {
    let (mut devices, _, _) = merge_all(&[(
        "/a.conf",
        "[zram0]\nhost-memory-limit=2050\n[zram1]\nmax-zram-size=0\n[zram2]\n",
    )])
    .unwrap();
    let never = |_q: SizeQuery| -> Result<u64, String> { panic!("evaluated") };
    size_devices(&mut devices, 3000, never).unwrap();
    assert_eq!(devices[0].disksize, 0);
    assert_eq!(devices[1].disksize, 0);
    assert_eq!(devices[2].disksize, 1500 * 1024 * 1024);
    let active = active_devices(devices);
    assert_eq!(active.len(), 1);
    assert_eq!(active[0].name, "zram2");
}

#[test]
fn zram_kernel_flag() {
    assert_eq!(kernel_zram_option("quiet systemd.zram=0 splash"), Some(false));
    assert_eq!(kernel_zram_option("systemd.zram=0 systemd.zram"), Some(true));
    assert_eq!(kernel_zram_option("systemd.zram=maybe"), None);
    assert_eq!(kernel_zram_option(""), None);
    assert_eq!(kernel_zram_option("systemd.zram=yes systemd.zram=bogus"), Some(true));
}

#[test]
fn main_file_comes_first() {
    let candidates = vec![
        ("/usr/lib/systemd/zram-generator.conf".to_string(), true),
        ("/etc/systemd/zram-generator.conf".to_string(), true),
        ("/run/systemd/zram-generator.conf".to_string(), false),
    ];
    let dropins = vec!["/usr/lib/systemd/zram-generator.conf.d/a.conf".to_string()];
    assert_eq!(
        order_fragments(&candidates, dropins.clone()),
        vec!["/etc/systemd/zram-generator.conf".to_string(), dropins[0].clone()]
    );
    let none = vec![("/etc/systemd/zram-generator.conf".to_string(), false)];
    assert_eq!(order_fragments(&none, dropins.clone()), dropins);
}

fn fragments(list: &[(&str, &str)]) -> Vec<(String, String)> {
    list.iter().map(|(p, t)| (p.to_string(), t.to_string())).collect()
}

#[test]
fn whole_resolution_keeps_earlier_keys() {
    let merged = merge_fragments(&fragments(&[
        ("/usr/lib/systemd/zram-generator.conf", "[zram0]\nhost-memory-limit=1235\n"),
        ("/etc/systemd/zram-generator.conf.d/10-opts.conf", "[zram0]\noptions=\n"),
    ]))
    .unwrap();
    assert_eq!(merged.devices.len(), 1);
    assert_eq!(merged.devices[0].host_memory_limit_mb, Some(1235));
    assert_eq!(merged.devices[0].options, "");
    assert_eq!(merged.devices[0].swap_priority, 100);
}

#[test]
fn whole_resolution_stops_at_refused_value() {
    let r = merge_fragments(&fragments(&[
        ("/a.conf", "[zram0]\nswap-priority=3\n"),
        ("/b.conf", "[zram0]\nswap-priority=99999\n"),
    ]));
    assert!(matches!(
        r,
        Err(ConfigError::Line { reason: LineError::PriorityOutOfRange(99999), .. })
    ));
}

#[test]
fn limited_device_is_left_out_without_error() {
    let merged = merge_fragments(&fragments(&[(
        "/etc/systemd/zram-generator.conf",
        "[zram0]\nhost-memory-limit=2050\nzram-size=undefined_name\n[zram1]\n",
    )]))
    .unwrap();
    let never = |_q: SizeQuery| -> Result<u64, String> { panic!("evaluated") };
    let active = finish_devices(merged.devices, false, 3000, never).unwrap();
    assert_eq!(active.len(), 1);
    assert_eq!(active[0].name, "zram1");
    assert_eq!(active[0].disksize, 1500 * 1024 * 1024);
}

#[test]
fn kernel_override_without_configuration() {
    let never = |_q: SizeQuery| -> Result<u64, String> { panic!("evaluated") };
    let active = finish_devices(Vec::new(), true, 100, never).unwrap();
    assert_eq!(active.len(), 1);
    assert_eq!(active[0].name, "zram0");
    assert_eq!(active[0].disksize, 50 * 1024 * 1024);
    assert!(finish_devices(Vec::new(), false, 100, never).unwrap().is_empty());
}
