//! Merging configuration fragments into one record per device.

use vstd::prelude::*;
use crate::device::{default_device, is_size_key, setting_accepted, setting_error, with_setting, Device, DeviceView};
use crate::error::ConfigError;
use crate::sizing::{enabled_on, needs_evaluation, sized, sizing_failure, SizeQuery};
use crate::algorithms::{find_char, lemma_find_char};
use crate::text::{all_digits, has_prefix, is_digit, same_text};

verus! {

/// A section of an INI document: its name (`None` for the keys before the
/// first section header) and its key/value pairs in order.
pub type SectionView = (Option<Seq<char>>, Seq<(Seq<char>, Seq<char>)>);

pub open spec fn pairs_view(ps: Seq<(String, String)>) -> Seq<(Seq<char>, Seq<char>)> {
    ps.map_values(|p: (String, String)| (p.0@, p.1@))
}

pub open spec fn sections_view(ss: Seq<(Option<String>, Vec<(String, String)>)>) -> Seq<SectionView> {
    ss.map_values(
        |s: (Option<String>, Vec<(String, String)>)|
            (
                match s.0 {
                    Some(n) => Some(n@),
                    None => None,
                },
                pairs_view(s.1@),
            ),
    )
}

/// The sections that the `ini` crate reads from `text` with its default
/// options, or `None` when it refuses the text.
pub uninterp spec fn ini_sections(text: Seq<char>) -> Option<Seq<SectionView>>;

/// Relies on `ini::Ini::load_from_str` (default parse options) and on
/// iterating the result with `Ini::iter` and `Properties::iter`: the
/// sections and pairs depend on the text alone.
#[verifier::external_body]
fn load_ini(text: &str) -> (r: Result<Vec<(Option<String>, Vec<(String, String)>)>, (usize, usize, String)>)
    ensures
        match r {
            Ok(s) => ini_sections(text@) == Some(sections_view(s@)),
            Err(_) => ini_sections(text@) is None,
        },
{
    match ini::Ini::load_from_str(text) {
        Ok(doc) => Ok(doc.iter().map(|(name, props)| {
            let pairs = props.iter().map(|(k, v)| (k.to_string(), v.to_string())).collect();
            (name.map(|n| n.to_string()), pairs)
        }).collect()),
        Err(e) => Err((e.line, e.col, e.msg.to_string())),
    }
}

/// `zram` followed by one or more decimal digits.
pub open spec fn is_device_name(s: Seq<char>) -> bool {
    s.len() > 4 && s.subrange(0, 4) == "zram"@ && all_digits(s.subrange(4, s.len() as int))
}

pub fn device_name_ok(s: &str) -> (r: bool)
    ensures
        r == is_device_name(s@),
{
    if !has_prefix(s, "zram") {
        return false;
    }
    proof {
        reveal_strlit("zram");
    }
    let n = s.unicode_len();
    if n == 4 {
        return false;
    }
    let mut i: usize = 4;
    while i < n
        invariant
            n == s@.len(),
            4 <= i <= n,
            forall|k: int| 4 <= k < i ==> is_digit(#[trigger] s@[k]),
        decreases n - i,
    {
        let c = s.get_char(i);
        if !('0' <= c && c <= '9') {
            assert(s@.subrange(4, n as int)[i - 4] == c);
            return false;
        }
        i = i + 1;
    }
    assert forall|k: int| 0 <= k < s@.subrange(4, n as int).len() implies is_digit(
        #[trigger] s@.subrange(4, n as int)[k],
    ) by {
        assert(s@.subrange(4, n as int)[k] == s@[k + 4]);
    }
    true
}

/// The text without a leading byte order mark.
pub open spec fn without_bom(t: Seq<char>) -> Seq<char> {
    if t.len() > 0 && t[0] == '\u{FEFF}' {
        t.drop_first()
    } else {
        t
    }
}

/// A device after the pairs of one of its sections, applied in order.
pub open spec fn apply_pairs(d: DeviceView, ps: Seq<(Seq<char>, Seq<char>)>) -> DeviceView
    decreases ps.len(),
{
    if ps.len() == 0 {
        d
    } else {
        with_setting(apply_pairs(d, ps.drop_last()), ps.last().0, ps.last().1)
    }
}

pub open spec fn pairs_accepted(ps: Seq<(Seq<char>, Seq<char>)>) -> bool {
    forall|k: int| 0 <= k < ps.len() ==> setting_accepted(#[trigger] ps[k].0, ps[k].1)
}

/// The position of the first device named `name` in `ds`, or `ds.len()`.
pub open spec fn position_of(ds: Seq<DeviceView>, name: Seq<char>) -> int
    decreases ds.len(),
{
    if ds.len() == 0 {
        0
    } else if ds[0].name == name {
        0
    } else {
        1 + position_of(ds.drop_first(), name)
    }
}

proof fn lemma_position_of(ds: Seq<DeviceView>, name: Seq<char>)
    ensures
        0 <= position_of(ds, name) <= ds.len(),
        forall|k: int| 0 <= k < position_of(ds, name) ==> ds[k].name != name,
        position_of(ds, name) < ds.len() ==> ds[position_of(ds, name)].name == name,
    decreases ds.len(),
{
    if ds.len() > 0 && ds[0].name != name {
        lemma_position_of(ds.drop_first(), name);
        assert forall|k: int| 0 <= k < position_of(ds, name) implies ds[k].name != name by {
            if k > 0 {
                assert(ds[k] == ds.drop_first()[k - 1]);
            }
        }
    }
}

/// The devices after one device section: the device of that name, created
/// with defaults at the end when it is new, takes the section's pairs.
pub open spec fn merge_section(
    ds: Seq<DeviceView>,
    name: Seq<char>,
    ps: Seq<(Seq<char>, Seq<char>)>,
) -> Seq<DeviceView> {
    let i = position_of(ds, name);
    if i < ds.len() {
        ds.update(i, apply_pairs(ds[i], ps))
    } else {
        ds.push(apply_pairs(default_device(name), ps))
    }
}

pub open spec fn is_device_section(s: SectionView) -> bool {
    s.0 is Some && is_device_name(s.0->0)
}

/// The devices after the sections of a fragment, in order; sections that do
/// not name a device leave them as they are.
pub open spec fn merge_sections(ds: Seq<DeviceView>, ss: Seq<SectionView>) -> Seq<DeviceView>
    decreases ss.len(),
{
    if ss.len() == 0 {
        ds
    } else {
        let prev = merge_sections(ds, ss.drop_last());
        if is_device_section(ss.last()) {
            merge_section(prev, ss.last().0->0, ss.last().1)
        } else {
            prev
        }
    }
}

/// Every pair of every device section is accepted.
pub open spec fn sections_accepted(ss: Seq<SectionView>) -> bool {
    forall|k: int| 0 <= k < ss.len() && is_device_section(#[trigger] ss[k]) ==> pairs_accepted(ss[k].1)
}

pub open spec fn devices_view(ds: Seq<Device>) -> Seq<DeviceView> {
    ds.map_values(|d: Device| d@)
}

/// No two devices share a name.
pub open spec fn names_unique(ds: Seq<DeviceView>) -> bool {
    forall|i: int, j: int| 0 <= i < j < ds.len() ==> ds[i].name != ds[j].name
}

/// A key outside any section: `set!NAME = COMMAND` binds `NAME` to the value
/// of the expression that `COMMAND` prints.
pub struct SetDirective {
    pub path: String,
    pub name: String,
    pub command: String,
}

/// Something in a fragment that is ignored, and reported.
#[derive(Debug, PartialEq, Eq)]
pub enum Notice {
    /// A section whose name is not `zram<N>`.
    IgnoredSection { path: String, section: String },
    /// A key that device sections do not recognise.
    UnknownKey { path: String, device: String, key: String },
    /// A key outside any section without an operation (`op!arg`).
    InvalidTopLevelKey { path: String, key: String },
    /// A key outside any section with an operation other than `set!`.
    UnknownOperation { path: String, operation: String },
}

/// The variable that a key outside any section binds: `NAME` for
/// `set!NAME` (the operation is what precedes the first `!`, inclusive).
pub open spec fn set_target(key: Seq<char>) -> Option<Seq<char>> {
    let i = find_char(key, '!');
    if i < key.len() && key.subrange(0, i + 1) == "set!"@ {
        Some(key.subrange(i + 1, key.len() as int))
    } else {
        None
    }
}

/// The `set!` directives among the pairs of a section without a name, as
/// (variable, command), in order.
pub open spec fn pair_directives(ps: Seq<(Seq<char>, Seq<char>)>) -> Seq<(Seq<char>, Seq<char>)>
    decreases ps.len(),
{
    if ps.len() == 0 {
        seq![]
    } else {
        let prev = pair_directives(ps.drop_last());
        match set_target(ps.last().0) {
            Some(n) => prev.push((n, ps.last().1)),
            None => prev,
        }
    }
}

/// The `set!` directives of a fragment's sections without a name, in order.
pub open spec fn section_directives(ss: Seq<SectionView>) -> Seq<(Seq<char>, Seq<char>)>
    decreases ss.len(),
{
    if ss.len() == 0 {
        seq![]
    } else {
        let prev = section_directives(ss.drop_last());
        if ss.last().0 is None {
            prev + pair_directives(ss.last().1)
        } else {
            prev
        }
    }
}

pub open spec fn directives_view(ds: Seq<SetDirective>) -> Seq<(Seq<char>, Seq<char>)> {
    ds.map_values(|d: SetDirective| (d.name@, d.command@))
}

/// The index of the first device named `name`, or the number of devices.
pub fn find_device(devices: &Vec<Device>, name: &str) -> (r: usize)
    ensures
        r == position_of(devices_view(devices@), name@),
        r <= devices@.len(),
        r < devices@.len() ==> devices@[r as int]@.name == name@,
{
    let ghost ds = devices_view(devices@);
    proof {
        lemma_position_of(ds, name@);
    }
    let mut i: usize = 0;
    while i < devices.len()
        invariant
            ds == devices_view(devices@),
            i <= devices@.len(),
            0 <= position_of(ds, name@) <= ds.len(),
            forall|k: int| 0 <= k < position_of(ds, name@) ==> ds[k].name != name@,
            position_of(ds, name@) < ds.len() ==> ds[position_of(ds, name@)].name == name@,
            forall|k: int| 0 <= k < i ==> ds[k].name != name@,
        decreases devices@.len() - i,
    {
        assert(ds[i as int] == devices@[i as int]@);
        if same_text(devices[i].name.as_str(), name) {
            return i;
        }
        i = i + 1;
    }
    i
}

/// Applies the pairs of one device section to `dev`, in order; unknown keys
/// are reported in `notices`.
fn apply_section(
    dev: &mut Device,
    path: &str,
    pairs: &Vec<(String, String)>,
    notices: &mut Vec<Notice>,
) -> (r: Result<(), ConfigError>)
    ensures
        r is Ok <==> pairs_accepted(pairs_view(pairs@)),
        r is Ok ==> final(dev)@ == apply_pairs(old(dev)@, pairs_view(pairs@)),
        r is Err ==> (r->Err_0 matches ConfigError::Line { path: p, device, key, value, reason }
            && p@ == path@ && device@ == old(dev)@.name && exists|j: int|
            0 <= j < pairs@.len() && #[trigger] pairs_view(pairs@)[j] == (key@, value@)
                && !setting_accepted(key@, value@) && setting_error(key@, value@, reason)),
{
    let ghost ps = pairs_view(pairs@);
    let ghost start = dev@;
    let mut i: usize = 0;
    while i < pairs.len()
        invariant
            ps == pairs_view(pairs@),
            i <= pairs@.len(),
            dev@ == apply_pairs(start, ps.subrange(0, i as int)),
            dev@.name == start.name,
            start == old(dev)@,
            pairs_accepted(ps.subrange(0, i as int)),
        decreases pairs@.len() - i,
    {
        let ghost pre = ps.subrange(0, i as int);
        let ghost next = ps.subrange(0, i + 1);
        assert(next.drop_last() == pre);
        assert(next.last() == ps[i as int]);
        let key = pairs[i].0.as_str();
        let value = pairs[i].1.as_str();
        match dev.parse_line(key, value) {
            Ok(known) => {
                if !known {
                    notices.push(
                        Notice::UnknownKey {
                            path: path.to_string(),
                            device: dev.name.clone(),
                            key: key.to_string(),
                        },
                    );
                }
                assert(pairs_accepted(next)) by {
                    assert forall|k: int| 0 <= k < next.len() implies setting_accepted(
                        #[trigger] next[k].0,
                        next[k].1,
                    ) by {
                        if k < i {
                            assert(next[k] == pre[k]);
                        }
                    }
                }
            },
            Err(reason) => {
                let e = ConfigError::Line {
                    path: path.to_string(),
                    device: dev.name.clone(),
                    key: key.to_string(),
                    value: value.to_string(),
                    reason,
                };
                assert(ps[i as int] == (key@, value@));
                assert(!pairs_accepted(ps)) by {
                    assert(!setting_accepted(ps[i as int].0, ps[i as int].1));
                }
                return Err(e);
            },
        }
        i = i + 1;
    }
    assert(ps.subrange(0, i as int) == ps);
    Ok(())
}

/// Handles the pairs of a section without a name: `set!` directives are
/// collected in order, other keys are reported.
fn top_level_pairs(
    path: &str,
    pairs: &Vec<(String, String)>,
    directives: &mut Vec<SetDirective>,
    notices: &mut Vec<Notice>,
)
    ensures
        directives_view(final(directives)@) == directives_view(old(directives)@) + pair_directives(
            pairs_view(pairs@),
        ),
{
    let ghost ps = pairs_view(pairs@);
    let ghost start = directives_view(directives@);
    let mut i: usize = 0;
    assert(pair_directives(ps.subrange(0, 0)) =~= seq![]);
    assert(start + seq![] =~= start);
    while i < pairs.len()
        invariant
            ps == pairs_view(pairs@),
            i <= pairs@.len(),
            directives_view(directives@) == start + pair_directives(ps.subrange(0, i as int)),
        decreases pairs@.len() - i,
    {
        let ghost pre = ps.subrange(0, i as int);
        let ghost next = ps.subrange(0, i + 1);
        assert(next.drop_last() == pre);
        assert(next.last() == ps[i as int]);
        let key = pairs[i].0.as_str();
        let n = key.unicode_len();
        let mut bang: usize = 0;
        proof {
            lemma_find_char(key@, '!');
        }
        while bang < n && key.get_char(bang) != '!'
            invariant
                n == key@.len(),
                bang <= find_char(key@, '!'),
                0 <= find_char(key@, '!') <= n,
                find_char(key@, '!') < n ==> key@[find_char(key@, '!')] == '!',
            decreases n - bang,
        {
            bang = bang + 1;
        }
        if bang == n {
            notices.push(Notice::InvalidTopLevelKey { path: path.to_string(), key: key.to_string() });
            assert(set_target(key@) is None);
        } else {
            assert(bang == find_char(key@, '!'));
            assert(ps[i as int].0 == key@);
            let op = key.substring_char(0, bang + 1);
            if same_text(op, "set!") {
                let d = SetDirective {
                    path: path.to_string(),
                    name: key.substring_char(bang + 1, n).to_string(),
                    command: pairs[i].1.clone(),
                };
                let ghost dv = (d.name@, d.command@);
                let ghost before = directives@;
                assert(set_target(key@) == Some(d.name@));
                assert(pair_directives(next) == pair_directives(pre).push(dv));
                directives.push(d);
                assert(directives@ == before.push(d));
                assert(directives_view(directives@) =~= directives_view(before).push(dv));
                assert(directives_view(directives@) =~= start + pair_directives(next));
            } else {
                notices.push(Notice::UnknownOperation { path: path.to_string(), operation: op.to_string() });
            }
        }
        i = i + 1;
    }
    assert(ps.subrange(0, i as int) == ps);
}

/// Applies one configuration fragment, read from `path`, to the devices:
/// every section named `zram<N>` is merged into the device of that name
/// (created with defaults at the end when new), key by key, in order; `set!`
/// keys outside any section are collected in `directives`; what is ignored is
/// reported in `notices`.
pub fn merge_fragment(
    devices: &mut Vec<Device>,
    directives: &mut Vec<SetDirective>,
    notices: &mut Vec<Notice>,
    path: &str,
    text: &str,
) -> (r: Result<(), ConfigError>)
    ensures
        (r matches Err(ConfigError::Syntax { .. })) <==> ini_sections(without_bom(text@)) is None,
        r is Ok <==> (ini_sections(without_bom(text@)) is Some && sections_accepted(
            ini_sections(without_bom(text@))->0,
        )),
        r is Ok ==> devices_view(final(devices)@) == merge_sections(
            devices_view(old(devices)@),
            ini_sections(without_bom(text@))->0,
        ) && directives_view(final(directives)@) == directives_view(old(directives)@)
            + section_directives(ini_sections(without_bom(text@))->0),
        r matches Err(ConfigError::Line { path: p, device, key, value, reason }) ==> ({
            let ss = ini_sections(without_bom(text@))->0;
            p@ == path@ && exists|k: int, j: int|
                0 <= k < ss.len() && is_device_section(#[trigger] ss[k]) && ss[k].0->0
                    == device@ && 0 <= j < ss[k].1.len() && #[trigger] ss[k].1[j] == (key@, value@)
                    && !setting_accepted(key@, value@) && setting_error(key@, value@, reason)
        }),
{
    let body: &str = if text.unicode_len() > 0 && text.get_char(0) == '\u{FEFF}' {
        text.substring_char(1, text.unicode_len())
    } else {
        text
    };
    assert(body@ == without_bom(text@));
    let sections = match load_ini(body) {
        Ok(s) => s,
        Err((line, col, msg)) => {
            return Err(ConfigError::Syntax { path: path.to_string(), line, col, msg });
        },
    };
    let ghost ss = sections_view(sections@);
    let ghost start = devices_view(devices@);
    let ghost start_dirs = directives_view(directives@);
    let mut i: usize = 0;
    assert(merge_sections(start, ss.subrange(0, 0)) == start);
    assert(section_directives(ss.subrange(0, 0)) =~= seq![]);
    assert(start_dirs + seq![] =~= start_dirs);
    while i < sections.len()
        invariant
            ss == sections_view(sections@),
            ss == ini_sections(body@)->0,
            body@ == without_bom(text@),
            ini_sections(body@) is Some,
            i <= sections@.len(),
            devices_view(devices@) == merge_sections(start, ss.subrange(0, i as int)),
            directives_view(directives@) == start_dirs + section_directives(ss.subrange(0, i as int)),
            sections_accepted(ss.subrange(0, i as int)),
        decreases sections@.len() - i,
    {
        let ghost pre = ss.subrange(0, i as int);
        let ghost next = ss.subrange(0, i + 1);
        assert(next.drop_last() == pre);
        assert(next.last() == ss[i as int]);
        let pairs = &sections[i].1;
        assert(ss[i as int].1 == pairs_view(pairs@));
        match &sections[i].0 {
            None => {
                top_level_pairs(path, pairs, directives, notices);
                assert(directives_view(directives@) =~= start_dirs + section_directives(next));
            },
            Some(name) => {
                assert(ss[i as int].0 == Some(name@));
                if device_name_ok(name.as_str()) {
                    let idx = find_device(devices, name.as_str());
                    let ghost prev = devices_view(devices@);
                    let is_new = idx == devices.len();
                    let mut dev = if is_new {
                        Device::new(name.clone())
                    } else {
                        devices.remove(idx)
                    };
                    let ghost before = dev@;
                    let ghost rest = devices@;
                    match apply_section(&mut dev, path, pairs, notices) {
                        Ok(()) => {},
                        Err(e) => {
                            assert(before.name == name@);
                            assert(is_device_section(ss[i as int]));
                            assert(!sections_accepted(ss)) by {
                                assert(!pairs_accepted(ss[i as int].1));
                            }
                            return Err(e);
                        },
                    }
                    if is_new {
                        devices.push(dev);
                        assert(devices_view(devices@) =~= prev.push(apply_pairs(before, ss[i as int].1)));
                    } else {
                        devices.insert(idx, dev);
                        assert(devices_view(devices@) =~= prev.update(
                            idx as int,
                            apply_pairs(before, ss[i as int].1),
                        ));
                    }
                    assert(devices_view(devices@) == merge_sections(start, next));
                } else {
                    notices.push(
                        Notice::IgnoredSection { path: path.to_string(), section: name.clone() },
                    );
                }
            },
        }
        assert(sections_accepted(next)) by {
            assert forall|k: int| 0 <= k < next.len() && is_device_section(#[trigger] next[k]) implies pairs_accepted(
                next[k].1,
            ) by {
                if k < i {
                    assert(next[k] == pre[k]);
                }
            }
        }
        i = i + 1;
    }
    assert(ss.subrange(0, i as int) == ss);
    Ok(())
}

/// The devices, with a `zram0` device with defaults added at the end when
/// the kernel override is on and none is there.
pub open spec fn with_kernel_default(ds: Seq<DeviceView>, kernel_override: bool) -> Seq<DeviceView> {
    if kernel_override && position_of(ds, "zram0"@) == ds.len() {
        ds.push(default_device("zram0"@))
    } else {
        ds
    }
}

/// With the kernel override on, a `zram0` device with defaults is added
/// when no fragment defined one.
pub fn add_kernel_default(devices: &mut Vec<Device>, kernel_override: bool)
    ensures
        devices_view(final(devices)@) == with_kernel_default(devices_view(old(devices)@), kernel_override),
{
    if kernel_override {
        let idx = find_device(devices, "zram0");
        if idx == devices.len() {
            let d = Device::new("zram0".to_string());
            let ghost before = devices@;
            devices.push(d);
            assert(devices_view(devices@) =~= devices_view(before).push(default_device("zram0"@)));
        }
    }
}

/// Sizes every device in turn on a host with `memtotal_mb` of memory,
/// stopping at the first error.
pub fn size_devices<F: Fn(SizeQuery) -> Result<u64, String> + Copy>(
    devices: &mut Vec<Device>,
    memtotal_mb: u64,
    eval: F,
) -> (r: Result<(), ConfigError>)
    requires
        forall|q: SizeQuery| eval.requires((q,)),
    ensures
        r is Ok ==> final(devices)@.len() == old(devices)@.len() && forall|k: int|
            0 <= k < old(devices)@.len() ==> sized(
                #[trigger] old(devices)@[k]@,
                final(devices)@[k]@,
                memtotal_mb,
                eval,
            ),
        r is Err ==> exists|k: int|
            0 <= k < old(devices)@.len() && enabled_on(#[trigger] old(devices)@[k]@, memtotal_mb)
                && sizing_failure(old(devices)@[k]@, eval, r->Err_0),
        (forall|k: int|
            0 <= k < old(devices)@.len() ==> !(enabled_on(#[trigger] old(devices)@[k]@, memtotal_mb)
                && needs_evaluation(old(devices)@[k]@))) ==> r is Ok,
{
    let ghost start = devices@;
    let mut i: usize = 0;
    while i < devices.len()
        invariant
            forall|q: SizeQuery| eval.requires((q,)),
            devices@.len() == start.len(),
            i <= devices@.len(),
            forall|k: int| 0 <= k < i ==> sized(#[trigger] start[k]@, devices@[k]@, memtotal_mb, eval),
            forall|k: int| i <= k < devices@.len() ==> #[trigger] devices@[k] == start[k],
            start == old(devices)@,
        decreases devices@.len() - i,
    {
        let mut d = devices.remove(i);
        let ghost rest = devices@;
        let ghost before = d@;
        assert(before == start[i as int]@);
        match d.set_disksize_if_enabled(memtotal_mb, eval) {
            Ok(()) => {},
            Err(e) => {
                assert(enabled_on(start[i as int]@, memtotal_mb) && sizing_failure(start[i as int]@, eval, e));
                assert(needs_evaluation(start[i as int]@));
                return Err(e);
            },
        }
        devices.insert(i, d);
        assert forall|k: int| i < k < devices@.len() implies #[trigger] devices@[k] == start[k] by {
            assert(devices@[k] == rest[k - 1]);
        }
        i = i + 1;
    }
    Ok(())
}

/// The devices with a non-zero size, in order.
pub open spec fn active(ds: Seq<DeviceView>) -> Seq<DeviceView>
    decreases ds.len(),
{
    if ds.len() == 0 {
        seq![]
    } else if ds.last().disksize > 0 {
        active(ds.drop_last()).push(ds.last())
    } else {
        active(ds.drop_last())
    }
}

/// Keeps the devices with a non-zero size, in order: the others are
/// disabled or empty and take no part in what follows.
pub fn active_devices(devices: Vec<Device>) -> (r: Vec<Device>)
    ensures
        devices_view(r@) == active(devices_view(devices@)),
{
    let ghost all = devices_view(devices@);
    let n = devices.len();
    let mut rest = devices;
    let mut out: Vec<Device> = Vec::new();
    let mut k: usize = 0;
    assert(active(all.subrange(0, 0)) =~= devices_view(out@));
    while k < n
        invariant
            n == all.len(),
            k <= n,
            devices_view(rest@) =~= all.subrange(k as int, n as int),
            rest@.len() == n - k,
            devices_view(out@) == active(all.subrange(0, k as int)),
        decreases n - k,
    {
        let ghost pre = all.subrange(0, k as int);
        let ghost next = all.subrange(0, k + 1);
        assert(next.drop_last() == pre);
        assert(devices_view(rest@)[0] == all[k as int]);
        assert(rest@[0]@ == all[k as int]);
        let ghost tail = rest@.subrange(1, rest@.len() as int);
        let ghost old_view = devices_view(rest@);
        let d = rest.remove(0);
        assert(d@ == all[k as int]);
        assert(rest@ == tail);
        assert forall|j: int| 0 <= j < rest@.len() implies #[trigger] devices_view(rest@)[j] == all[k
            + 1 + j] by {
            assert(devices_view(rest@)[j] == rest@[j]@);
            assert(rest@[j] == tail[j]);
            assert(old_view[j + 1] == all.subrange(k as int, n as int)[j + 1]);
        }
        assert(devices_view(rest@) =~= all.subrange(k + 1, n as int));
        if d.disksize > 0 {
            let ghost before = out@;
            out.push(d);
            assert(devices_view(out@) =~= devices_view(before).push(all[k as int]));
        }
        k = k + 1;
    }
    assert(all.subrange(0, n as int) == all);
    out
}

/// Which field of a device a key sets; the two names of the host memory
/// limit set the same field, unknown keys set none (0).
pub open spec fn field_of_key(key: Seq<char>) -> nat {
    if is_size_key(key) {
        1
    } else if key == "zram-size"@ {
        2
    } else if key == "zram-resident-limit"@ {
        3
    } else if key == "compression-algorithm"@ {
        4
    } else if key == "writeback-device"@ {
        5
    } else if key == "swap-priority"@ {
        6
    } else if key == "mount-point"@ {
        7
    } else if key == "fs-type"@ {
        8
    } else if key == "options"@ {
        9
    } else if key == "zram-fraction"@ {
        10
    } else if key == "max-zram-size"@ {
        11
    } else {
        0
    }
}

/// `a` and `b` agree on field `f` (numbered as by `field_of_key`).
pub open spec fn same_field(a: DeviceView, b: DeviceView, f: nat) -> bool {
    if f == 1 {
        a.host_memory_limit_mb == b.host_memory_limit_mb
    } else if f == 2 {
        a.zram_size == b.zram_size
    } else if f == 3 {
        a.zram_resident_limit == b.zram_resident_limit
    } else if f == 4 {
        a.compression_algorithms == b.compression_algorithms
    } else if f == 5 {
        a.writeback_dev == b.writeback_dev
    } else if f == 6 {
        a.swap_priority == b.swap_priority
    } else if f == 7 {
        a.mount_point == b.mount_point
    } else if f == 8 {
        a.fs_type == b.fs_type
    } else if f == 9 {
        a.options == b.options
    } else if f == 10 {
        a.zram_fraction == b.zram_fraction
    } else if f == 11 {
        a.max_zram_size_mb == b.max_zram_size_mb
    } else {
        true
    }
}

proof fn lemma_setting_other_field(d: DeviceView, key: Seq<char>, value: Seq<char>, f: nat)
    requires
        field_of_key(key) != f,
    ensures
        same_field(d, with_setting(d, key, value), f),
{
}

proof fn lemma_setting_own_field(a: DeviceView, b: DeviceView, key: Seq<char>, value: Seq<char>)
    ensures
        same_field(with_setting(a, key, value), with_setting(b, key, value), field_of_key(key)),
{
}

proof fn lemma_pairs_keep_name(d: DeviceView, ps: Seq<(Seq<char>, Seq<char>)>)
    ensures
        apply_pairs(d, ps).name == d.name,
    decreases ps.len(),
{
    if ps.len() > 0 {
        lemma_pairs_keep_name(d, ps.drop_last());
    }
}

/// Pairs that do not set field `f` leave it as it was.
proof fn lemma_pairs_other_field(d: DeviceView, ps: Seq<(Seq<char>, Seq<char>)>, f: nat)
    requires
        f > 0,
        forall|j: int| 0 <= j < ps.len() ==> field_of_key(#[trigger] ps[j].0) != f,
    ensures
        same_field(d, apply_pairs(d, ps), f),
    decreases ps.len(),
{
    if ps.len() > 0 {
        let pre = ps.drop_last();
        assert forall|j: int| 0 <= j < pre.len() implies field_of_key(#[trigger] pre[j].0) != f by {
            assert(pre[j] == ps[j]);
        }
        lemma_pairs_other_field(d, pre, f);
        lemma_setting_other_field(apply_pairs(d, pre), ps.last().0, ps.last().1, f);
    }
}

/// The pair at `j` is the last to set its field: afterwards the field holds
/// what that pair set.
proof fn lemma_pairs_last_setting(d: DeviceView, ps: Seq<(Seq<char>, Seq<char>)>, j: int)
    requires
        0 <= j < ps.len(),
        field_of_key(ps[j].0) > 0,
        forall|i: int| j < i < ps.len() ==> field_of_key(#[trigger] ps[i].0) != field_of_key(ps[j].0),
    ensures
        same_field(apply_pairs(d, ps), with_setting(d, ps[j].0, ps[j].1), field_of_key(ps[j].0)),
    decreases ps.len(),
{
    let f = field_of_key(ps[j].0);
    let pre = ps.drop_last();
    if j == ps.len() - 1 {
        lemma_setting_own_field(apply_pairs(d, pre), d, ps[j].0, ps[j].1);
    } else {
        assert(pre[j] == ps[j]);
        assert forall|i: int| j < i < pre.len() implies field_of_key(#[trigger] pre[i].0) != f by {
            assert(pre[i] == ps[i]);
        }
        lemma_pairs_last_setting(d, pre, j);
        lemma_setting_other_field(apply_pairs(d, pre), ps.last().0, ps.last().1, f);
    }
}

/// `p` is the first position of a device named `name` (or the length).
proof fn lemma_position_is(ds: Seq<DeviceView>, name: Seq<char>, p: int)
    requires
        0 <= p <= ds.len(),
        forall|k: int| 0 <= k < p ==> ds[k].name != name,
        p < ds.len() ==> ds[p].name == name,
    ensures
        position_of(ds, name) == p,
{
    lemma_position_of(ds, name);
}

/// Merging a section keeps every device's position and name, and adds the
/// section's device at the end when it is new.
proof fn lemma_merge_section_positions(
    ds: Seq<DeviceView>,
    n: Seq<char>,
    ps: Seq<(Seq<char>, Seq<char>)>,
    name: Seq<char>,
)
    ensures
        ({
            let m = merge_section(ds, n, ps);
            &&& ds.len() <= m.len()
            &&& forall|k: int| 0 <= k < ds.len() ==> #[trigger] m[k].name == ds[k].name
            &&& position_of(ds, name) < ds.len() ==> position_of(m, name) == position_of(ds, name)
            &&& name == n ==> position_of(m, name) < m.len()
            &&& name == n ==> m[position_of(m, name)] == apply_pairs(
                if position_of(ds, name) < ds.len() {
                    ds[position_of(ds, name)]
                } else {
                    default_device(name)
                },
                ps,
            )
            &&& name != n && position_of(ds, name) < ds.len() ==> m[position_of(m, name)] == ds[position_of(ds, name)]
        }),
{
    let m = merge_section(ds, n, ps);
    let i = position_of(ds, n);
    lemma_position_of(ds, n);
    lemma_position_of(ds, name);
    let p = position_of(ds, name);
    if i < ds.len() {
        lemma_pairs_keep_name(ds[i], ps);
        assert forall|k: int| 0 <= k < ds.len() implies #[trigger] m[k].name == ds[k].name by {}
        lemma_position_is(m, name, p);
    } else {
        lemma_pairs_keep_name(default_device(n), ps);
        assert forall|k: int| 0 <= k < ds.len() implies #[trigger] m[k].name == ds[k].name by {}
        if p < ds.len() {
            lemma_position_is(m, name, p);
        } else if name == n {
            lemma_position_is(m, name, ds.len() as int);
        }
    }
}

/// The pairs of the device sections named `name`, in order.
pub open spec fn pairs_for(ss: Seq<SectionView>, name: Seq<char>) -> Seq<(Seq<char>, Seq<char>)>
    decreases ss.len(),
{
    if ss.len() == 0 {
        seq![]
    } else if is_device_section(ss.last()) && ss.last().0->0 == name {
        pairs_for(ss.drop_last(), name) + ss.last().1
    } else {
        pairs_for(ss.drop_last(), name)
    }
}

proof fn lemma_apply_pairs_concat(
    d: DeviceView,
    a: Seq<(Seq<char>, Seq<char>)>,
    b: Seq<(Seq<char>, Seq<char>)>,
)
    ensures
        apply_pairs(d, a + b) == apply_pairs(apply_pairs(d, a), b),
    decreases b.len(),
{
    if b.len() == 0 {
        assert(a + b == a);
    } else {
        lemma_apply_pairs_concat(d, a, b.drop_last());
        assert((a + b).drop_last() == a + b.drop_last());
        assert((a + b).last() == b.last());
    }
}

/// After merging sections, the device named `name` is the device it was
/// before (or a fresh one) with all pairs of its sections applied in order.
pub proof fn lemma_merged_device(ds: Seq<DeviceView>, ss: Seq<SectionView>, name: Seq<char>)
    requires
        position_of(ds, name) < ds.len() || pairs_for(ss, name).len() > 0 || exists|k: int|
            0 <= k < ss.len() && is_device_section(#[trigger] ss[k]) && ss[k].0->0 == name,
    ensures
        ({
            let m = merge_sections(ds, ss);
            &&& position_of(m, name) < m.len()
            &&& m[position_of(m, name)] == apply_pairs(
                if position_of(ds, name) < ds.len() {
                    ds[position_of(ds, name)]
                } else {
                    default_device(name)
                },
                pairs_for(ss, name),
            )
        }),
    decreases ss.len(),
{
    let start = if position_of(ds, name) < ds.len() {
        ds[position_of(ds, name)]
    } else {
        default_device(name)
    };
    if ss.len() == 0 {
        assert(apply_pairs(start, seq![]) == start);
    } else {
        let pre = ss.drop_last();
        let prev = merge_sections(ds, pre);
        let l = ss.last();
        let here = is_device_section(l) && l.0->0 == name;
        let before_here = position_of(ds, name) < ds.len() || pairs_for(pre, name).len() > 0
            || exists|k: int| 0 <= k < pre.len() && is_device_section(#[trigger] pre[k]) && pre[k].0->0 == name;
        if before_here {
            lemma_merged_device(ds, pre, name);
        } else {
            assert(!here ==> false) by {
                if !here {
                    let k = choose|k: int|
                        0 <= k < ss.len() && is_device_section(#[trigger] ss[k]) && ss[k].0->0 == name;
                    if k < pre.len() {
                        assert(pre[k] == ss[k]);
                    }
                    assert(pairs_for(ss, name) == pairs_for(pre, name));
                }
            }
            lemma_position_of(ds, name);
            assert forall|k: int| 0 <= k < pre.len() implies !(is_device_section(#[trigger] pre[k])
                && pre[k].0->0 == name) by {}
            lemma_merged_prefix_absent(ds, pre, name);
            assert(pairs_for(pre, name) + l.1 =~= l.1);
        }
        if is_device_section(l) {
            lemma_merge_section_positions(prev, l.0->0, l.1, name);
            if here {
                assert(pairs_for(ss, name) == pairs_for(pre, name) + l.1);
                lemma_apply_pairs_concat(start, pairs_for(pre, name), l.1);
            }
        }
    }
}

/// Without any section of `name`, a device absent before stays absent.
proof fn lemma_merged_prefix_absent(ds: Seq<DeviceView>, ss: Seq<SectionView>, name: Seq<char>)
    requires
        position_of(ds, name) == ds.len(),
        pairs_for(ss, name).len() == 0,
        forall|k: int| 0 <= k < ss.len() ==> !(is_device_section(#[trigger] ss[k]) && ss[k].0->0 == name),
    ensures
        position_of(merge_sections(ds, ss), name) == merge_sections(ds, ss).len(),
        pairs_for(ss, name) =~= seq![],
    decreases ss.len(),
{
    if ss.len() > 0 {
        let pre = ss.drop_last();
        assert forall|k: int| 0 <= k < pre.len() implies !(is_device_section(#[trigger] pre[k])
            && pre[k].0->0 == name) by {
            assert(pre[k] == ss[k]);
        }
        assert(pairs_for(pre, name).len() == 0);
        lemma_merged_prefix_absent(ds, pre, name);
        let prev = merge_sections(ds, pre);
        let l = ss.last();
        if is_device_section(l) {
            let m = merge_section(prev, l.0->0, l.1);
            lemma_merge_section_positions(prev, l.0->0, l.1, name);
            lemma_position_of(prev, name);
            lemma_position_of(prev, l.0->0);
            lemma_pairs_keep_name(default_device(l.0->0), l.1);
            assert forall|k: int| 0 <= k < m.len() implies m[k].name != name by {
                if k < prev.len() {
                    assert(m[k].name == prev[k].name);
                }
            }
            lemma_position_is(m, name, m.len() as int);
        }
    }
}

/// Per key, the last fragment wins: after merging the sections of all
/// fragments in order, a device's field holds what the last pair that sets
/// that field gave it, whichever section created the device and whatever
/// other keys later sections set.
pub proof fn lemma_last_setting_wins(ds: Seq<DeviceView>, ss: Seq<SectionView>, name: Seq<char>, j: int)
    requires
        0 <= j < pairs_for(ss, name).len(),
        field_of_key(pairs_for(ss, name)[j].0) > 0,
        forall|i: int|
            j < i < pairs_for(ss, name).len() ==> field_of_key(#[trigger] pairs_for(ss, name)[i].0)
                != field_of_key(pairs_for(ss, name)[j].0),
    ensures
        ({
            let m = merge_sections(ds, ss);
            let d = m[position_of(m, name)];
            let (key, value) = pairs_for(ss, name)[j];
            &&& position_of(m, name) < m.len()
            &&& same_field(d, with_setting(d, key, value), field_of_key(key))
        }),
{
    lemma_merged_device(ds, ss, name);
    let m = merge_sections(ds, ss);
    let d = m[position_of(m, name)];
    let ps = pairs_for(ss, name);
    let start = if position_of(ds, name) < ds.len() {
        ds[position_of(ds, name)]
    } else {
        default_device(name)
    };
    lemma_pairs_last_setting(start, ps, j);
    lemma_setting_own_field(start, d, ps[j].0, ps[j].1);
}

/// Merging the fragments one after another, as `merge_fragment` does, is
/// merging all their sections in order.
pub proof fn lemma_merge_sections_concat(ds: Seq<DeviceView>, a: Seq<SectionView>, b: Seq<SectionView>)
    ensures
        merge_sections(merge_sections(ds, a), b) == merge_sections(ds, a + b),
    decreases b.len(),
{
    if b.len() == 0 {
        assert(a + b == a);
    } else {
        lemma_merge_sections_concat(ds, a, b.drop_last());
        assert((a + b).drop_last() == a + b.drop_last());
        assert((a + b).last() == b.last());
    }
}

/// The fragments' sections in order, when the `ini` crate reads every one.
pub open spec fn all_sections(texts: Seq<Seq<char>>) -> Option<Seq<SectionView>>
    decreases texts.len(),
{
    if texts.len() == 0 {
        Some(seq![])
    } else {
        match (all_sections(texts.drop_last()), ini_sections(without_bom(texts.last()))) {
            (Some(a), Some(b)) => Some(a + b),
            _ => None,
        }
    }
}

/// When all fragments are read, each fragment's sections stand, in order,
/// within the sections of all of them.
proof fn lemma_all_sections_split(texts: Seq<Seq<char>>, i: int)
    requires
        0 <= i < texts.len(),
        all_sections(texts) is Some,
    ensures
        ini_sections(without_bom(texts[i])) is Some,
        exists|a: Seq<SectionView>, c: Seq<SectionView>|
            all_sections(texts)->0 == a + ini_sections(without_bom(texts[i]))->0 + c,
    decreases texts.len(),
{
    let pre = texts.drop_last();
    let b = ini_sections(without_bom(texts.last()))->0;
    if i == texts.len() - 1 {
        let a = all_sections(pre)->0;
        let c = Seq::<SectionView>::empty();
        assert(all_sections(texts)->0 == a + b + c);
    } else {
        assert(pre[i] == texts[i]);
        lemma_all_sections_split(pre, i);
        let bi = ini_sections(without_bom(texts[i]))->0;
        let (a, c) = choose|a: Seq<SectionView>, c: Seq<SectionView>|
            all_sections(pre)->0 == a + bi + c;
        assert(all_sections(texts)->0 == a + bi + (c + b));
    }
}

proof fn lemma_accepted_middle(a: Seq<SectionView>, b: Seq<SectionView>, c: Seq<SectionView>)
    requires
        sections_accepted(a + b + c),
    ensures
        sections_accepted(b),
{
    let w = a + b + c;
    assert forall|k: int| 0 <= k < b.len() && is_device_section(#[trigger] b[k]) implies pairs_accepted(
        b[k].1,
    ) by {
        assert(w[a.len() + k] == b[k]);
    }
}

proof fn lemma_accepted_concat(a: Seq<SectionView>, b: Seq<SectionView>)
    requires
        sections_accepted(a),
        sections_accepted(b),
    ensures
        sections_accepted(a + b),
{
    let w = a + b;
    assert forall|k: int| 0 <= k < w.len() && is_device_section(#[trigger] w[k]) implies pairs_accepted(
        w[k].1,
    ) by {
        if k < a.len() {
            assert(w[k] == a[k]);
        } else {
            assert(w[k] == b[k - a.len()]);
        }
    }
}

/// What merging fragments gives: the devices, and the `set!` directives
/// in the order in which they are to run.
pub struct Merged {
    pub devices: Vec<Device>,
    pub directives: Vec<SetDirective>,
    pub notices: Vec<Notice>,
}

/// Merges the fragments, given as (path, text) in the order in which they
/// apply, into one record per device.
pub fn merge_fragments(fragments: &Vec<(String, String)>) -> (r: Result<Merged, ConfigError>)
    ensures
        r is Ok <==> ({
            let ss = all_sections(fragments@.map_values(|f: (String, String)| f.1@));
            ss is Some && sections_accepted(ss->0)
        }),
        r is Ok ==> ({
            let ss = all_sections(fragments@.map_values(|f: (String, String)| f.1@));
            &&& ss is Some
            &&& sections_accepted(ss->0)
            &&& devices_view(r->Ok_0.devices@) == merge_sections(seq![], ss->0)
            &&& names_unique(devices_view(r->Ok_0.devices@))
            &&& directives_view(r->Ok_0.directives@) == section_directives(ss->0)
        }),
{
    let ghost texts = fragments@.map_values(|f: (String, String)| f.1@);
    let mut devices: Vec<Device> = Vec::new();
    let mut directives: Vec<SetDirective> = Vec::new();
    let mut notices: Vec<Notice> = Vec::new();
    let mut i: usize = 0;
    assert(devices_view(devices@) =~= seq![]);
    assert(directives_view(directives@) =~= seq![]);
    assert(section_directives(seq![]) =~= seq![]);
    assert(texts.subrange(0, 0) =~= Seq::<Seq<char>>::empty());
    assert(sections_accepted(Seq::<SectionView>::empty()));
    while i < fragments.len()
        invariant
            texts == fragments@.map_values(|f: (String, String)| f.1@),
            i <= fragments@.len(),
            all_sections(texts.subrange(0, i as int)) is Some,
            sections_accepted(all_sections(texts.subrange(0, i as int))->0),
            devices_view(devices@) == merge_sections(seq![], all_sections(texts.subrange(0, i as int))->0),
            directives_view(directives@) == section_directives(all_sections(texts.subrange(0, i as int))->0),
        decreases fragments@.len() - i,
    {
        let ghost pre = texts.subrange(0, i as int);
        let ghost next = texts.subrange(0, i + 1);
        assert(next.drop_last() == pre);
        assert(next.last() == fragments@[i as int].1@);
        let ghost before = all_sections(pre)->0;
        match merge_fragment(
            &mut devices,
            &mut directives,
            &mut notices,
            fragments[i].0.as_str(),
            fragments[i].1.as_str(),
        ) {
            Ok(()) => {},
            Err(e) => {
                proof {
                    if all_sections(texts) is Some {
                        lemma_all_sections_split(texts, i as int);
                        let bi = ini_sections(without_bom(texts[i as int]))->0;
                        let (a, c) = choose|a: Seq<SectionView>, c: Seq<SectionView>|
                            all_sections(texts)->0 == a + bi + c;
                        if sections_accepted(all_sections(texts)->0) {
                            lemma_accepted_middle(a, bi, c);
                        }
                    }
                }
                return Err(e);
            },
        }
        proof {
            let b = ini_sections(without_bom(fragments@[i as int].1@))->0;
            lemma_accepted_concat(before, b);
            lemma_merge_sections_concat(seq![], before, b);
            lemma_section_directives_concat(before, b);
        }
        i = i + 1;
    }
    assert(texts.subrange(0, i as int) == texts);
    proof {
        lemma_merge_keeps_names_unique(seq![], all_sections(texts)->0);
    }
    Ok(Merged { devices, directives, notices })
}

proof fn lemma_section_directives_concat(a: Seq<SectionView>, b: Seq<SectionView>)
    ensures
        section_directives(a + b) == section_directives(a) + section_directives(b),
    decreases b.len(),
{
    if b.len() == 0 {
        assert(a + b == a);
        assert(section_directives(a) + seq![] =~= section_directives(a));
    } else {
        lemma_section_directives_concat(a, b.drop_last());
        assert((a + b).drop_last() == a + b.drop_last());
        assert((a + b).last() == b.last());
        if b.last().0 is None {
            assert(section_directives(a) + section_directives(b.drop_last()) + pair_directives(
                b.last().1,
            ) =~= section_directives(a) + (section_directives(b.drop_last()) + pair_directives(
                b.last().1,
            )));
        }
    }
}

/// Each device kept as active is one of the devices, in order.
proof fn lemma_active_unique(ds: Seq<DeviceView>)
    requires
        names_unique(ds),
    ensures
        names_unique(active(ds)),
        forall|k: int|
            0 <= k < active(ds).len() ==> exists|j: int| 0 <= j < ds.len() && ds[j] == #[trigger] active(ds)[k],
    decreases ds.len(),
{
    if ds.len() > 0 {
        let pre = ds.drop_last();
        assert(names_unique(pre)) by {
            assert forall|i: int, j: int| 0 <= i < j < pre.len() implies pre[i].name != pre[j].name by {
                assert(pre[i] == ds[i] && pre[j] == ds[j]);
            }
        }
        lemma_active_unique(pre);
        let a = active(pre);
        assert forall|k: int| 0 <= k < a.len() implies exists|j: int| 0 <= j < ds.len() && ds[j] == #[trigger] a[k] by {
            let j = choose|j: int| 0 <= j < pre.len() && pre[j] == a[k];
            assert(ds[j] == pre[j]);
        }
        if ds.last().disksize > 0 {
            let r = a.push(ds.last());
            assert forall|k: int| 0 <= k < r.len() implies exists|j: int| 0 <= j < ds.len() && ds[j] == #[trigger] r[k] by {
                if k < a.len() {
                    assert(r[k] == a[k]);
                } else {
                    assert(ds[ds.len() - 1] == r[k]);
                }
            }
            assert forall|i: int, j: int| 0 <= i < j < r.len() implies r[i].name != r[j].name by {
                if j < a.len() {
                    assert(r[i] == a[i] && r[j] == a[j]);
                } else {
                    assert(r[i] == a[i]);
                    let m = choose|m: int| 0 <= m < pre.len() && pre[m] == a[i];
                    assert(ds[m] == pre[m]);
                    assert(ds[ds.len() - 1].name != ds[m].name);
                }
            }
        }
    }
}

/// Finishes a resolution: adds `zram0` under the kernel override, sizes
/// every device on a host with `memtotal_mb` of memory, and keeps those
/// with a non-zero size, in order. It fails only where the evaluator's
/// answer for an enabled device fails; names that were unique stay unique.
pub fn finish_devices<F: Fn(SizeQuery) -> Result<u64, String> + Copy>(
    devices: Vec<Device>,
    kernel_override: bool,
    memtotal_mb: u64,
    eval: F,
) -> (r: Result<Vec<Device>, ConfigError>)
    requires
        forall|q: SizeQuery| eval.requires((q,)),
    ensures
        ({
            let before = devices_view(devices@);
            let listed = with_kernel_default(before, kernel_override);
            &&& r is Ok ==> exists|after: Seq<DeviceView>|
                after.len() == listed.len() && (forall|k: int|
                    0 <= k < listed.len() ==> sized(#[trigger] listed[k], after[k], memtotal_mb, eval))
                    && devices_view(r->Ok_0@) == active(after)
            &&& r is Err ==> exists|k: int|
                0 <= k < listed.len() && enabled_on(#[trigger] listed[k], memtotal_mb)
                    && sizing_failure(listed[k], eval, r->Err_0)
            &&& (forall|k: int|
                0 <= k < listed.len() ==> !(enabled_on(#[trigger] listed[k], memtotal_mb)
                    && needs_evaluation(listed[k]))) ==> r is Ok
            &&& (r is Ok && names_unique(before)) ==> names_unique(devices_view(r->Ok_0@))
        }),
{
    let ghost before = devices_view(devices@);
    let mut devices = devices;
    add_kernel_default(&mut devices, kernel_override);
    let ghost listed = devices@;
    proof {
        if names_unique(before) {
            lemma_position_of(before, "zram0"@);
            assert(names_unique(devices_view(listed)));
        }
    }
    assert forall|k: int| 0 <= k < listed.len() implies #[trigger] devices_view(listed)[k] == listed[k]@ by {}
    match size_devices(&mut devices, memtotal_mb, eval) {
        Ok(()) => {},
        Err(e) => {
            let ghost k = choose|k: int|
                0 <= k < listed.len() && enabled_on(#[trigger] listed[k]@, memtotal_mb)
                    && sizing_failure(listed[k]@, eval, e);
            assert(devices_view(listed)[k] == listed[k]@);
            assert(devices_view(listed) == with_kernel_default(before, kernel_override));
            assert(enabled_on(with_kernel_default(before, kernel_override)[k], memtotal_mb));
            return Err(e);
        },
    }
    let ghost after = devices_view(devices@);
    assert forall|k: int| 0 <= k < listed.len() implies sized(
        #[trigger] devices_view(listed)[k],
        after[k],
        memtotal_mb,
        eval,
    ) by {
        assert(devices_view(listed)[k] == listed[k]@);
    }
    proof {
        if names_unique(before) {
            assert forall|i: int, j: int| 0 <= i < j < after.len() implies after[i].name != after[j].name by {
                assert(after[i].name == devices_view(listed)[i].name);
                assert(after[j].name == devices_view(listed)[j].name);
            }
            lemma_active_unique(after);
        }
    }
    Ok(active_devices(devices))
}

/// Merging sections never gives two devices the same name.
pub proof fn lemma_merge_keeps_names_unique(ds: Seq<DeviceView>, ss: Seq<SectionView>)
    requires
        names_unique(ds),
    ensures
        names_unique(merge_sections(ds, ss)),
    decreases ss.len(),
{
    if ss.len() > 0 {
        lemma_merge_keeps_names_unique(ds, ss.drop_last());
        let prev = merge_sections(ds, ss.drop_last());
        let l = ss.last();
        if is_device_section(l) {
            let n = l.0->0;
            let m = merge_section(prev, n, l.1);
            lemma_merge_section_positions(prev, n, l.1, n);
            lemma_position_of(prev, n);
            if position_of(prev, n) == prev.len() {
                lemma_pairs_keep_name(default_device(n), l.1);
                assert(m[prev.len() as int].name == n);
            }
            assert forall|i: int, j: int| 0 <= i < j < m.len() implies m[i].name != m[j].name by {
                if j < prev.len() {
                    assert(m[i].name == prev[i].name);
                    assert(m[j].name == prev[j].name);
                } else {
                    assert(m[i].name == prev[i].name);
                }
            }
        }
    }
}

} // verus!
