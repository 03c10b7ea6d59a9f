//! Facts about the host read from text: total memory from a `meminfo`
//! listing, and boolean flags from a kernel command line.

use vstd::prelude::*;
use crate::text::{has_prefix, parse_u64, pieces, same_text, split_pieces, split_words, u64_of, words};

verus! {

pub open spec fn memtotal_label() -> Seq<char> {
    "MemTotal:"@
}

/// A line of the form `MemTotal: <value> ...`.
pub open spec fn is_memtotal_line(l: Seq<char>) -> bool {
    words(l).len() >= 2 && words(l)[0] == memtotal_label()
}

/// What the first `MemTotal:` line among `ls` gives: `None` when there is
/// none, else the number that its second word denotes, if any.
pub open spec fn first_memtotal(ls: Seq<Seq<char>>) -> Option<Option<u64>>
    decreases ls.len(),
{
    if ls.len() == 0 {
        None
    } else if is_memtotal_line(ls[0]) {
        Some(u64_of(words(ls[0])[1]))
    } else {
        first_memtotal(ls.drop_first())
    }
}

#[derive(Debug, PartialEq, Eq)]
pub enum MemInfoError {
    /// No line starts with the `MemTotal:` field.
    NotFound,
    /// The `MemTotal:` value is not a number; it is kept here.
    BadValue(String),
}

/// Total memory in kB, from the text of a `meminfo` listing: the second
/// field of the first line whose first field is `MemTotal:`.
pub fn get_total_memory_kb(meminfo: &str) -> (r: Result<u64, MemInfoError>)
    ensures
        match first_memtotal(pieces(meminfo@, '\n')) {
            None => r == Err::<u64, MemInfoError>(MemInfoError::NotFound),
            Some(None) => r matches Err(MemInfoError::BadValue(_)),
            Some(Some(v)) => r == Ok::<u64, MemInfoError>(v),
        },
{
    let ls = split_pieces(meminfo, '\n');
    let ghost all = pieces(meminfo@, '\n');
    let mut i: usize = 0;
    assert(all.subrange(0, all.len() as int) == all);
    while i < ls.len()
        invariant
            all == pieces(meminfo@, '\n'),
            ls@.len() == all.len(),
            forall|k: int| 0 <= k < ls@.len() ==> #[trigger] ls@[k]@ == all[k],
            i <= ls@.len(),
            first_memtotal(all) == first_memtotal(all.subrange(i as int, all.len() as int)),
        decreases ls@.len() - i,
    {
        let ghost rest = all.subrange(i as int, all.len() as int);
        assert(rest.drop_first() == all.subrange(i + 1, all.len() as int));
        assert(rest[0] == all[i as int]);
        let ws = split_words(ls[i].as_str());
        if ws.len() >= 2 {
            proof {
                reveal_strlit("MemTotal:");
            }
            if same_text(ws[0].as_str(), "MemTotal:") {
                assert(ws@[0]@ == words(all[i as int])[0]);
                assert(ws@[1]@ == words(all[i as int])[1]);
                assert(is_memtotal_line(all[i as int]));
                assert(first_memtotal(all) == Some(u64_of(ws@[1]@)));
                let parsed = parse_u64(ws[1].as_str());
                assert(parsed == u64_of(ws@[1]@));
                return match parsed {
                    Some(v) => Ok(v),
                    None => Err(MemInfoError::BadValue(ws[1].clone())),
                };
            }
        }
        i = i + 1;
    }
    assert(all.subrange(i as int, all.len() as int).len() == 0);
    Err(MemInfoError::NotFound)
}

/// The value that the command-line word `w` gives to the flag `flag`: the
/// bare flag and `=1`, `=yes`, `=true`, `=on` mean true; `=0`, `=no`,
/// `=false`, `=off` mean false; anything else says nothing.
pub open spec fn flag_setting(w: Seq<char>, flag: Seq<char>) -> Option<bool> {
    if flag.len() <= w.len() && w.subrange(0, flag.len() as int) == flag {
        let rest = w.subrange(flag.len() as int, w.len() as int);
        if rest.len() == 0 || rest == "=1"@ || rest == "=yes"@ || rest == "=true"@
            || rest == "=on"@ {
            Some(true)
        } else if rest == "=0"@ || rest == "=no"@ || rest == "=false"@ || rest == "=off"@ {
            Some(false)
        } else {
            None
        }
    } else {
        None
    }
}

/// The setting of `flag` by the last word of `ws` that sets it.
pub open spec fn last_flag_setting(ws: Seq<Seq<char>>, flag: Seq<char>) -> Option<bool>
    decreases ws.len(),
{
    if ws.len() == 0 {
        None
    } else {
        match flag_setting(ws.last(), flag) {
            Some(b) => Some(b),
            None => last_flag_setting(ws.drop_last(), flag),
        }
    }
}

fn word_flag_setting(w: &str, flag: &str) -> (r: Option<bool>)
    ensures
        r == flag_setting(w@, flag@),
{
    if !has_prefix(w, flag) {
        return None;
    }
    let rest = w.substring_char(flag.unicode_len(), w.unicode_len());
    proof {
        reveal_strlit("=1");
        reveal_strlit("=yes");
        reveal_strlit("=true");
        reveal_strlit("=on");
        reveal_strlit("=0");
        reveal_strlit("=no");
        reveal_strlit("=false");
        reveal_strlit("=off");
    }
    if rest.unicode_len() == 0 || same_text(rest, "=1") || same_text(rest, "=yes") || same_text(
        rest,
        "=true",
    ) || same_text(rest, "=on") {
        Some(true)
    } else if same_text(rest, "=0") || same_text(rest, "=no") || same_text(rest, "=false")
        || same_text(rest, "=off") {
        Some(false)
    } else {
        None
    }
}

/// The setting of the boolean flag `word` on the kernel command line
/// `cmdline`: the last whitespace-separated word that sets it wins.
pub fn kernel_has_option(cmdline: &str, word: &str) -> (r: Option<bool>)
    ensures
        r == last_flag_setting(words(cmdline@), word@),
{
    let ws = split_words(cmdline);
    let ghost all = words(cmdline@);
    let mut i: usize = ws.len();
    assert(all.subrange(0, all.len() as int) == all);
    while i > 0
        invariant
            all == words(cmdline@),
            ws@.len() == all.len(),
            forall|k: int| 0 <= k < ws@.len() ==> #[trigger] ws@[k]@ == all[k],
            i <= ws@.len(),
            last_flag_setting(all, word@) == last_flag_setting(all.subrange(0, i as int), word@),
        decreases i,
    {
        let ghost pre = all.subrange(0, i as int);
        assert(pre.drop_last() == all.subrange(0, i - 1));
        assert(pre.last() == all[i - 1]);
        let s = word_flag_setting(ws[i - 1].as_str(), word);
        assert(ws@[i - 1]@ == all[i - 1]);
        assert(s == flag_setting(pre.last(), word@));
        if s.is_some() {
            assert(last_flag_setting(pre, word@) == s);
            return s;
        }
        i = i - 1;
    }
    None
}

/// The `systemd.zram` flag of the kernel command line: `Some(false)`
/// disables every device, `Some(true)` asks for `zram0` even without
/// configuration.
pub fn kernel_zram_option(cmdline: &str) -> (r: Option<bool>)
    ensures
        r == last_flag_setting(words(cmdline@), "systemd.zram"@),
{
    kernel_has_option(cmdline, "systemd.zram")
}

/// Total memory in MB, from kB, rounded down.
pub fn memtotal_mb(total_kb: u64) -> (r: u64)
    ensures
        r == total_kb / 1024,
{
    total_kb / 1024
}

} // verus!
