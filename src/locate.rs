//! The order in which configuration fragments are applied.

use vstd::prelude::*;

verus! {

/// The main configuration file that is used: that of the last base
/// directory (the one of highest priority) in which it exists.
pub open spec fn chosen_main_file(candidates: Seq<(Seq<char>, bool)>) -> Option<Seq<char>>
    decreases candidates.len(),
{
    if candidates.len() == 0 {
        None
    } else if candidates.last().1 {
        Some(candidates.last().0)
    } else {
        chosen_main_file(candidates.drop_last())
    }
}

/// The fragments in the order in which they are applied: the main file
/// first (drop-ins always override it), then the drop-ins in the order the
/// scan of the drop-in directories gave them.
///
/// `candidates` holds the main file's path in each base directory, from the
/// lowest priority to the highest, with whether it exists.
pub fn order_fragments(candidates: &Vec<(String, bool)>, dropins: Vec<String>) -> (r: Vec<String>)
    ensures
        r@.map_values(|p: String| p@) == match chosen_main_file(
            candidates@.map_values(|c: (String, bool)| (c.0@, c.1)),
        ) {
            Some(m) => seq![m] + dropins@.map_values(|p: String| p@),
            None => dropins@.map_values(|p: String| p@),
        },
{
    let ghost cs = candidates@.map_values(|c: (String, bool)| (c.0@, c.1));
    let mut i: usize = candidates.len();
    assert(cs.subrange(0, cs.len() as int) == cs);
    while i > 0
        invariant
            cs == candidates@.map_values(|c: (String, bool)| (c.0@, c.1)),
            i <= candidates@.len(),
            chosen_main_file(cs) == chosen_main_file(cs.subrange(0, i as int)),
        decreases i,
    {
        let ghost pre = cs.subrange(0, i as int);
        assert(pre.drop_last() == cs.subrange(0, i - 1));
        assert(pre.last() == cs[i - 1]);
        if candidates[i - 1].1 {
            let mut out: Vec<String> = Vec::new();
            out.push(candidates[i - 1].0.clone());
            let mut rest = dropins;
            out.append(&mut rest);
            assert(out@.map_values(|p: String| p@) =~= seq![cs[i - 1].0] + dropins@.map_values(
                |p: String| p@,
            ));
            return out;
        }
        i = i - 1;
    }
    dropins
}

} // verus!
