//! Absolute, normalised paths.

use vstd::prelude::*;
use crate::error::LineError;
use crate::text::{pieces, same_text, split_pieces};

verus! {

/// A path component that stands for a directory of its own (not empty, not `.`).
pub open spec fn is_kept(p: Seq<char>) -> bool {
    p.len() > 0 && p != "."@
}

/// The components of a path that are kept, in order.
pub open spec fn kept(ps: Seq<Seq<char>>) -> Seq<Seq<char>>
    decreases ps.len(),
{
    if ps.len() == 0 {
        seq![]
    } else if is_kept(ps.last()) {
        kept(ps.drop_last()).push(ps.last())
    } else {
        kept(ps.drop_last())
    }
}

/// Each component preceded by a `/`.
pub open spec fn slash_join(cs: Seq<Seq<char>>) -> Seq<char>
    decreases cs.len(),
{
    if cs.len() == 0 {
        seq![]
    } else {
        slash_join(cs.drop_last()) + seq!['/'] + cs.last()
    }
}

/// The normal form of an absolute path: `/`, or its components joined by `/`,
/// without empty or `.` components and without a trailing `/`.
pub open spec fn normal_form(s: Seq<char>) -> Seq<char> {
    let cs = kept(pieces(s, '/'));
    if cs.len() == 0 {
        seq!['/']
    } else {
        slash_join(cs)
    }
}

pub open spec fn has_parent_component(s: Seq<char>) -> bool {
    exists|k: int| 0 <= k < pieces(s, '/').len() && #[trigger] pieces(s, '/')[k] == ".."@
}

pub open spec fn is_absolute(s: Seq<char>) -> bool {
    s.len() > 0 && s[0] == '/'
}

/// Checks that `val`, the value of `key`, is an absolute path without `..`
/// components, and returns its normal form.
pub fn verify_mount_point(key: &str, val: &str) -> (r: Result<String, LineError>)
    ensures
        !is_absolute(val@) ==> r == Err::<String, LineError>(LineError::NotAbsolute),
        is_absolute(val@) && has_parent_component(val@) ==> r == Err::<String, LineError>(
            LineError::NotNormalized,
        ),
        is_absolute(val@) && !has_parent_component(val@) ==> (r matches Ok(p) && p@ == normal_form(
            val@,
        )),
{
    if val.unicode_len() == 0 || val.get_char(0) != '/' {
        return Err(LineError::NotAbsolute);
    }
    let ps = split_pieces(val, '/');
    let ghost all = pieces(val@, '/');
    let mut out = String::new();
    let mut count: usize = 0;
    let mut i: usize = 0;
    proof {
        reveal_strlit(".");
        reveal_strlit("..");
        reveal_strlit("/");
    }
    while i < ps.len()
        invariant
            all == pieces(val@, '/'),
            is_absolute(val@),
            ps@.len() == all.len(),
            forall|k: int| 0 <= k < ps@.len() ==> #[trigger] ps@[k]@ == all[k],
            i <= ps@.len(),
            forall|k: int| 0 <= k < i ==> #[trigger] all[k] != ".."@,
            out@ == slash_join(kept(all.subrange(0, i as int))),
            count == kept(all.subrange(0, i as int)).len(),
            count <= i,
            ".."@ == seq!['.', '.'],
            "."@ == seq!['.'],
            "/"@ == seq!['/'],
        decreases ps@.len() - i,
    {
        let p = ps[i].as_str();
        let ghost pre = all.subrange(0, i as int);
        let ghost next = all.subrange(0, i + 1);
        assert(next.drop_last() == pre);
        assert(next.last() == all[i as int]);
        if same_text(p, "..") {
            assert(pieces(val@, '/')[i as int] == ".."@);
            return Err(LineError::NotNormalized);
        }
        if p.unicode_len() > 0 && !same_text(p, ".") {
            assert(is_kept(all[i as int]));
            assert(kept(next) == kept(pre).push(all[i as int]));
            assert(kept(pre).push(all[i as int]).drop_last() == kept(pre));
            out.append("/");
            out.append(p);
            count = count + 1;
        } else {
            assert(!is_kept(all[i as int]));
        }
        i = i + 1;
    }
    assert(all.subrange(0, all.len() as int) == all);
    if count == 0 {
        return Ok("/".to_string());
    }
    Ok(out)
}

pub open spec fn free_of(c: Seq<char>, sep: char) -> bool {
    forall|k: int| 0 <= k < c.len() ==> c[k] != sep
}

/// Appending characters other than the separator extends the last piece.
proof fn lemma_pieces_extend(y: Seq<char>, c: Seq<char>, sep: char)
    requires
        free_of(c, sep),
    ensures
        pieces(y + c, sep) == pieces(y, sep).update(
            pieces(y, sep).len() - 1,
            pieces(y, sep).last() + c,
        ),
    decreases c.len(),
{
    crate::text::lemma_pieces_nonempty(y, sep);
    if c.len() == 0 {
        assert(y + c == y);
        assert(pieces(y, sep).last() + c == pieces(y, sep).last());
        assert(pieces(y, sep).update(pieces(y, sep).len() - 1, pieces(y, sep).last()) =~= pieces(
            y,
            sep,
        ));
    } else {
        let c0 = c.drop_last();
        assert(free_of(c0, sep));
        lemma_pieces_extend(y, c0, sep);
        assert((y + c).drop_last() == y + c0);
        assert((y + c).last() == c.last());
        assert(pieces(y, sep).last() + c0 + seq![c.last()] == pieces(y, sep).last() + c);
        assert((pieces(y, sep).last() + c0).push(c.last()) == pieces(y, sep).last() + c);
        assert(pieces(y + c, sep) =~= pieces(y, sep).update(
            pieces(y, sep).len() - 1,
            pieces(y, sep).last() + c,
        ));
    }
}

/// The pieces of joined components are an empty piece, then the components.
proof fn lemma_pieces_of_join(cs: Seq<Seq<char>>)
    requires
        forall|k: int| 0 <= k < cs.len() ==> free_of(#[trigger] cs[k], '/'),
    ensures
        pieces(slash_join(cs), '/') == seq![Seq::<char>::empty()] + cs,
    decreases cs.len(),
{
    if cs.len() == 0 {
        assert(pieces(seq![], '/') == seq![Seq::<char>::empty()]);
        assert(seq![Seq::<char>::empty()] + cs =~= seq![Seq::<char>::empty()]);
    } else {
        let pre = cs.drop_last();
        assert forall|k: int| 0 <= k < pre.len() implies free_of(#[trigger] pre[k], '/') by {
            assert(pre[k] == cs[k]);
        }
        lemma_pieces_of_join(pre);
        let a = slash_join(pre);
        let y = a + seq!['/'];
        assert(y.drop_last() == a);
        assert(pieces(y, '/') == pieces(a, '/').push(seq![]));
        assert(free_of(cs.last(), '/'));
        lemma_pieces_extend(y, cs.last(), '/');
        assert(Seq::<char>::empty() + cs.last() == cs.last());
        assert(slash_join(cs) == y + cs.last());
        assert(pieces(slash_join(cs), '/') =~= seq![Seq::<char>::empty()] + cs);
    }
}

/// No piece holds the separator.
proof fn lemma_pieces_free(s: Seq<char>, sep: char)
    ensures
        forall|k: int| 0 <= k < pieces(s, sep).len() ==> free_of(#[trigger] pieces(s, sep)[k], sep),
    decreases s.len(),
{
    if s.len() > 0 {
        lemma_pieces_free(s.drop_last(), sep);
        crate::text::lemma_pieces_nonempty(s.drop_last(), sep);
        let l = pieces(s.drop_last(), sep);
        if s.last() != sep {
            assert forall|k: int| 0 <= k < pieces(s, sep).len() implies free_of(
                #[trigger] pieces(s, sep)[k],
                sep,
            ) by {
                if k == l.len() - 1 {
                    let w = l.last().push(s.last());
                    assert(free_of(l[k], sep));
                    assert forall|i: int| 0 <= i < w.len() implies w[i] != sep by {
                        if i < l.last().len() {
                            assert(w[i] == l.last()[i]);
                        }
                    }
                }
            }
        } else {
            assert forall|k: int| 0 <= k < pieces(s, sep).len() implies free_of(
                #[trigger] pieces(s, sep)[k],
                sep,
            ) by {
                if k < l.len() {
                    assert(pieces(s, sep)[k] == l[k]);
                }
            }
        }
    }
}

/// Every kept component is one of the pieces, and is kept.
proof fn lemma_kept_from(ps: Seq<Seq<char>>)
    ensures
        forall|k: int| 0 <= k < kept(ps).len() ==> is_kept(#[trigger] kept(ps)[k]) && exists|j: int|
            0 <= j < ps.len() && ps[j] == kept(ps)[k],
    decreases ps.len(),
{
    if ps.len() > 0 {
        let pre = ps.drop_last();
        lemma_kept_from(pre);
        assert forall|k: int| 0 <= k < kept(ps).len() implies is_kept(#[trigger] kept(ps)[k])
            && exists|j: int| 0 <= j < ps.len() && ps[j] == kept(ps)[k] by {
            if k < kept(pre).len() {
                assert(kept(ps)[k] == kept(pre)[k]);
                let j = choose|j: int| 0 <= j < pre.len() && pre[j] == kept(pre)[k];
                assert(ps[j] == pre[j]);
            } else {
                assert(ps[ps.len() - 1] == ps.last());
            }
        }
    }
}

/// Keeping the components of an empty piece followed by kept components
/// gives those components.
proof fn lemma_kept_of_join(cs: Seq<Seq<char>>)
    requires
        forall|k: int| 0 <= k < cs.len() ==> is_kept(#[trigger] cs[k]),
    ensures
        kept(seq![Seq::<char>::empty()] + cs) == cs,
    decreases cs.len(),
{
    let e = seq![Seq::<char>::empty()];
    if cs.len() == 0 {
        assert(e + cs =~= e);
        assert(e.drop_last() =~= seq![]);
        assert(kept(e) == kept(e.drop_last()));
    } else {
        let pre = cs.drop_last();
        assert forall|k: int| 0 <= k < pre.len() implies is_kept(#[trigger] pre[k]) by {
            assert(pre[k] == cs[k]);
        }
        lemma_kept_of_join(pre);
        assert((e + cs).drop_last() == e + pre);
        assert((e + cs).last() == cs.last());
        assert(is_kept(cs[cs.len() - 1]));
        assert(kept(e + cs) == kept(e + pre).push(cs.last()));
        assert(pre.push(cs.last()) == cs);
    }
}

/// Checking a path that is already in normal form accepts it and gives it
/// back unchanged: the normal form of an absolute path without `..`
/// components is itself absolute, free of `..` components, and its own
/// normal form.
pub proof fn lemma_normal_form_round_trip(s: Seq<char>)
    requires
        is_absolute(s),
        !has_parent_component(s),
    ensures
        is_absolute(normal_form(s)),
        !has_parent_component(normal_form(s)),
        normal_form(normal_form(s)) == normal_form(s),
{
    let ps = pieces(s, '/');
    let cs = kept(ps);
    lemma_kept_from(ps);
    lemma_pieces_free(s, '/');
    reveal_strlit(".");
    reveal_strlit("..");
    assert forall|k: int| 0 <= k < cs.len() implies free_of(#[trigger] cs[k], '/') && is_kept(cs[k])
        && cs[k] != ".."@ by {
        let j = choose|j: int| 0 <= j < ps.len() && ps[j] == cs[k];
        assert(free_of(ps[j], '/'));
    }
    if cs.len() == 0 {
        let n = seq!['/'];
        let z = Seq::<char>::empty();
        assert(n.drop_last() =~= z);
        assert(n.last() == '/');
        assert(pieces(z, '/') == seq![z]);
        assert(pieces(n, '/') == seq![z].push(z));
        assert(seq![z].push(z) =~= seq![z, z]);
        let np = pieces(n, '/');
        assert(np.drop_last() =~= seq![z]);
        assert(np.drop_last().drop_last() =~= Seq::<Seq<char>>::empty());
        assert(kept(np.drop_last().drop_last()) == Seq::<Seq<char>>::empty());
        assert(!is_kept(np.drop_last().last()));
        assert(kept(np.drop_last()) == Seq::<Seq<char>>::empty());
        assert(!is_kept(np.last()));
        assert(kept(np) == Seq::<Seq<char>>::empty());
        assert(!has_parent_component(n)) by {
            assert forall|k: int| 0 <= k < np.len() implies #[trigger] np[k] != ".."@ by {
                assert(np[k].len() == 0);
            }
        }
    } else {
        lemma_pieces_of_join(cs);
        lemma_kept_of_join(cs);
        let n = slash_join(cs);
        let np = pieces(n, '/');
        assert(np == seq![Seq::<char>::empty()] + cs);
        assert(!has_parent_component(n)) by {
            assert forall|k: int| 0 <= k < np.len() implies #[trigger] np[k] != ".."@ by {
                if k == 0 {
                    assert(np[0].len() == 0);
                } else {
                    assert(np[k] == cs[k - 1]);
                }
            }
        }
        lemma_slash_join_absolute(cs);
    }
}

proof fn lemma_slash_join_absolute(cs: Seq<Seq<char>>)
    requires
        cs.len() > 0,
    ensures
        is_absolute(slash_join(cs)),
    decreases cs.len(),
{
    if cs.len() > 1 {
        lemma_slash_join_absolute(cs.drop_last());
        assert((slash_join(cs.drop_last()) + seq!['/'] + cs.last())[0] == slash_join(cs.drop_last())[0]);
    } else {
        assert(cs.drop_last() =~= seq![]);
        assert((slash_join(cs.drop_last()) + seq!['/'] + cs.last())[0] == '/');
    }
}

} // verus!
