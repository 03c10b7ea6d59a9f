//! The `compression-algorithm` setting: a primary algorithm, recompression
//! stages, and a global recompression parameter string.

use vstd::prelude::*;
use crate::text::{split_words, words};

verus! {

/// The compression pipeline of a device: the first entry is the primary
/// algorithm, later entries are recompression stages; each entry holds an
/// algorithm name and its parameters.
#[derive(Debug, PartialEq, Eq, Default)]
pub struct Algorithms {
    pub compression_algorithms: Vec<(String, String)>,
    pub recompression_global: String,
}

pub struct AlgorithmsView {
    pub stages: Seq<(Seq<char>, Seq<char>)>,
    pub global: Seq<char>,
}

impl View for Algorithms {
    type V = AlgorithmsView;

    open spec fn view(&self) -> AlgorithmsView {
        AlgorithmsView {
            stages: self.compression_algorithms@.map_values(
                |e: (String, String)| (e.0@, e.1@),
            ),
            global: self.recompression_global@,
        }
    }
}

/// The index of the first `c` in `s`, or the length of `s` if there is none.
pub open spec fn find_char(s: Seq<char>, c: char) -> int
    decreases s.len(),
{
    if s.len() == 0 {
        0
    } else if s[0] == c {
        0
    } else {
        1 + find_char(s.drop_first(), c)
    }
}

pub proof fn lemma_find_char(s: Seq<char>, c: char)
    ensures
        0 <= find_char(s, c) <= s.len(),
        forall|k: int| 0 <= k < find_char(s, c) ==> s[k] != c,
        find_char(s, c) < s.len() ==> s[find_char(s, c)] == c,
    decreases s.len(),
{
    if s.len() > 0 && s[0] != c {
        lemma_find_char(s.drop_first(), c);
        assert forall|k: int| 0 <= k < find_char(s, c) implies s[k] != c by {
            if k > 0 {
                assert(s[k] == s.drop_first()[k - 1]);
            }
        }
    }
}

pub open spec fn comma_to_space(c: char) -> char {
    if c == ',' {
        ' '
    } else {
        c
    }
}

/// An algorithm token split into its name and its parameters: `name(a,b)`
/// gives `name` and `a b` (the closing parenthesis is optional); a token
/// without `(` is a name alone.
pub open spec fn algorithm_parts(w: Seq<char>) -> (Seq<char>, Seq<char>) {
    let p = find_char(w, '(');
    if p < w.len() {
        let inner = w.subrange(p + 1, w.len() as int);
        let params = if inner.len() > 0 && inner.last() == ')' {
            inner.drop_last()
        } else {
            inner
        };
        (w.subrange(0, p), params.map_values(|c: char| comma_to_space(c)))
    } else {
        (w, seq![])
    }
}

/// Splits one algorithm token into its name and its parameters.
pub fn parse_compression_algorithm_params(whole: &str) -> (r: (String, String))
    ensures
        (r.0@, r.1@) == algorithm_parts(whole@),
{
    let n = whole.unicode_len();
    let mut p: usize = 0;
    proof {
        lemma_find_char(whole@, '(');
    }
    while p < n && whole.get_char(p) != '('
        invariant
            n == whole@.len(),
            p <= find_char(whole@, '('),
            0 <= find_char(whole@, '(') <= n,
            find_char(whole@, '(') < n ==> whole@[find_char(whole@, '(')] == '(',
        decreases n - p,
    {
        p = p + 1;
    }
    if p == n {
        return (whole.to_string(), String::new());
    }
    let algo = whole.substring_char(0, p).to_string();
    let mut end: usize = n;
    if n > p + 1 && whole.get_char(n - 1) == ')' {
        end = n - 1;
    }
    let ghost inner = whole@.subrange(p + 1, n as int);
    let ghost params = whole@.subrange(p + 1, end as int);
    assert(params == if inner.len() > 0 && inner.last() == ')' {
        inner.drop_last()
    } else {
        inner
    });
    let mut out = String::new();
    let mut k: usize = p + 1;
    proof {
        reveal_strlit(" ");
    }
    while k < end
        invariant
            n == whole@.len(),
            p + 1 <= k <= end <= n,
            params == whole@.subrange(p + 1, end as int),
            out@ == whole@.subrange(p + 1, k as int).map_values(|c: char| comma_to_space(c)),
            " "@ == seq![' '],
        decreases end - k,
    {
        let c = whole.get_char(k);
        if c == ',' {
            out.append(" ");
        } else {
            out.append(whole.substring_char(k, k + 1));
        }
        assert(whole@.subrange(p + 1, k + 1) == whole@.subrange(p + 1, k as int).push(c));
        assert(out@ == whole@.subrange(p + 1, k + 1).map_values(|c: char| comma_to_space(c)));
        k = k + 1;
    }
    (algo, out)
}

/// The pipeline that a list of algorithm tokens describes: each token with
/// a name adds a stage; a token with an empty name sets the global
/// recompression parameters (the last such token wins).
pub open spec fn algorithms_of(ws: Seq<Seq<char>>) -> AlgorithmsView
    decreases ws.len(),
{
    if ws.len() == 0 {
        AlgorithmsView { stages: seq![], global: seq![] }
    } else {
        let a = algorithms_of(ws.drop_last());
        let (name, params) = algorithm_parts(ws.last());
        if name.len() == 0 {
            AlgorithmsView { stages: a.stages, global: params }
        } else {
            AlgorithmsView { stages: a.stages.push((name, params)), global: a.global }
        }
    }
}

/// The pipeline that the whitespace-separated tokens of `value` describe.
pub fn parse_algorithms(value: &str) -> (r: Algorithms)
    ensures
        r@ == algorithms_of(words(value@)),
{
    let ws = split_words(value);
    let ghost all = words(value@);
    let mut algos = Algorithms { compression_algorithms: Vec::new(), recompression_global: String::new() };
    let mut i: usize = 0;
    assert(algos@.stages =~= seq![]);
    while i < ws.len()
        invariant
            all == words(value@),
            ws@.len() == all.len(),
            forall|k: int| 0 <= k < ws@.len() ==> #[trigger] ws@[k]@ == all[k],
            i <= ws@.len(),
            algos@ == algorithms_of(all.subrange(0, i as int)),
        decreases ws@.len() - i,
    {
        let ghost pre = all.subrange(0, i as int);
        let ghost next = all.subrange(0, i + 1);
        assert(next.drop_last() == pre);
        assert(next.last() == all[i as int]);
        let (algo, params) = parse_compression_algorithm_params(ws[i].as_str());
        if algo.unicode_len() == 0 {
            algos.recompression_global = params;
        } else {
            algos.compression_algorithms.push((algo, params));
            assert(algos@.stages =~= algorithms_of(pre).stages.push(algorithm_parts(all[i as int])));
        }
        i = i + 1;
    }
    assert(all.subrange(0, all.len() as int) == all);
    algos
}

} // verus!
