//! The typo-tolerant target resolver.  A requested target name is held
//! against every discovered unit's canonical name by edit distance; the
//! first name at minimum distance decides.  An exact match resolves to
//! that unit's directory, anything else fails with a "did you mean"
//! suggestion naming the nearest candidate.

use vstd::prelude::*;
use crate::text::chars_of;

verus! {

/// The least of three counts.
pub open spec fn least3(x: nat, y: nat, z: nat) -> nat {
    if x <= y && x <= z {
        x
    } else if y <= z {
        y
    } else {
        z
    }
}

/// The edit distance between `a` and `b`: the least number of single-
/// character insertions, deletions and substitutions that turns one into
/// the other.
pub open spec fn edit_distance(a: Seq<char>, b: Seq<char>) -> nat
    decreases a.len() + b.len(),
{
    if a.len() == 0 {
        b.len()
    } else if b.len() == 0 {
        a.len()
    } else {
        least3(
            edit_distance(a.drop_last(), b) + 1,
            edit_distance(a, b.drop_last()) + 1,
            edit_distance(a.drop_last(), b.drop_last()) + (if a.last() == b.last() {
                0 as nat
            } else {
                1 as nat
            }),
        )
    }
}

/// The edit distance never exceeds the longer of the two lengths.
pub proof fn lemma_edit_distance_le_max(a: Seq<char>, b: Seq<char>)
    ensures
        edit_distance(a, b) <= (if a.len() >= b.len() {
            a.len()
        } else {
            b.len()
        }),
    decreases a.len() + b.len(),
{
    if a.len() != 0 && b.len() != 0 {
        lemma_edit_distance_le_max(a.drop_last(), b.drop_last());
    }
}

/// Zero edit distance characterizes equality.
pub proof fn lemma_edit_distance_zero(a: Seq<char>, b: Seq<char>)
    ensures
        (edit_distance(a, b) == 0) <==> (a == b),
    decreases a.len() + b.len(),
{
    if a.len() == 0 || b.len() == 0 {
        if a.len() == 0 && b.len() == 0 {
            assert(a =~= b);
        }
    } else {
        lemma_edit_distance_zero(a.drop_last(), b.drop_last());
        if edit_distance(a, b) == 0 {
            assert(a.drop_last() == b.drop_last() && a.last() == b.last());
            assert(a.len() == b.len());
            assert forall|x: int| 0 <= x < a.len() implies a[x] == b[x] by {
                if x < a.len() - 1 {
                    assert(a[x] == a.drop_last()[x]);
                    assert(b[x] == b.drop_last()[x]);
                }
            }
            assert(a =~= b);
        }
        if a == b {
            assert(a.drop_last() =~= b.drop_last());
            assert(edit_distance(a.drop_last(), b.drop_last()) == 0);
        }
    }
}

/// The edit distance between two names, computed row by row over prefix
/// pairs.
pub fn levenshtein(a: &Vec<char>, b: &Vec<char>) -> (r: usize)
    ensures
        r == edit_distance(a@, b@),
{
    let n = a.len();
    let m = b.len();
    let mut prev: Vec<usize> = Vec::new();
    let mut j: usize = 0;
    while j < m
        invariant
            j <= m,
            m == b@.len(),
            prev@.len() == j,
            forall|t: int| 0 <= t < j ==> prev@[t] == edit_distance(a@.take(0), b@.take(t)),
        decreases m - j,
    {
        proof {
            assert(a@.take(0) =~= Seq::<char>::empty());
            assert(b@.take(j as int).len() == j);
        }
        prev.push(j);
        j = j + 1;
    }
    proof {
        assert(a@.take(0) =~= Seq::<char>::empty());
        assert(b@.take(m as int).len() == m);
    }
    prev.push(m);
    let mut idx: usize = 0;
    while idx < n
        invariant
            idx <= n,
            n == a@.len(),
            m == b@.len(),
            prev@.len() == m + 1,
            forall|t: int| 0 <= t <= m ==> prev@[t] == edit_distance(a@.take(idx as int), b@.take(t)),
        decreases n - idx,
    {
        let i = idx + 1;
        let mut cur: Vec<usize> = Vec::new();
        proof {
            assert(b@.take(0) =~= Seq::<char>::empty());
            assert(a@.take(i as int).len() == i);
        }
        cur.push(i);
        let mut jdx: usize = 0;
        while jdx < m
            invariant
                jdx <= m,
                1 <= i <= n,
                idx == i - 1,
                n == a@.len(),
                m == b@.len(),
                prev@.len() == m + 1,
                forall|t: int|
                    0 <= t <= m ==> prev@[t] == edit_distance(a@.take(i as int - 1), b@.take(t)),
                cur@.len() == jdx + 1,
                forall|t: int|
                    0 <= t <= jdx ==> cur@[t] == edit_distance(a@.take(i as int), b@.take(t)),
            decreases m - jdx,
        {
            let jj = jdx + 1;
            let del = prev[jj];
            let ins = cur[jj - 1];
            let diag = prev[jj - 1];
            let low = if del < ins {
                del
            } else {
                ins
            };
            proof {
                lemma_edit_distance_le_max(a@.take(i as int - 1), b@.take(jj as int - 1));
                assert(a@.take(i as int - 1).len() == i - 1);
                assert(b@.take(jj as int - 1).len() == jj - 1);
            }
            let d: usize = if a[i - 1] == b[jj - 1] {
                if low < diag {
                    low + 1
                } else {
                    diag
                }
            } else {
                (if low < diag {
                    low
                } else {
                    diag
                }) + 1
            };
            proof {
                let ai = a@.take(i as int);
                let bj = b@.take(jj as int);
                assert(ai.drop_last() =~= a@.take(i as int - 1));
                assert(bj.drop_last() =~= b@.take(jj as int - 1));
                assert(ai.last() == a@[i as int - 1]);
                assert(bj.last() == b@[jj as int - 1]);
                assert(edit_distance(ai, bj) == least3(
                    edit_distance(ai.drop_last(), bj) + 1,
                    edit_distance(ai, bj.drop_last()) + 1,
                    edit_distance(ai.drop_last(), bj.drop_last()) + (if ai.last() == bj.last() {
                        0 as nat
                    } else {
                        1 as nat
                    }),
                ));
                assert(d == edit_distance(ai, bj));
            }
            cur.push(d);
            jdx = jj;
        }
        prev = cur;
        idx = i;
    }
    proof {
        assert(a@.take(n as int) =~= a@);
        assert(b@.take(m as int) =~= b@);
    }
    prev[m]
}

/// The "did you mean" message for a target that resolved to no unit,
/// naming the nearest candidate.
pub open spec fn suggestion_message(target: Seq<char>, name: Seq<char>) -> Seq<char> {
    "Error app/Path \""@ + target + "\" is not found. Did you mean \""@ + name + "\"?"@
}

/// `i` points at the first candidate whose name lies at minimum edit
/// distance from `target`.
pub open spec fn first_nearest(cands: Seq<(String, String)>, target: Seq<char>, i: int) -> bool {
    &&& 0 <= i < cands.len()
    &&& forall|j: int|
        0 <= j < cands.len() ==> edit_distance(cands[i].0@, target) <= edit_distance(
            (#[trigger] cands[j]).0@,
            target,
        )
    &&& forall|j: int|
        0 <= j < i ==> edit_distance((#[trigger] cands[j]).0@, target) > edit_distance(
            cands[i].0@,
            target,
        )
}

/// The suggestion error for `target`, naming `name`.
fn suggestion_of(target: &str, name: &str) -> (m: String)
    ensures
        m@ == suggestion_message(target@, name@),
{
    let m = String::from_str("Error app/Path \"");
    let m = m.concat(target);
    let m = m.concat("\" is not found. Did you mean \"");
    let m = m.concat(name);
    let m = m.concat("\"?");
    proof {
        assert(m@ =~= suggestion_message(target@, name@));
    }
    m
}

/// Resolve a requested target name against the discovered units'
/// `(canonical name, directory)` pairs.  The first candidate at minimum
/// edit distance decides: at distance zero its directory is returned (an
/// exact name was given in place of a path); otherwise the resolution
/// fails with a suggestion naming that candidate, or naming nothing when
/// no unit was discovered.
pub fn check_recommend(target: &str, candidates: &Vec<(String, String)>) -> (r: Result<
    String,
    String,
>)
    ensures
        match r {
            Ok(d) => exists|i: int|
                {
                    &&& 0 <= i < candidates@.len()
                    &&& (#[trigger] candidates@[i]).0@ == target@
                    &&& candidates@[i].1@ == d@
                    &&& forall|j: int|
                        0 <= j < i ==> edit_distance((#[trigger] candidates@[j]).0@, target@) > 0
                },
            Err(m) => {
                &&& forall|i: int|
                    0 <= i < candidates@.len() ==> edit_distance(
                        (#[trigger] candidates@[i]).0@,
                        target@,
                    ) > 0
                &&& candidates@.len() == 0 ==> m@ == suggestion_message(target@, Seq::empty())
                &&& candidates@.len() > 0 ==> exists|i: int|
                    first_nearest(candidates@, target@, i) && m@ == suggestion_message(
                        target@,
                        candidates@[i].0@,
                    )
            },
        },
{
    let t = chars_of(target);
    let ncand = candidates.len();
    if ncand == 0 {
        let m = suggestion_of(target, "");
        proof {
            reveal_strlit("");
            assert(""@ =~= Seq::<char>::empty());
        }
        return Err(m);
    }
    let c0 = chars_of(candidates[0].0.as_str());
    let mut best_d: usize = levenshtein(&c0, &t);
    let mut best_i: usize = 0;
    let mut k: usize = 1;
    while k < ncand
        invariant
            1 <= k <= ncand,
            ncand == candidates@.len(),
            t@ == target@,
            best_i < k,
            best_d == edit_distance(candidates@[best_i as int].0@, target@),
            forall|j: int|
                0 <= j < k ==> best_d <= edit_distance((#[trigger] candidates@[j]).0@, target@),
            forall|j: int|
                0 <= j < best_i ==> edit_distance((#[trigger] candidates@[j]).0@, target@) > best_d,
        decreases ncand - k,
    {
        let ck = chars_of(candidates[k].0.as_str());
        let d = levenshtein(&ck, &t);
        if d < best_d {
            best_d = d;
            best_i = k;
        }
        k = k + 1;
    }
    if best_d == 0 {
        proof {
            lemma_edit_distance_zero(candidates@[best_i as int].0@, target@);
            assert(candidates@[best_i as int].0@ == target@);
        }
        Ok(candidates[best_i].1.clone())
    } else {
        proof {
            assert(first_nearest(candidates@, target@, best_i as int));
        }
        Err(suggestion_of(target, candidates[best_i].0.as_str()))
    }
}

} // verus!
