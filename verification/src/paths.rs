//! Path handling over plain character sequences: the filename component of
//! a descriptor value, relativization for graph reporting, and the fixed
//! bootstrap directories.

use vstd::prelude::*;
use crate::text::{chars_of, slice_range, vec_eq_str};
use crate::text::skip_n;

verus! {

/// `s` without its trailing `/` separators and trailing lone `.`
/// segments, removed right to left: `foo//./.` becomes `foo`.  A final
/// `..` segment is kept (a parent reference is not a filename).
pub open spec fn strip_trailing_dots(s: Seq<char>) -> Seq<char>
    decreases s.len(),
{
    if s.len() > 0 && (s.last() == '/' || (s.last() == '.' && (s.len() == 1 || s[s.len() - 2]
        == '/'))) {
        strip_trailing_dots(s.drop_last())
    } else {
        s
    }
}

/// The characters of `t` after its last `/`, or all of `t` if it has none.
pub open spec fn after_last_slash(t: Seq<char>) -> Seq<char>
    decreases t.len(),
{
    if t.len() == 0 {
        t
    } else if t.last() == '/' {
        Seq::empty()
    } else {
        after_last_slash(t.drop_last()).push(t.last())
    }
}

/// The filename component of a path: the segment after the last `/`, with
/// trailing `/` separators and lone `.` segments ignored.  An empty path,
/// a path of slashes and dot segments alone, and a path whose final
/// segment is `..` have none.
pub open spec fn file_name_of(s: Seq<char>) -> Option<Seq<char>> {
    let t = strip_trailing_dots(s);
    if t.len() == 0 {
        Option::None
    } else {
        let n = after_last_slash(t);
        if n == ".."@ {
            Option::None
        } else {
            Option::Some(n)
        }
    }
}

/// `after_last_slash` keeps exactly the suffix after the last slash.
proof fn lemma_after_last(t: Seq<char>, p: int)
    requires
        0 <= p <= t.len(),
        forall|j: int| p <= j < t.len() ==> t[j] != '/',
        p > 0 ==> t[p - 1] == '/',
    ensures
        after_last_slash(t) == t.skip(p),
    decreases t.len(),
{
    if t.len() == 0 {
        assert(t.skip(p) =~= t);
    } else if t.last() == '/' {
        assert(p == t.len());
        assert(t.skip(p) =~= Seq::<char>::empty());
    } else {
        lemma_after_last(t.drop_last(), p);
        assert(t.drop_last().skip(p).push(t.last()) =~= t.skip(p));
    }
}

/// The filename component of `v`, as `file_name_of` defines it.
pub fn vec_file_name(v: &Vec<char>) -> (r: Option<Vec<char>>)
    ensures
        match r {
            Option::Some(n) => file_name_of(v@) == Option::Some(n@),
            Option::None => file_name_of(v@) == Option::<Seq<char>>::None,
        },
{
    let len = v.len();
    let mut end: usize = len;
    proof {
        assert(v@.take(len as int) =~= v@);
    }
    while end > 0 && (v[end - 1] == '/' || (v[end - 1] == '.' && (end == 1 || v[end - 2] == '/')))
        invariant
            end <= len,
            len == v@.len(),
            strip_trailing_dots(v@) == strip_trailing_dots(v@.take(end as int)),
        decreases end,
    {
        proof {
            assert(v@.take(end as int).last() == v@[end as int - 1]);
            assert(end >= 2 ==> v@.take(end as int)[end as int - 2] == v@[end as int - 2]);
            assert(v@.take(end as int).drop_last() =~= v@.take(end as int - 1));
        }
        end = end - 1;
    }
    let ghost t = v@.take(end as int);
    proof {
        if end > 0 {
            assert(t.last() == v@[end as int - 1]);
            assert(end >= 2 ==> t[end as int - 2] == v@[end as int - 2]);
        }
        assert(strip_trailing_dots(v@) == t);
    }
    if end == 0 {
        proof {
            assert(v@.take(0) =~= Seq::<char>::empty());
        }
        return Option::None;
    }
    let mut start: usize = end;
    while start > 0 && v[start - 1] != '/'
        invariant
            start <= end,
            end <= len,
            len == v@.len(),
            forall|j: int| start <= j < end ==> v@[j] != '/',
        decreases start,
    {
        start = start - 1;
    }
    proof {
        assert(forall|j: int| start <= j < end ==> t[j] == v@[j]);
        lemma_after_last(t, start as int);
        assert(t.skip(start as int) =~= v@.subrange(start as int, end as int));
    }
    let name = slice_range(v, start, end);
    if vec_eq_str(&name, "..") {
        Option::None
    } else {
        Option::Some(name)
    }
}

/// The name in `v` with its first `count` characters dropped, as `skip_n`
/// defines it; shorter names give the empty result.
pub fn vec_skip_prefix(v: &Vec<char>, count: usize) -> (r: Vec<char>)
    ensures
        r@ == skip_n(v@, count as nat),
{
    if count <= v.len() {
        slice_range(v, count, v.len())
    } else {
        let r: Vec<char> = Vec::new();
        r
    }
}

/// `p` relative to the root `base`: the remainder after `base` and one
/// separating `/`, the empty path if the two are equal, and nothing when
/// `p` does not lie under `base`.
pub open spec fn relative_to(p: Seq<char>, base: Seq<char>) -> Option<Seq<char>> {
    if p == base {
        Option::Some(Seq::empty())
    } else if p.len() > base.len() && p.take(base.len() as int) == base && p[base.len() as int]
        == '/' {
        Option::Some(p.skip(base.len() as int + 1))
    } else {
        Option::None
    }
}

/// `relative_to`, on vectors of characters.
pub fn vec_relative_to(p: &Vec<char>, base: &Vec<char>) -> (r: Option<Vec<char>>)
    ensures
        match r {
            Option::Some(rel) => relative_to(p@, base@) == Option::Some(rel@),
            Option::None => relative_to(p@, base@) == Option::<Seq<char>>::None,
        },
{
    let bl = base.len();
    if p.len() < bl {
        proof {
            assert(p@ != base@);
        }
        return Option::None;
    }
    let mut i: usize = 0;
    while i < bl
        invariant
            i <= bl,
            bl == base@.len(),
            bl <= p@.len(),
            forall|j: int| 0 <= j < i ==> p@[j] == base@[j],
        decreases bl - i,
    {
        if p[i] != base[i] {
            proof {
                assert(p@ != base@);
                assert(p@.len() > base@.len() ==> p@.take(bl as int)[i as int] != base@[i as int]);
            }
            return Option::None;
        }
        i = i + 1;
    }
    if p.len() == bl {
        proof {
            assert(p@ =~= base@);
        }
        let r: Vec<char> = Vec::new();
        return Option::Some(r);
    }
    proof {
        assert(p@.take(bl as int) =~= base@);
        assert(p@ != base@);
    }
    if p[bl] == '/' {
        Option::Some(slice_range(p, bl + 1, p.len()))
    } else {
        Option::None
    }
}

/// The position of the first child named `Make` among a directory's
/// children, or the child count when none is: the marker subdirectory
/// that makes the directory a build unit.  A walk inspects exactly the
/// children before it — first marker wins, later siblings are not
/// inspected.
pub open spec fn first_marker(names: Seq<Seq<char>>) -> nat
    decreases names.len(),
{
    if names.len() == 0 {
        0
    } else if names[0] == "Make"@ {
        0
    } else {
        1 + first_marker(names.drop_first())
    }
}

/// Index of the first child named `Make`, or the child count when no
/// marker is present, as `first_marker` defines it.
pub fn find_marker(names: &Vec<String>) -> (r: usize)
    ensures
        r == first_marker(names.deep_view()),
{
    let ghost dv = names.deep_view();
    let n = names.len();
    let mut i: usize = 0;
    proof {
        assert(dv.skip(0) =~= dv);
    }
    while i < n
        invariant
            i <= n,
            n == names@.len(),
            dv == names.deep_view(),
            first_marker(dv) == i + first_marker(dv.skip(i as int)),
        decreases n - i,
    {
        proof {
            assert(dv[i as int] == names@[i as int]@);
            assert(dv.skip(i as int)[0] == dv[i as int]);
            assert(dv.skip(i as int).drop_first() =~= dv.skip(i as int + 1));
        }
        let cs = chars_of(names[i].as_str());
        if vec_eq_str(&cs, "Make") {
            return i;
        }
        i = i + 1;
    }
    proof {
        assert(dv.skip(n as int) =~= Seq::<Seq<char>>::empty());
    }
    n
}

/// The directories of the one-time bootstrap sequence, in build order: the
/// build-tool sources under the project root, the message-passing layer
/// under the source root, and the platform layer for the given operating
/// system type, `POSIX` when none is configured.
pub fn bootstrap_dirs(project_dir: &str, src_root: &str, os_type: &Option<String>) -> (r: Vec<
    String,
>)
    ensures
        r@.len() == 3,
        r@[0]@ == project_dir@ + "/wmake/src"@,
        r@[1]@ == src_root@ + "/Pstream"@,
        r@[2]@ == src_root@ + "/OSspecific/"@ + (match *os_type {
            Option::Some(t) => t@,
            Option::None => "POSIX"@,
        }),
{
    let first = String::from_str(project_dir).concat("/wmake/src");
    let second = String::from_str(src_root).concat("/Pstream");
    let mut third = String::from_str(src_root).concat("/OSspecific/");
    let third = match os_type {
        Option::Some(t) => third.concat(t.as_str()),
        Option::None => third.concat("POSIX"),
    };
    let mut r: Vec<String> = Vec::new();
    r.push(first);
    r.push(second);
    r.push(third);
    r
}

} // verus!
