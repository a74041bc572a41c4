//! The descriptor parser.  Each build unit carries two line-oriented
//! descriptor files of `KEY = value` assignments: the target descriptor,
//! whose first `LIB` or `EXE` assignment names what the unit builds, and
//! the options descriptor, whose `EXE_LIBS` and `LIB_LIBS` assignments
//! list the libraries the unit links against.

use vstd::prelude::*;
use crate::TargetKind;
use crate::paths::{file_name_of, vec_file_name, vec_skip_prefix};
use crate::text::{
    chars_of, chars_to_string, find_char, lemma_find_char, skip_n, slice_range, split_ws,
    strip_char, strip_escapes, vec_find, vec_split_ws, vec_strip_char, vec_strip_escapes,
    vec_eq_str,
};

verus! {

/// What scanning a target descriptor yields, at the specification level.
pub enum TargetSpec {
    /// The first recognized assignment names this target.
    Found(TargetKind, Seq<char>),
    /// No line carries a recognized key: the unit is skipped with a
    /// warning, not treated as an error.
    NoKey,
    /// The first recognized assignment has a value without a usable
    /// filename component, so no name can be extracted.
    BadValue,
}

/// What `get_make_target` returns.
#[derive(Debug)]
pub enum TargetResolution {
    /// The unit's kind, and its canonical name: the filename component of
    /// the value, with the conventional three-character `lib` prefix
    /// stripped for a library and kept verbatim for an executable.
    Found(TargetKind, String),
    /// No recognized assignment in the whole descriptor.
    NoRecognizedKey,
    /// A recognized assignment whose value yields no filename.
    BadValue,
}

/// What one target-descriptor line determines: nothing (keep scanning), or
/// the final outcome.  The line's spaces are removed, the text before the
/// first `=` is the key, and the text between the first and second `=` is
/// the value.
pub open spec fn line_target(line: Seq<char>) -> Option<TargetSpec> {
    let l = strip_char(line, ' ');
    let k = find_char(l, '=');
    if k == l.len() {
        Option::None
    } else {
        let key = l.take(k as int);
        let rest = l.skip(k as int + 1);
        let value = rest.take(find_char(rest, '=') as int);
        if key == "LIB"@ {
            match file_name_of(value) {
                Option::Some(n) => Option::Some(TargetSpec::Found(TargetKind::Library, skip_n(n, 3))),
                Option::None => Option::Some(TargetSpec::BadValue),
            }
        } else if key == "EXE"@ {
            match file_name_of(value) {
                Option::Some(n) => Option::Some(TargetSpec::Found(TargetKind::Executable, n)),
                Option::None => Option::Some(TargetSpec::BadValue),
            }
        } else {
            Option::None
        }
    }
}

/// The outcome of scanning a whole target descriptor, line by line; the
/// first line that determines an outcome wins.
pub open spec fn target_of(s: Seq<char>) -> TargetSpec
    decreases s.len(),
    via target_of_decreases
{
    let k = find_char(s, '\n');
    let line = s.take(k as int);
    match line_target(line) {
        Option::Some(t) => t,
        Option::None => if k == s.len() {
            TargetSpec::NoKey
        } else {
            target_of(s.skip(k as int + 1))
        },
    }
}

#[via_fn]
proof fn target_of_decreases(s: Seq<char>) {
    lemma_find_char(s, '\n');
}

/// The dependency names one options-descriptor line contributes: when the
/// key (spaces removed) is `EXE_LIBS` or `LIB_LIBS`, each whitespace-
/// separated token of the value with its first two characters (the `-l`
/// reference convention) dropped; otherwise nothing.
pub open spec fn line_deps(line: Seq<char>) -> Seq<Seq<char>> {
    let k = find_char(line, '=');
    if k == line.len() {
        Seq::empty()
    } else {
        let key = strip_char(line.take(k as int), ' ');
        if key == "EXE_LIBS"@ || key == "LIB_LIBS"@ {
            let rest = line.skip(k as int + 1);
            let value = rest.take(find_char(rest, '=') as int);
            split_ws(value).map(|i: int, t: Seq<char>| skip_n(t, 2))
        } else {
            Seq::empty()
        }
    }
}

/// All dependency names of an options descriptor, line by line, after the
/// backslash deletion rule has been applied to the whole text.
pub open spec fn deps_of(s: Seq<char>) -> Seq<Seq<char>>
    decreases s.len(),
    via deps_of_decreases
{
    let k = find_char(s, '\n');
    let line = s.take(k as int);
    line_deps(line) + (if k == s.len() {
        Seq::<Seq<char>>::empty()
    } else {
        deps_of(s.skip(k as int + 1))
    })
}

#[via_fn]
proof fn deps_of_decreases(s: Seq<char>) {
    lemma_find_char(s, '\n');
}

/// Scan one already-isolated target-descriptor line.
fn scan_target_line(line: &Vec<char>) -> (r: Option<TargetResolution>)
    ensures
        match r {
            Option::Some(TargetResolution::Found(k, n)) => line_target(line@) == Option::Some(
                TargetSpec::Found(k, n@),
            ),
            Option::Some(TargetResolution::BadValue) => line_target(line@) == Option::Some(
                TargetSpec::BadValue,
            ),
            Option::Some(TargetResolution::NoRecognizedKey) => false,
            Option::None => line_target(line@) == Option::<TargetSpec>::None,
        },
{
    let l = vec_strip_char(line, ' ');
    let k = vec_find(&l, '=');
    proof {
        lemma_find_char(l@, '=');
    }
    if k == l.len() {
        return Option::None;
    }
    let key = slice_range(&l, 0, k);
    proof {
        assert(key@ =~= l@.take(k as int));
    }
    let rest = slice_range(&l, k + 1, l.len());
    proof {
        assert(rest@ =~= l@.skip(k as int + 1));
        lemma_find_char(rest@, '=');
    }
    let e = vec_find(&rest, '=');
    let value = slice_range(&rest, 0, e);
    proof {
        assert(value@ =~= rest@.take(find_char(rest@, '=') as int));
    }
    let is_lib = vec_eq_str(&key, "LIB");
    let is_exe = vec_eq_str(&key, "EXE");
    if is_lib || is_exe {
        match vec_file_name(&value) {
            Option::Some(n) => {
                if is_lib {
                    let name = vec_skip_prefix(&n, 3);
                    Option::Some(
                        TargetResolution::Found(TargetKind::Library, chars_to_string(&name)),
                    )
                } else {
                    Option::Some(
                        TargetResolution::Found(TargetKind::Executable, chars_to_string(&n)),
                    )
                }
            },
            Option::None => Option::Some(TargetResolution::BadValue),
        }
    } else {
        Option::None
    }
}

/// The target of a unit, read from the text of its target descriptor.
/// Scans the lines for `KEY = value` assignments; the first `LIB` or `EXE`
/// key decides, `LIB` values lose their three-character filename prefix,
/// and every other line is ignored.
pub fn get_make_target(contents: &str) -> (r: TargetResolution)
    ensures
        (match r {
            TargetResolution::Found(k, n) => target_of(contents@) == TargetSpec::Found(k, n@),
            TargetResolution::NoRecognizedKey => target_of(contents@) == TargetSpec::NoKey,
            TargetResolution::BadValue => target_of(contents@) == TargetSpec::BadValue,
        }),
{
    let v = chars_of(contents);
    let mut rest = v;
    loop
        invariant
            target_of(contents@) == target_of(rest@),
        decreases rest@.len(),
    {
        let k = vec_find(&rest, '\n');
        proof {
            lemma_find_char(rest@, '\n');
        }
        let line = slice_range(&rest, 0, k);
        proof {
            assert(line@ =~= rest@.take(k as int));
        }
        match scan_target_line(&line) {
            Option::Some(t) => {
                return t;
            },
            Option::None => {},
        }
        if k == rest.len() {
            return TargetResolution::NoRecognizedKey;
        }
        let next = slice_range(&rest, k + 1, rest.len());
        proof {
            assert(next@ =~= rest@.skip(k as int + 1));
        }
        rest = next;
    }
}

/// The dependency names one line contributes, already isolated.
fn scan_deps_line(line: &Vec<char>, out: &mut Vec<String>)
    ensures
        final(out).deep_view() == old(out).deep_view() + line_deps(line@),
{
    let k = vec_find(line, '=');
    proof {
        lemma_find_char(line@, '=');
    }
    if k == line.len() {
        proof {
            assert(out.deep_view() =~~= out.deep_view() + Seq::<Seq<char>>::empty());
        }
        return ;
    }
    let head = slice_range(line, 0, k);
    proof {
        assert(head@ =~= line@.take(k as int));
    }
    let key = vec_strip_char(&head, ' ');
    if !(vec_eq_str(&key, "EXE_LIBS") || vec_eq_str(&key, "LIB_LIBS")) {
        proof {
            assert(out.deep_view() =~~= out.deep_view() + Seq::<Seq<char>>::empty());
        }
        return ;
    }
    let rest = slice_range(line, k + 1, line.len());
    proof {
        assert(rest@ =~= line@.skip(k as int + 1));
        lemma_find_char(rest@, '=');
    }
    let e = vec_find(&rest, '=');
    let value = slice_range(&rest, 0, e);
    proof {
        assert(value@ =~= rest@.take(find_char(rest@, '=') as int));
    }
    let toks = vec_split_ws(&value);
    let ghost target = line_deps(line@);
    proof {
        assert(target == split_ws(value@).map(|i: int, t: Seq<char>| skip_n(t, 2)));
    }
    let n = toks.len();
    let mut j: usize = 0;
    proof {
        assert(out.deep_view() =~~= old(out).deep_view() + target.take(0));
    }
    while j < n
        invariant
            j <= n,
            n == toks@.len(),
            toks.deep_view() == split_ws(value@),
            target == split_ws(value@).map(|i: int, t: Seq<char>| skip_n(t, 2)),
            out.deep_view() == old(out).deep_view() + target.take(j as int),
        decreases n - j,
    {
        let name = vec_skip_prefix(&toks[j], 2);
        proof {
            assert(toks.deep_view()[j as int] == toks@[j as int]@);
            assert(target[j as int] == skip_n(toks@[j as int]@, 2));
        }
        let ghost before = out.deep_view();
        out.push(chars_to_string(&name));
        proof {
            assert(out.deep_view() =~~= before + seq![name@]);
            assert(before + seq![target[j as int]] =~~= old(out).deep_view() + target.take(
                j as int + 1,
            ));
        }
        j = j + 1;
    }
    proof {
        assert(target.take(n as int) =~~= target);
    }
}

/// The library dependencies of a unit, read from the text of its options
/// descriptor.  The backslash deletion rule runs over the whole text
/// first; then every `EXE_LIBS` or `LIB_LIBS` assignment contributes its
/// whitespace-separated tokens, each with its first two characters (the
/// reference prefix) dropped.
pub fn get_dependencies(contents: &str) -> (r: Vec<String>)
    ensures
        r.deep_view() == deps_of(strip_escapes(contents@)),
{
    let v = chars_of(contents);
    let stripped = vec_strip_escapes(&v);
    let mut out: Vec<String> = Vec::new();
    let mut rest = stripped;
    proof {
        assert(out.deep_view() + deps_of(rest@) =~~= deps_of(rest@));
    }
    loop
        invariant
            deps_of(strip_escapes(contents@)) == out.deep_view() + deps_of(rest@),
        decreases rest@.len(),
    {
        let k = vec_find(&rest, '\n');
        proof {
            lemma_find_char(rest@, '\n');
        }
        let line = slice_range(&rest, 0, k);
        proof {
            assert(line@ =~= rest@.take(k as int));
        }
        let ghost before = out.deep_view();
        scan_deps_line(&line, &mut out);
        if k == rest.len() {
            proof {
                assert(deps_of(rest@) =~~= line_deps(line@));
                assert(before + line_deps(line@) =~~= out.deep_view());
            }
            return out;
        }
        let next = slice_range(&rest, k + 1, rest.len());
        proof {
            assert(next@ =~= rest@.skip(k as int + 1));
            assert(before + (line_deps(line@) + deps_of(next@)) =~~= (before + line_deps(line@))
                + deps_of(next@));
        }
        rest = next;
    }
}

} // verus!
