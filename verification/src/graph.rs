//! The dependency graph builder.  A workspace is modelled as a list of
//! build units, each carrying its path and the texts of its two
//! descriptor files.  A name-to-directory index is built over the
//! workspace; starting from a root unit, a worklist walk resolves every
//! dependency name through the index, emits one edge per resolved
//! occurrence, and expands each discovered unit exactly once, so that
//! diamonds and cycles never repeat work.

use vstd::prelude::*;
use crate::descriptor::{get_dependencies, get_make_target, target_of, TargetResolution, TargetSpec};
use crate::plan::edge_views;
use crate::schedule::lemma_distinct_bounded;
use crate::text::strip_escapes;

verus! {

/// A build unit as graph construction sees it: its directory, and the
/// contents of its target descriptor and of its options descriptor,
/// absent when the file could not be read.
pub struct UnitFiles {
    /// The unit's directory, its identity in the graph.
    pub path: String,
    /// The text of the target descriptor, if readable.
    pub files: Option<String>,
    /// The text of the options descriptor, if readable.
    pub options: Option<String>,
}

/// The mathematical shadow of a `UnitFiles`.
pub struct UnitView {
    pub path: Seq<char>,
    pub files: Option<Seq<char>>,
    pub options: Option<Seq<char>>,
}

impl View for UnitFiles {
    type V = UnitView;

    open spec fn view(&self) -> UnitView {
        UnitView {
            path: self.path@,
            files: match self.files {
                Option::Some(c) => Option::Some(c@),
                Option::None => Option::None,
            },
            options: match self.options {
                Option::Some(c) => Option::Some(c@),
                Option::None => Option::None,
            },
        }
    }
}

/// The views of a unit list.
pub open spec fn views_of(units: Seq<UnitFiles>) -> Seq<UnitView> {
    units.map(|i: int, u: UnitFiles| u@)
}

/// The name-to-directory index over a workspace, in discovery order: one
/// entry per unit whose target descriptor is readable and names a
/// target.  A later unit with the same name shadows an earlier one.
pub open spec fn index_spec(uv: Seq<UnitView>) -> Seq<(Seq<char>, Seq<char>)>
    decreases uv.len(),
{
    if uv.len() == 0 {
        Seq::empty()
    } else {
        index_spec(uv.drop_last()) + (match uv.last().files {
            Option::Some(c) => match target_of(c) {
                TargetSpec::Found(kind, name) => seq![(name, uv.last().path)],
                TargetSpec::NoKey => Seq::empty(),
                TargetSpec::BadValue => Seq::empty(),
            },
            Option::None => Seq::empty(),
        })
    }
}

/// The directory a dependency name resolves to: the last index entry
/// carrying that name, or nothing for an external library.
pub open spec fn index_lookup(idx: Seq<(Seq<char>, Seq<char>)>, name: Seq<char>) -> Option<
    Seq<char>,
>
    decreases idx.len(),
{
    if idx.len() == 0 {
        Option::None
    } else if idx.last().0 == name {
        Option::Some(idx.last().1)
    } else {
        index_lookup(idx.drop_last(), name)
    }
}

/// Whether some unit has the path `p`.
pub open spec fn has_path(uv: Seq<UnitView>, p: Seq<char>) -> bool {
    exists|i: int| 0 <= i < uv.len() && (#[trigger] uv[i]).path == p
}

/// The options text of the first unit at path `p`: `None` when no unit
/// has that path, `Some(None)` when the unit's options descriptor is
/// unreadable.
pub open spec fn options_lookup(uv: Seq<UnitView>, p: Seq<char>) -> Option<Option<Seq<char>>>
    decreases uv.len(),
{
    if uv.len() == 0 {
        Option::None
    } else if uv[0].path == p {
        Option::Some(uv[0].options)
    } else {
        options_lookup(uv.drop_first(), p)
    }
}

/// The workspace extended by the root unit, when the root's directory is
/// not itself a workspace unit.
pub open spec fn all_units(uv: Seq<UnitView>, rv: UnitView) -> Seq<UnitView> {
    if has_path(uv, rv.path) {
        uv
    } else {
        uv.push(rv)
    }
}

/// The dependency names of an options text, after the backslash deletion
/// rule.
pub open spec fn unit_deps(c: Seq<char>) -> Seq<Seq<char>> {
    crate::descriptor::deps_of(strip_escapes(c))
}

/// The edges a unit at `from` contributes: one edge `(from, dir)` per
/// dependency name that the index resolves, in name order.
pub open spec fn resolved(
    idx: Seq<(Seq<char>, Seq<char>)>,
    from: Seq<char>,
    names: Seq<Seq<char>>,
) -> Seq<(Seq<char>, Seq<char>)>
    decreases names.len(),
{
    if names.len() == 0 {
        Seq::empty()
    } else {
        resolved(idx, from, names.drop_last()) + (match index_lookup(idx, names.last()) {
            Option::Some(d) => seq![(from, d)],
            Option::None => Seq::empty(),
        })
    }
}

/// The sub-sequence of edges whose dependent is `p`, in emission order.
pub open spec fn by_source(r: Seq<(Seq<char>, Seq<char>)>, p: Seq<char>) -> Seq<
    (Seq<char>, Seq<char>),
>
    decreases r.len(),
{
    if r.len() == 0 {
        Seq::empty()
    } else {
        by_source(r.drop_last(), p) + (if r.last().0 == p {
            seq![r.last()]
        } else {
            Seq::<(Seq<char>, Seq<char>)>::empty()
        })
    }
}

/// Whether the options of the unit at `p` are present and readable.
pub open spec fn readable_options(uv: Seq<UnitView>, rv: UnitView, p: Seq<char>) -> bool {
    match options_lookup(all_units(uv, rv), p) {
        Option::Some(o) => o is Some,
        Option::None => false,
    }
}

/// The edges the unit at `p` contributes to the graph.
pub open spec fn edges_from(uv: Seq<UnitView>, rv: UnitView, p: Seq<char>) -> Seq<
    (Seq<char>, Seq<char>),
>
    recommends
        readable_options(uv, rv, p),
{
    match options_lookup(all_units(uv, rv), p) {
        Option::Some(Option::Some(c)) => resolved(index_spec(uv), p, unit_deps(c)),
        _ => Seq::empty(),
    }
}

/// How many times the edge `e` occurs in `r`.
pub open spec fn edge_count(r: Seq<(Seq<char>, Seq<char>)>, e: (Seq<char>, Seq<char>)) -> nat
    decreases r.len(),
{
    if r.len() == 0 {
        0
    } else {
        edge_count(r.drop_last(), e) + (if r.last() == e {
            1 as nat
        } else {
            0 as nat
        })
    }
}

/// The complete-edge-list contract of graph construction over workspace
/// `uv` and root `rv`: every edge's dependent was expanded before it (it
/// is the root, or the target of an earlier edge), and each expanded
/// directory — the root and every edge target — contributes exactly its
/// resolved dependency list, in order.
pub open spec fn edge_list_complete(
    uv: Seq<UnitView>,
    rv: UnitView,
    es: Seq<(Seq<char>, Seq<char>)>,
) -> bool {
    &&& forall|k: int|
        0 <= k < es.len() ==> ((#[trigger] es[k]).0 == rv.path || exists|k2: int|
            0 <= k2 < k && es[k2].1 == es[k].0)
    &&& forall|p: Seq<char>|
        (p == rv.path || exists|k: int| 0 <= k < es.len() && (#[trigger] es[k]).1 == p)
            ==> #[trigger] by_source(es, p) == edges_from(uv, rv, p)
}

/// Some worklist entry stands for the unit at `p`.  Opaque: the walk's
/// loops carry it as an atom, and proofs open it only where a witness is
/// produced or consumed.
#[verifier::opaque]
pub open spec fn target_covered(uv: Seq<UnitView>, rv: UnitView, q: Seq<usize>, p: Seq<char>) -> bool {
    exists|t: int| 0 <= t < q.len() && node_path(uv, rv, q[t]) == p
}

/// `p` is the target of some edge of `ev`.  Opaque for the same reason.
#[verifier::opaque]
pub open spec fn is_emitted_target(ev: Seq<(Seq<char>, Seq<char>)>, p: Seq<char>) -> bool {
    exists|k: int| 0 <= k < ev.len() && (#[trigger] ev[k]).1 == p
}

/// The edges the first `h` worklist entries contribute, concatenated in
/// expansion order.
spec fn emitted_edges(uv: Seq<UnitView>, rv: UnitView, q: Seq<usize>, h: int) -> Seq<
    (Seq<char>, Seq<char>),
>
    decreases h,
{
    if h <= 0 {
        Seq::empty()
    } else {
        emitted_edges(uv, rv, q, h - 1) + edges_from(uv, rv, node_path(uv, rv, q[h - 1]))
    }
}

/// The path of worklist node `x`: a workspace unit below `uv.len()`, the
/// root above it.
pub open spec fn node_path(uv: Seq<UnitView>, rv: UnitView, x: usize) -> Seq<char> {
    if x < uv.len() {
        uv[x as int].path
    } else {
        rv.path
    }
}

/// The options text of worklist node `x`.
pub open spec fn node_options(uv: Seq<UnitView>, rv: UnitView, x: usize) -> Option<Seq<char>> {
    if x < uv.len() {
        uv[x as int].options
    } else {
        rv.options
    }
}

/// Every index entry names an existing unit directory.
proof fn lemma_index_values_are_paths(uv: Seq<UnitView>)
    ensures
        forall|k: int|
            0 <= k < index_spec(uv).len() ==> has_path(uv, (#[trigger] index_spec(uv)[k]).1),
    decreases uv.len(),
{
    if uv.len() != 0 {
        lemma_index_values_are_paths(uv.drop_last());
        let prev = index_spec(uv.drop_last());
        assert forall|k: int|
            0 <= k < index_spec(uv).len() implies has_path(uv, (#[trigger] index_spec(uv)[k]).1) by {
            if k < prev.len() {
                assert(index_spec(uv)[k] == prev[k]);
                assert(has_path(uv.drop_last(), prev[k].1));
                let i = choose|i: int|
                    0 <= i < uv.drop_last().len() && (#[trigger] uv.drop_last()[i]).path == prev[
                        k
                    ].1;
                assert(uv[i].path == prev[k].1);
            } else {
                assert(uv[uv.len() - 1].path == index_spec(uv)[k].1);
            }
        }
    }
}

/// A successful lookup returns the directory of some entry with the
/// looked-up name.
proof fn lemma_lookup_member(idx: Seq<(Seq<char>, Seq<char>)>, name: Seq<char>)
    requires
        index_lookup(idx, name) is Some,
    ensures
        exists|k: int|
            0 <= k < idx.len() && (#[trigger] idx[k]).0 == name && idx[k].1 == index_lookup(
                idx,
                name,
            )->Some_0,
    decreases idx.len(),
{
    if idx.len() != 0 {
        if idx.last().0 == name {
            assert(idx[idx.len() - 1].0 == name);
        } else {
            lemma_lookup_member(idx.drop_last(), name);
            let k = choose|k: int|
                0 <= k < idx.drop_last().len() && (#[trigger] idx.drop_last()[k]).0 == name
                    && idx.drop_last()[k].1 == index_lookup(idx.drop_last(), name)->Some_0;
            assert(idx[k] == idx.drop_last()[k]);
        }
    }
}

/// Looking up a path whose first occurrence is at `i` yields that unit's
/// options.
proof fn lemma_options_lookup_at(uv: Seq<UnitView>, p: Seq<char>, i: int)
    requires
        0 <= i < uv.len(),
        uv[i].path == p,
        forall|j: int| 0 <= j < i ==> (#[trigger] uv[j]).path != p,
    ensures
        options_lookup(uv, p) == Option::Some(uv[i].options),
    decreases uv.len(),
{
    if i > 0 {
        assert(uv[0].path != p);
        lemma_options_lookup_at(uv.drop_first(), p, i - 1);
        assert(uv.drop_first()[i - 1] == uv[i]);
        assert forall|j: int| 0 <= j < i - 1 implies (#[trigger] uv.drop_first()[j]).path != p by {
            assert(uv.drop_first()[j] == uv[j + 1]);
        }
    }
}

/// Edges none of which leave from `p` contribute nothing to `by_source`.
proof fn lemma_by_source_absent(r: Seq<(Seq<char>, Seq<char>)>, p: Seq<char>)
    requires
        forall|k: int| 0 <= k < r.len() ==> (#[trigger] r[k]).0 != p,
    ensures
        by_source(r, p) == Seq::<(Seq<char>, Seq<char>)>::empty(),
    decreases r.len(),
{
    if r.len() != 0 {
        assert(r[r.len() - 1].0 != p);
        lemma_by_source_absent(r.drop_last(), p);
        assert forall|k: int| 0 <= k < r.drop_last().len() implies (
        #[trigger] r.drop_last()[k]).0 != p by {
            assert(r.drop_last()[k] == r[k]);
        }
        assert(by_source(r, p) =~= Seq::<(Seq<char>, Seq<char>)>::empty());
    }
}

/// The options lookup for a worklist node resolves to that node's own
/// options.
proof fn lemma_options_of_node(uv: Seq<UnitView>, rv: UnitView, x: usize)
    requires
        forall|i: int, j: int| 0 <= i < j < uv.len() ==> uv[i].path != uv[j].path,
        x as int <= uv.len(),
        x as int == uv.len() ==> !has_path(uv, rv.path),
    ensures
        options_lookup(all_units(uv, rv), node_path(uv, rv, x)) == Option::Some(
            node_options(uv, rv, x),
        ),
{
    let all = all_units(uv, rv);
    if (x as int) < uv.len() {
        assert forall|j: int| 0 <= j < x implies (#[trigger] all[j]).path != uv[x as int].path by {
            assert(all[j] == uv[j]);
        }
        assert(all[x as int] == uv[x as int]);
        lemma_options_lookup_at(all, uv[x as int].path, x as int);
    } else {
        assert(all == uv.push(rv));
        assert(all[uv.len() as int] == rv);
        assert forall|j: int| 0 <= j < uv.len() implies (#[trigger] all[j]).path != rv.path by {
            assert(all[j] == uv[j]);
        }
        lemma_options_lookup_at(all, rv.path, uv.len() as int);
    }
}

/// The name-to-directory index over the workspace, one `(name, dir)`
/// pair per unit whose target resolves, in workspace order.  Units whose
/// target descriptor is unreadable, carries no recognized key, or has an
/// unusable value are left out.
pub fn build_index(units: &Vec<UnitFiles>) -> (idx: Vec<(String, String)>)
    ensures
        edge_views(idx@) == index_spec(views_of(units@)),
{
    let n = units.len();
    let ghost uv = views_of(units@);
    let mut idx: Vec<(String, String)> = Vec::new();
    let mut i: usize = 0;
    proof {
        assert(uv.take(0) =~= Seq::<UnitView>::empty());
        assert(edge_views(idx@) =~= index_spec(uv.take(0)));
    }
    while i < n
        invariant
            i <= n,
            n == units@.len(),
            uv == views_of(units@),
            edge_views(idx@) == index_spec(uv.take(i as int)),
        decreases n - i,
    {
        proof {
            assert(uv.take(i as int + 1).drop_last() =~= uv.take(i as int));
            assert(uv.take(i as int + 1).last() == uv[i as int]);
            assert(uv[i as int] == units@[i as int]@);
        }
        let ghost before = edge_views(idx@);
        match &units[i].files {
            Option::Some(c) => {
                match get_make_target(c.as_str()) {
                    TargetResolution::Found(kind, name) => {
                        idx.push((name, units[i].path.clone()));
                        proof {
                            assert(edge_views(idx@) =~= before + seq![
                                (idx@.last().0@, idx@.last().1@),
                            ]);
                            assert(edge_views(idx@) =~= index_spec(uv.take(i as int + 1)));
                        }
                    },
                    TargetResolution::NoRecognizedKey => {
                        proof {
                            assert(edge_views(idx@) =~= index_spec(uv.take(i as int + 1)));
                        }
                    },
                    TargetResolution::BadValue => {
                        proof {
                            assert(edge_views(idx@) =~= index_spec(uv.take(i as int + 1)));
                        }
                    },
                }
            },
            Option::None => {
                proof {
                    assert(edge_views(idx@) =~= index_spec(uv.take(i as int + 1)));
                }
            },
        }
        i = i + 1;
    }
    proof {
        assert(uv.take(n as int) =~= uv);
    }
    idx
}

/// The directory a dependency name refers to, per the index, latest
/// entry first.
fn lookup_index(idx: &Vec<(String, String)>, name: &String) -> (r: Option<String>)
    ensures
        match r {
            Option::Some(d) => index_lookup(edge_views(idx@), name@) == Option::Some(d@),
            Option::None => index_lookup(edge_views(idx@), name@) == Option::<Seq<char>>::None,
        },
{
    let ghost ev = edge_views(idx@);
    let n = idx.len();
    let mut i: usize = n;
    proof {
        assert(ev.take(n as int) =~= ev);
    }
    while i > 0
        invariant
            i <= n,
            n == idx@.len(),
            ev == edge_views(idx@),
            index_lookup(ev, name@) == index_lookup(ev.take(i as int), name@),
        decreases i,
    {
        proof {
            assert(ev.take(i as int).drop_last() =~= ev.take(i as int - 1));
            assert(ev.take(i as int).last() == ev[i as int - 1]);
        }
        if idx[i - 1].0.eq(name) {
            return Option::Some(idx[i - 1].1.clone());
        }
        i = i - 1;
    }
    proof {
        assert(ev.take(0) =~= Seq::<(Seq<char>, Seq<char>)>::empty());
    }
    Option::None
}

/// The position of the first unit at path `p`, if any.
fn find_path(units: &Vec<UnitFiles>, p: &String) -> (r: Option<usize>)
    ensures
        match r {
            Option::Some(i) => i < units@.len() && views_of(units@)[i as int].path == p@ && forall|
                j: int,
            | 0 <= j < i ==> (#[trigger] views_of(units@)[j]).path != p@,
            Option::None => !has_path(views_of(units@), p@),
        },
{
    let n = units.len();
    let ghost uv = views_of(units@);
    let mut i: usize = 0;
    while i < n
        invariant
            i <= n,
            n == units@.len(),
            uv == views_of(units@),
            forall|j: int| 0 <= j < i ==> (#[trigger] uv[j]).path != p@,
        decreases n - i,
    {
        if units[i].path.eq(p) {
            proof {
                assert(uv[i as int].path == p@);
            }
            return Option::Some(i);
        }
        i = i + 1;
    }
    Option::None
}

/// Occurrence-wise concatenation distributes over `by_source`.
proof fn lemma_by_source_concat(
    a: Seq<(Seq<char>, Seq<char>)>,
    b: Seq<(Seq<char>, Seq<char>)>,
    p: Seq<char>,
)
    ensures
        by_source(a + b, p) == by_source(a, p) + by_source(b, p),
    decreases b.len(),
{
    if b.len() == 0 {
        assert(a + b =~= a);
        assert(by_source(a, p) + by_source(b, p) =~= by_source(a, p));
    } else {
        assert((a + b).drop_last() =~= a + b.drop_last());
        assert((a + b).last() == b.last());
        lemma_by_source_concat(a, b.drop_last(), p);
        assert((by_source(a, p) + by_source(b.drop_last(), p)) + (if b.last().0 == p {
            seq![b.last()]
        } else {
            Seq::<(Seq<char>, Seq<char>)>::empty()
        }) =~= by_source(a, p) + by_source(b, p));
    }
}

/// Edges all leaving from `p` are their own `by_source`.
proof fn lemma_by_source_all(r: Seq<(Seq<char>, Seq<char>)>, p: Seq<char>)
    requires
        forall|k: int| 0 <= k < r.len() ==> (#[trigger] r[k]).0 == p,
    ensures
        by_source(r, p) == r,
    decreases r.len(),
{
    if r.len() != 0 {
        assert forall|k: int| 0 <= k < r.drop_last().len() implies (
        #[trigger] r.drop_last()[k]).0 == p by {
            assert(r.drop_last()[k] == r[k]);
        }
        lemma_by_source_all(r.drop_last(), p);
        assert(by_source(r, p) =~= r);
    }
}

/// Every edge of `resolved` leaves from `from`.
proof fn lemma_resolved_sources(idx: Seq<(Seq<char>, Seq<char>)>, from: Seq<char>, names: Seq<Seq<char>>)
    ensures
        forall|k: int|
            0 <= k < resolved(idx, from, names).len() ==> (#[trigger] resolved(
                idx,
                from,
                names,
            )[k]).0 == from,
    decreases names.len(),
{
    if names.len() != 0 {
        lemma_resolved_sources(idx, from, names.drop_last());
        let prev = resolved(idx, from, names.drop_last());
        assert forall|k: int|
            0 <= k < resolved(idx, from, names).len() implies (#[trigger] resolved(
            idx,
            from,
            names,
        )[k]).0 == from by {
            if k < prev.len() {
                assert(resolved(idx, from, names)[k] == prev[k]);
            }
        }
    }
}

/// Every edge of the unit at `p` leaves from `p`.
proof fn lemma_edges_from_sources(uv: Seq<UnitView>, rv: UnitView, p: Seq<char>)
    ensures
        forall|k: int|
            0 <= k < edges_from(uv, rv, p).len() ==> (#[trigger] edges_from(uv, rv, p)[k]).0 == p,
{
    let o = options_lookup(all_units(uv, rv), p);
    if o is Some && o->Some_0 is Some {
        lemma_resolved_sources(index_spec(uv), p, unit_deps(o->Some_0->Some_0));
    }
}

/// Worklists agreeing on their first `h` entries contribute the same
/// edges.
proof fn lemma_emitted_prefix(
    uv: Seq<UnitView>,
    rv: UnitView,
    q1: Seq<usize>,
    q2: Seq<usize>,
    h: int,
)
    requires
        0 <= h <= q1.len(),
        h <= q2.len(),
        forall|t: int| 0 <= t < h ==> q1[t] == q2[t],
    ensures
        emitted_edges(uv, rv, q1, h) == emitted_edges(uv, rv, q2, h),
    decreases h,
{
    if h > 0 {
        lemma_emitted_prefix(uv, rv, q1, q2, h - 1);
    }
}

/// Every emitted edge leaves from the path of some expanded entry.
proof fn lemma_emitted_sources(uv: Seq<UnitView>, rv: UnitView, q: Seq<usize>, h: int)
    requires
        0 <= h <= q.len(),
    ensures
        forall|k: int|
            0 <= k < emitted_edges(uv, rv, q, h).len() ==> exists|t: int|
                0 <= t < h && (#[trigger] emitted_edges(uv, rv, q, h)[k]).0 == node_path(
                    uv,
                    rv,
                    q[t],
                ),
    decreases h,
{
    if h > 0 {
        lemma_emitted_sources(uv, rv, q, h - 1);
        let prev = emitted_edges(uv, rv, q, h - 1);
        let block = edges_from(uv, rv, node_path(uv, rv, q[h - 1]));
        lemma_edges_from_sources(uv, rv, node_path(uv, rv, q[h - 1]));
        assert forall|k: int|
            0 <= k < emitted_edges(uv, rv, q, h).len() implies exists|t: int|
            0 <= t < h && (#[trigger] emitted_edges(uv, rv, q, h)[k]).0 == node_path(
                uv,
                rv,
                q[t],
            ) by {
            if k < prev.len() {
                assert(emitted_edges(uv, rv, q, h)[k] == prev[k]);
                let t = choose|t: int| 0 <= t < h - 1 && prev[k].0 == node_path(uv, rv, q[t]);
                assert(emitted_edges(uv, rv, q, h)[k].0 == node_path(uv, rv, q[t]));
            } else {
                assert(emitted_edges(uv, rv, q, h)[k] == block[k - prev.len()]);
                assert(emitted_edges(uv, rv, q, h)[k].0 == node_path(uv, rv, q[h - 1]));
            }
        }
    }
}

/// Distinct worklist entries stand for distinct unit paths.
proof fn lemma_queue_paths_distinct(uv: Seq<UnitView>, rv: UnitView, q: Seq<usize>)
    requires
        forall|i: int, j: int| 0 <= i < j < uv.len() ==> uv[i].path != uv[j].path,
        forall|t: int| 0 <= t < q.len() ==> (#[trigger] q[t]) <= uv.len(),
        forall|t1: int, t2: int| 0 <= t1 < t2 < q.len() ==> q[t1] != q[t2],
        forall|t: int| 0 <= t < q.len() && (#[trigger] q[t]) == uv.len() ==> !has_path(uv, rv.path),
    ensures
        forall|t1: int, t2: int|
            0 <= t1 < t2 < q.len() ==> node_path(uv, rv, q[t1]) != node_path(uv, rv, q[t2]),
{
    assert forall|t1: int, t2: int|
        0 <= t1 < t2 < q.len() implies node_path(uv, rv, q[t1]) != node_path(uv, rv, q[t2]) by {
        let x1 = q[t1];
        let x2 = q[t2];
        if x1 as int == uv.len() {
            assert(node_path(uv, rv, x1) == rv.path);
            assert((x2 as int) < uv.len());
            if uv[x2 as int].path == rv.path {
                assert(has_path(uv, rv.path));
            }
        } else if x2 as int == uv.len() {
            assert((x1 as int) < uv.len());
            if uv[x1 as int].path == rv.path {
                assert(has_path(uv, rv.path));
            }
        } else {
            if x1 < x2 {
                assert(uv[x1 as int].path != uv[x2 as int].path);
            } else {
                assert(uv[x2 as int].path != uv[x1 as int].path);
            }
        }
    }
}

/// Filtering the emitted edges by an expanded entry's path yields exactly
/// that entry's block.
proof fn lemma_by_source_emitted(uv: Seq<UnitView>, rv: UnitView, q: Seq<usize>, h: int, t: int)
    requires
        0 <= t < h <= q.len(),
        forall|t1: int, t2: int|
            0 <= t1 < t2 < h ==> node_path(uv, rv, q[t1]) != node_path(uv, rv, q[t2]),
    ensures
        by_source(emitted_edges(uv, rv, q, h), node_path(uv, rv, q[t])) == edges_from(
            uv,
            rv,
            node_path(uv, rv, q[t]),
        ),
    decreases h,
{
    let p = node_path(uv, rv, q[t]);
    let prev = emitted_edges(uv, rv, q, h - 1);
    let block = edges_from(uv, rv, node_path(uv, rv, q[h - 1]));
    lemma_by_source_concat(prev, block, p);
    lemma_edges_from_sources(uv, rv, node_path(uv, rv, q[h - 1]));
    if t == h - 1 {
        lemma_emitted_sources(uv, rv, q, h - 1);
        assert forall|k: int| 0 <= k < prev.len() implies (#[trigger] prev[k]).0 != p by {
            let t2 = choose|t2: int| 0 <= t2 < h - 1 && prev[k].0 == node_path(uv, rv, q[t2]);
            assert(node_path(uv, rv, q[t2]) != p);
        }
        lemma_by_source_absent(prev, p);
        lemma_by_source_all(block, p);
        assert(by_source(emitted_edges(uv, rv, q, h), p) =~= block);
    } else {
        lemma_by_source_emitted(uv, rv, q, h - 1, t);
        assert(node_path(uv, rv, q[h - 1]) != p);
        lemma_by_source_absent(block, p);
        assert(by_source(emitted_edges(uv, rv, q, h), p) =~= edges_from(uv, rv, p));
    }
}

/// Occurrence counts of edges add over concatenation.
proof fn lemma_edge_count_concat(
    a: Seq<(Seq<char>, Seq<char>)>,
    b: Seq<(Seq<char>, Seq<char>)>,
    e: (Seq<char>, Seq<char>),
)
    ensures
        edge_count(a + b, e) == edge_count(a, e) + edge_count(b, e),
    decreases b.len(),
{
    if b.len() == 0 {
        assert(a + b =~= a);
    } else {
        assert((a + b).drop_last() =~= a + b.drop_last());
        assert((a + b).last() == b.last());
        lemma_edge_count_concat(a, b.drop_last(), e);
    }
}

/// An edge at index `k` occurs at least once.
proof fn lemma_edge_count_at(r: Seq<(Seq<char>, Seq<char>)>, k: int)
    requires
        0 <= k < r.len(),
    ensures
        edge_count(r, r[k]) >= 1,
    decreases r.len(),
{
    if k < r.len() - 1 {
        lemma_edge_count_at(r.drop_last(), k);
        assert(r.drop_last()[k] == r[k]);
    }
}

/// A positive count exhibits an occurrence.
proof fn lemma_edge_count_member(r: Seq<(Seq<char>, Seq<char>)>, e: (Seq<char>, Seq<char>))
    requires
        edge_count(r, e) >= 1,
    ensures
        exists|k: int| 0 <= k < r.len() && r[k] == e,
    decreases r.len(),
{
    if r.last() == e {
        assert(r[r.len() - 1] == e);
    } else {
        lemma_edge_count_member(r.drop_last(), e);
        let k = choose|k: int| 0 <= k < r.drop_last().len() && r.drop_last()[k] == e;
        assert(r[k] == e);
    }
}

/// Restricting a list to an edge's own source keeps that edge's count.
proof fn lemma_edge_count_by_source(r: Seq<(Seq<char>, Seq<char>)>, e: (Seq<char>, Seq<char>))
    ensures
        edge_count(by_source(r, e.0), e) == edge_count(r, e),
    decreases r.len(),
{
    if r.len() != 0 {
        lemma_edge_count_by_source(r.drop_last(), e);
        let prev = by_source(r.drop_last(), e.0);
        if r.last().0 == e.0 {
            assert(by_source(r, e.0) == prev + seq![r.last()]);
            lemma_edge_count_concat(prev, seq![r.last()], e);
            assert(seq![r.last()].drop_last() =~= Seq::<(Seq<char>, Seq<char>)>::empty());
            assert(seq![r.last()].last() == r.last());
            assert(edge_count(Seq::<(Seq<char>, Seq<char>)>::empty(), e) == 0);
            assert(edge_count(seq![r.last()], e) == (if r.last() == e {
                1 as nat
            } else {
                0 as nat
            }));
        } else {
            assert(r.last() != e);
            assert(by_source(r, e.0) == prev + Seq::<(Seq<char>, Seq<char>)>::empty());
            assert(prev + Seq::<(Seq<char>, Seq<char>)>::empty() =~= prev);
        }
    }
}

/// An edge of one complete list occurs equally often in any other
/// complete list over the same workspace and root.
proof fn lemma_edge_count_agrees(
    uv: Seq<UnitView>,
    rv: UnitView,
    es1: Seq<(Seq<char>, Seq<char>)>,
    es2: Seq<(Seq<char>, Seq<char>)>,
    k: int,
)
    requires
        edge_list_complete(uv, rv, es1),
        edge_list_complete(uv, rv, es2),
        0 <= k < es1.len(),
    ensures
        edge_count(es2, es1[k]) == edge_count(es1, es1[k]),
    decreases k,
{
    let e = es1[k];
    let s = e.0;
    if s != rv.path {
        let k2 = choose|k2: int| 0 <= k2 < k && es1[k2].1 == s;
        lemma_edge_count_agrees(uv, rv, es1, es2, k2);
        lemma_edge_count_at(es1, k2);
        lemma_edge_count_member(es2, es1[k2]);
        let j = choose|j: int| 0 <= j < es2.len() && es2[j] == es1[k2];
        assert(es2[j].1 == s);
    }
    assert(by_source(es1, s) == edges_from(uv, rv, s));
    assert(by_source(es2, s) == edges_from(uv, rv, s));
    lemma_edge_count_by_source(es1, e);
    lemma_edge_count_by_source(es2, e);
}

/// Graph construction is idempotent: over one workspace and root, any two
/// edge lists meeting the complete-edge-list contract hold every edge
/// equally often — they are equal as multisets, hence as sets, whatever
/// order discovery visited the units in.
pub proof fn lemma_edges_unique(
    uv: Seq<UnitView>,
    rv: UnitView,
    es1: Seq<(Seq<char>, Seq<char>)>,
    es2: Seq<(Seq<char>, Seq<char>)>,
)
    requires
        edge_list_complete(uv, rv, es1),
        edge_list_complete(uv, rv, es2),
    ensures
        forall|e: (Seq<char>, Seq<char>)| edge_count(es1, e) == edge_count(es2, e),
{
    assert forall|e: (Seq<char>, Seq<char>)| edge_count(es1, e) == edge_count(es2, e) by {
        if edge_count(es1, e) >= 1 {
            lemma_edge_count_member(es1, e);
            let k = choose|k: int| 0 <= k < es1.len() && es1[k] == e;
            lemma_edge_count_agrees(uv, rv, es1, es2, k);
        } else if edge_count(es2, e) >= 1 {
            lemma_edge_count_member(es2, e);
            let k = choose|k: int| 0 <= k < es2.len() && es2[k] == e;
            lemma_edge_count_agrees(uv, rv, es2, es1, k);
        }
    }
}

/// How many of the dependency names resolve, through the index, to the
/// directory `d`.
pub open spec fn resolutions_to(
    idx: Seq<(Seq<char>, Seq<char>)>,
    names: Seq<Seq<char>>,
    d: Seq<char>,
) -> nat
    decreases names.len(),
{
    if names.len() == 0 {
        0
    } else {
        resolutions_to(idx, names.drop_last(), d) + (if index_lookup(idx, names.last())
            == Option::Some(d) {
            1 as nat
        } else {
            0 as nat
        })
    }
}

/// The resolved edges toward `d` count the names resolving to `d`.
proof fn lemma_resolved_count(
    idx: Seq<(Seq<char>, Seq<char>)>,
    from: Seq<char>,
    names: Seq<Seq<char>>,
    d: Seq<char>,
)
    ensures
        edge_count(resolved(idx, from, names), (from, d)) == resolutions_to(idx, names, d),
    decreases names.len(),
{
    if names.len() != 0 {
        lemma_resolved_count(idx, from, names.drop_last(), d);
        let prev = resolved(idx, from, names.drop_last());
        match index_lookup(idx, names.last()) {
            Option::Some(hit) => {
                assert(resolved(idx, from, names) == prev + seq![(from, hit)]);
                lemma_edge_count_concat(prev, seq![(from, hit)], (from, d));
                assert(seq![(from, hit)].drop_last() =~= Seq::<(Seq<char>, Seq<char>)>::empty());
                assert(seq![(from, hit)].last() == (from, hit));
                assert(edge_count(Seq::<(Seq<char>, Seq<char>)>::empty(), (from, d)) == 0);
                assert(edge_count(seq![(from, hit)], (from, d)) == (if hit == d {
                    1 as nat
                } else {
                    0 as nat
                }));
            },
            Option::None => {
                assert(resolved(idx, from, names) == prev + Seq::<(Seq<char>, Seq<char>)>::empty());
                assert(prev + Seq::<(Seq<char>, Seq<char>)>::empty() =~= prev);
            },
        }
    }
}

/// In a complete edge list the edge `(u, d)` occurs exactly once per
/// occurrence of a name in `u`'s dependency list that the index resolves
/// to `d`: converging diamond paths never repeat a unit's contribution,
/// and duplicate names are accumulated, not rejected.
pub proof fn lemma_edge_multiplicity(
    uv: Seq<UnitView>,
    rv: UnitView,
    es: Seq<(Seq<char>, Seq<char>)>,
    u: Seq<char>,
    d: Seq<char>,
)
    requires
        edge_list_complete(uv, rv, es),
        u == rv.path || exists|k: int| 0 <= k < es.len() && (#[trigger] es[k]).1 == u,
    ensures
        edge_count(es, (u, d)) == (match options_lookup(all_units(uv, rv), u) {
            Option::Some(Option::Some(c)) => resolutions_to(index_spec(uv), unit_deps(c), d),
            _ => 0,
        }),
{
    lemma_edge_count_by_source(es, (u, d));
    assert(by_source(es, u) == edges_from(uv, rv, u));
    let o = options_lookup(all_units(uv, rv), u);
    if o is Some && o->Some_0 is Some {
        lemma_resolved_count(index_spec(uv), u, unit_deps(o->Some_0->Some_0), d);
    }
}

/// A dependency name the index does not carry is silently skipped as an
/// external library: the unit's resolved edges are exactly those of its
/// dependency list with that name removed — the remaining edges are
/// unaffected, and no error arises.
pub proof fn lemma_external_name_skipped(
    idx: Seq<(Seq<char>, Seq<char>)>,
    from: Seq<char>,
    a: Seq<Seq<char>>,
    n: Seq<char>,
    b: Seq<Seq<char>>,
)
    requires
        index_lookup(idx, n) is None,
    ensures
        resolved(idx, from, a + seq![n] + b) == resolved(idx, from, a + b),
    decreases b.len(),
{
    if b.len() == 0 {
        assert((a + seq![n] + b).drop_last() =~= a);
        assert((a + seq![n] + b).last() == n);
        assert(a + b =~= a);
        assert(resolved(idx, from, a + seq![n] + b) =~= resolved(idx, from, a));
    } else {
        assert((a + seq![n] + b).drop_last() =~= a + seq![n] + b.drop_last());
        assert((a + seq![n] + b).last() == b.last());
        assert((a + b).drop_last() =~= a + b.drop_last());
        assert((a + b).last() == b.last());
        lemma_external_name_skipped(idx, from, a, n, b.drop_last());
    }
}

/// The edges one unit contributes: its dependency names resolved through
/// the index, one edge per hit, in order, all leaving from `from`.
fn resolve_unit_edges(idx: &Vec<(String, String)>, from: &String, deps: &Vec<String>) -> (out: Vec<
    (String, String),
>)
    ensures
        edge_views(out@) == resolved(edge_views(idx@), from@, deps.deep_view()),
        forall|k: int| 0 <= k < out@.len() ==> (#[trigger] edge_views(out@)[k]).0 == from@,
        forall|k: int|
            0 <= k < out@.len() ==> has_target(edge_views(idx@), (#[trigger] edge_views(
                out@,
            )[k]).1),
{
    let ghost idxv = edge_views(idx@);
    let ghost names = deps.deep_view();
    let mut out: Vec<(String, String)> = Vec::new();
    let nd = deps.len();
    let mut di: usize = 0;
    proof {
        assert(names.take(0) =~= Seq::<Seq<char>>::empty());
        assert(edge_views(out@) =~= resolved(idxv, from@, names.take(0)));
    }
    while di < nd
        invariant
            di <= nd,
            nd == deps@.len(),
            names == deps.deep_view(),
            idxv == edge_views(idx@),
            edge_views(out@) == resolved(idxv, from@, names.take(di as int)),
            out@.len() == edge_views(out@).len(),
            forall|k: int| 0 <= k < out@.len() ==> (#[trigger] edge_views(out@)[k]).0 == from@,
            forall|k: int|
                0 <= k < out@.len() ==> has_target(idxv, (#[trigger] edge_views(out@)[k]).1),
        decreases nd - di,
    {
        proof {
            assert(names.take(di as int + 1).drop_last() =~= names.take(di as int));
            assert(names.take(di as int + 1).last() == names[di as int]);
            assert(deps.deep_view()[di as int] == deps@[di as int]@);
        }
        match lookup_index(idx, &deps[di]) {
            Option::Some(d) => {
                let ghost ev0 = edge_views(out@);
                let ghost dv = d@;
                out.push((from.clone(), d));
                proof {
                    assert(edge_views(out@) =~~= ev0.push((from@, dv)));
                    assert(edge_views(out@).drop_last() =~= ev0);
                    assert(edge_views(out@) =~= resolved(idxv, from@, names.take(di as int + 1)));
                    lemma_lookup_has_target(idxv, names[di as int]);
                    assert forall|k: int|
                        0 <= k < out@.len() implies has_target(idxv, (#[trigger] edge_views(
                        out@,
                    )[k]).1) by {
                        if k < ev0.len() {
                            assert(edge_views(out@)[k] == ev0[k]);
                        } else {
                            assert(edge_views(out@)[k].1 == dv);
                        }
                    }
                }
            },
            Option::None => {
                proof {
                    assert(resolved(idxv, from@, names.take(di as int + 1)) =~= resolved(
                        idxv,
                        from@,
                        names.take(di as int),
                    ));
                }
            },
        }
        di = di + 1;
    }
    proof {
        assert(names.take(nd as int) =~= names);
    }
    out
}

/// Whether the index maps some name to the directory `d`.
pub open spec fn has_target(idx: Seq<(Seq<char>, Seq<char>)>, d: Seq<char>) -> bool {
    exists|k: int| 0 <= k < idx.len() && (#[trigger] idx[k]).1 == d
}

/// A successful lookup result is an index target.
proof fn lemma_lookup_has_target(idx: Seq<(Seq<char>, Seq<char>)>, name: Seq<char>)
    requires
        index_lookup(idx, name) is Some,
    ensures
        has_target(idx, index_lookup(idx, name)->Some_0),
{
    lemma_lookup_member(idx, name);
}

/// An index target is the path of some workspace unit.
proof fn lemma_target_is_path(uv: Seq<UnitView>, d: Seq<char>)
    requires
        has_target(index_spec(uv), d),
    ensures
        has_path(uv, d),
{
    lemma_index_values_are_paths(uv);
    let k = choose|k: int| 0 <= k < index_spec(uv).len() && (#[trigger] index_spec(uv)[k]).1 == d;
    assert(has_path(uv, index_spec(uv)[k].1));
}

/// A worklist entry at `p` witnesses `target_covered`.
proof fn lemma_covered_intro(uv: Seq<UnitView>, rv: UnitView, q: Seq<usize>, t: int, p: Seq<char>)
    requires
        0 <= t < q.len(),
        node_path(uv, rv, q[t]) == p,
    ensures
        target_covered(uv, rv, q, p),
{
    reveal(target_covered);
}

/// `target_covered` yields its worklist entry.
proof fn lemma_covered_elim(uv: Seq<UnitView>, rv: UnitView, q: Seq<usize>, p: Seq<char>)
    requires
        target_covered(uv, rv, q, p),
    ensures
        exists|t: int| 0 <= t < q.len() && node_path(uv, rv, #[trigger] q[t]) == p,
{
    reveal(target_covered);
}

/// Extending the worklist preserves `target_covered`.
proof fn lemma_covered_extend(
    uv: Seq<UnitView>,
    rv: UnitView,
    q0: Seq<usize>,
    q1: Seq<usize>,
    p: Seq<char>,
)
    requires
        target_covered(uv, rv, q0, p),
        q0.len() <= q1.len(),
        forall|t: int| 0 <= t < q0.len() ==> q0[t] == q1[t],
    ensures
        target_covered(uv, rv, q1, p),
{
    reveal(target_covered);
    let t = choose|t: int| 0 <= t < q0.len() && node_path(uv, rv, q0[t]) == p;
    assert(node_path(uv, rv, q1[t]) == p);
}

/// An edge to `p` witnesses `is_emitted_target`.
proof fn lemma_target_intro(ev: Seq<(Seq<char>, Seq<char>)>, p: Seq<char>, k: int)
    requires
        0 <= k < ev.len(),
        ev[k].1 == p,
    ensures
        is_emitted_target(ev, p),
{
    reveal(is_emitted_target);
}

/// Views distribute over edge-list concatenation.
proof fn lemma_edge_views_concat(a: Seq<(String, String)>, b: Seq<(String, String)>)
    ensures
        edge_views(a + b) == edge_views(a) + edge_views(b),
{
    assert(edge_views(a + b) =~= edge_views(a) + edge_views(b));
}

/// One expansion step of the worklist walk: appending the block of entry
/// `h` to the edges emitted so far preserves every property the walk
/// maintains.
proof fn lemma_append_step(
    uv: Seq<UnitView>,
    rv: UnitView,
    q: Seq<usize>,
    h: int,
    ev0: Seq<(Seq<char>, Seq<char>)>,
    fv: Seq<(Seq<char>, Seq<char>)>,
    ev1: Seq<(Seq<char>, Seq<char>)>,
)
    requires
        ev1 == ev0 + fv,
        0 <= h < q.len(),
        ev0 == emitted_edges(uv, rv, q, h),
        fv == edges_from(uv, rv, node_path(uv, rv, q[h])),
        forall|k: int|
            0 <= k < ev0.len() ==> ((#[trigger] ev0[k]).0 == rv.path || exists|k2: int|
                0 <= k2 < k && ev0[k2].1 == ev0[k].0),
        node_path(uv, rv, q[h]) == rv.path || is_emitted_target(ev0, node_path(uv, rv, q[h])),
        forall|k: int| 0 <= k < fv.len() ==> (#[trigger] fv[k]).0 == node_path(uv, rv, q[h]),
        forall|k: int| 0 <= k < ev0.len() ==> has_path(uv, (#[trigger] ev0[k]).1),
        forall|k: int| 0 <= k < fv.len() ==> has_target(index_spec(uv), (#[trigger] fv[k]).1),
        forall|k: int| 0 <= k < ev0.len() ==> target_covered(uv, rv, q, (#[trigger] ev0[k]).1),
        forall|k: int| 0 <= k < fv.len() ==> target_covered(uv, rv, q, (#[trigger] fv[k]).1),
        forall|t: int|
            0 <= t < q.len() ==> (node_path(uv, rv, (#[trigger] q[t])) == rv.path
                || is_emitted_target(ev0, node_path(uv, rv, q[t])) || is_emitted_target(
                fv,
                node_path(uv, rv, q[t]),
            )),
    ensures
        ev1 == emitted_edges(uv, rv, q, h + 1),
        forall|k: int|
            0 <= k < ev1.len() ==> ((#[trigger] ev1[k]).0 == rv.path || exists|k2: int|
                0 <= k2 < k && ev1[k2].1 == ev1[k].0),
        forall|k: int| 0 <= k < ev1.len() ==> has_path(uv, (#[trigger] ev1[k]).1),
        forall|k: int| 0 <= k < ev1.len() ==> target_covered(uv, rv, q, (#[trigger] ev1[k]).1),
        forall|t: int|
            0 <= t < q.len() ==> (node_path(uv, rv, (#[trigger] q[t])) == rv.path
                || is_emitted_target(ev1, node_path(uv, rv, q[t]))),
{
    reveal(target_covered);
    reveal(is_emitted_target);
    let src = node_path(uv, rv, q[h]);
    assert(emitted_edges(uv, rv, q, h + 1) == emitted_edges(uv, rv, q, h) + edges_from(
        uv,
        rv,
        node_path(uv, rv, q[h]),
    ));
    assert forall|t: int|
        0 <= t < q.len() implies (node_path(uv, rv, (#[trigger] q[t])) == rv.path || exists|k: int|
        0 <= k < ev1.len() && ev1[k].1 == node_path(uv, rv, q[t])) by {
        if node_path(uv, rv, q[t]) != rv.path {
            if exists|k: int| 0 <= k < ev0.len() && ev0[k].1 == node_path(uv, rv, q[t]) {
                let k = choose|k: int| 0 <= k < ev0.len() && ev0[k].1 == node_path(uv, rv, q[t]);
                assert(ev1[k].1 == node_path(uv, rv, q[t]));
            } else {
                let k = choose|k: int| 0 <= k < fv.len() && fv[k].1 == node_path(uv, rv, q[t]);
                assert(ev1[ev0.len() + k].1 == node_path(uv, rv, q[t]));
            }
        }
    }
    assert forall|k: int|
        0 <= k < ev1.len() implies ((#[trigger] ev1[k]).0 == rv.path || exists|k2: int|
        0 <= k2 < k && ev1[k2].1 == ev1[k].0) by {
        if k < ev0.len() {
            assert(ev1[k] == ev0[k]);
            if ev0[k].0 != rv.path {
                let k2 = choose|k2: int| 0 <= k2 < k && ev0[k2].1 == ev0[k].0;
                assert(ev1[k2].1 == ev1[k].0);
            }
        } else {
            assert(ev1[k] == fv[k - ev0.len()]);
            assert(ev1[k].0 == src);
            if src != rv.path {
                let k2 = choose|k2: int| 0 <= k2 < ev0.len() && ev0[k2].1 == src;
                assert(ev1[k2].1 == ev1[k].0);
            }
        }
    }
    assert forall|k: int| 0 <= k < ev1.len() implies has_path(uv, (#[trigger] ev1[k]).1) by {
        if k < ev0.len() {
            assert(ev1[k] == ev0[k]);
        } else {
            assert(ev1[k] == fv[k - ev0.len()]);
            lemma_target_is_path(uv, fv[k - ev0.len()].1);
        }
    }
    assert forall|k: int| 0 <= k < ev1.len() implies exists|t: int|
        0 <= t < q.len() && node_path(uv, rv, q[t]) == (#[trigger] ev1[k]).1 by {
        if k < ev0.len() {
            assert(ev1[k] == ev0[k]);
            let t0 = choose|t0: int|
                0 <= t0 < q.len() && node_path(uv, rv, q[t0]) == ev0[k].1;
            assert(node_path(uv, rv, q[t0]) == ev1[k].1);
        } else {
            assert(ev1[k] == fv[k - ev0.len()]);
            let t0 = choose|t0: int|
                0 <= t0 < q.len() && node_path(uv, rv, q[t0]) == fv[k - ev0.len()].1;
            assert(node_path(uv, rv, q[t0]) == ev1[k].1);
        }
    }
}

/// Build the dependency edge list of the workspace, starting at the root
/// unit.  The worklist starts with the root (or with the workspace unit
/// at the root's own path); expanding a unit reads its dependency names,
/// emits one edge per name the index resolves — silently skipping
/// external libraries — and schedules each resolved directory for
/// expansion exactly once, which tolerates diamonds and cycles.  An
/// expanded unit whose options descriptor is unreadable is a hard
/// failure carrying that unit's path: dependency information is
/// mandatory.
///
/// On success the edge list is complete: every edge's dependent is the
/// root or the target of an earlier edge, each expanded directory (the
/// root and every edge target) contributes exactly its resolved dependency
/// list in order, every edge target is a workspace unit, and the options
/// of the root and of every edge target were readable.  The failure
/// carries the path of an expanded unit whose options descriptor was
/// unreadable.
#[verifier::rlimit(100)]
pub fn get_edges(root: &UnitFiles, units: &Vec<UnitFiles>) -> (r: Result<
    Vec<(String, String)>,
    String,
>)
    requires
        forall|i: int, j: int|
            0 <= i < j < views_of(units@).len() ==> views_of(units@)[i].path != views_of(
                units@,
            )[j].path,
    ensures
        match r {
            Ok(es) => {
                &&& edge_list_complete(views_of(units@), root@, edge_views(es@))
                &&& forall|k: int|
                    0 <= k < edge_views(es@).len() ==> has_path(
                        views_of(units@),
                        (#[trigger] edge_views(es@)[k]).1,
                    )
                &&& readable_options(views_of(units@), root@, root@.path)
                &&& forall|k: int|
                    0 <= k < edge_views(es@).len() ==> readable_options(
                        views_of(units@),
                        root@,
                        (#[trigger] edge_views(es@)[k]).1,
                    )
            },
            Err(p) => options_lookup(all_units(views_of(units@), root@), p@) == Option::Some(
                Option::<Seq<char>>::None,
            ),
        },
{
    let ghost uv = views_of(units@);
    let ghost rv = root@;
    let idx = build_index(units);
    let ghost idxv = index_spec(uv);
    let nu = units.len();
    let mut visited: Vec<bool> = Vec::new();
    let mut w: usize = 0;
    while w < nu
        invariant
            w <= nu,
            visited@.len() == w,
            forall|j: int| 0 <= j < w ==> !(#[trigger] visited@[j]),
        decreases nu - w,
    {
        visited.push(false);
        w = w + 1;
    }
    let mut queue: Vec<usize> = Vec::new();
    match find_path(units, &root.path) {
        Option::Some(i) => {
            queue.push(i);
            visited.set(i, true);
        },
        Option::None => {
            queue.push(nu);
        },
    }
    let mut r: Vec<(String, String)> = Vec::new();
    let mut head: usize = 0;
    proof {
        assert(queue@[0] == nu ==> !has_path(uv, rv.path));
        assert(node_path(uv, rv, queue@[0]) == rv.path);
        assert(edge_views(r@) =~= Seq::<(Seq<char>, Seq<char>)>::empty());
        assert(edge_views(r@) == emitted_edges(uv, rv, queue@, 0));
    }
    while head < queue.len()
        invariant
            nu == units@.len(),
            uv == views_of(units@),
            rv == root@,
            idxv == index_spec(uv),
            edge_views(idx@) == idxv,
            forall|i: int, j: int| 0 <= i < j < uv.len() ==> uv[i].path != uv[j].path,
            visited@.len() == nu,
            head <= queue@.len(),
            1 <= queue@.len(),
            forall|t: int| 0 <= t < queue@.len() ==> (#[trigger] queue@[t]) <= nu,
            forall|t1: int, t2: int| 0 <= t1 < t2 < queue@.len() ==> queue@[t1] != queue@[t2],
            forall|t: int|
                0 <= t < queue@.len() && (#[trigger] queue@[t]) == nu ==> t == 0 && !has_path(
                    uv,
                    rv.path,
                ),
            node_path(uv, rv, queue@[0]) == rv.path,
            forall|j: usize| j < nu ==> (visited@[j as int] <==> queue@.contains(j)),
            forall|t: int|
                0 <= t < queue@.len() ==> (node_path(uv, rv, (#[trigger] queue@[t])) == rv.path
                    || is_emitted_target(edge_views(r@), node_path(uv, rv, queue@[t]))),
            forall|k: int|
                0 <= k < edge_views(r@).len() ==> ((#[trigger] edge_views(r@)[k]).0 == rv.path
                    || exists|k2: int| 0 <= k2 < k && edge_views(r@)[k2].1 == edge_views(r@)[k].0),
            forall|k: int|
                0 <= k < edge_views(r@).len() ==> has_path(uv, (#[trigger] edge_views(r@)[k]).1),
            forall|t: int| 0 <= t < head ==> node_options(uv, rv, #[trigger] queue@[t]) is Some,
            edge_views(r@) == emitted_edges(uv, rv, queue@, head as int),
            forall|k: int|
                0 <= k < edge_views(r@).len() ==> target_covered(
                    uv,
                    rv,
                    queue@,
                    (#[trigger] edge_views(r@)[k]).1,
                ),
        decreases nu + 1 - head,
    {
        proof {
            lemma_distinct_bounded(queue@, (nu + 1) as nat);
        }
        let v = queue[head];
        let vpath = if v < nu {
            units[v].path.clone()
        } else {
            root.path.clone()
        };
        proof {
            assert(vpath@ == node_path(uv, rv, v));
        }
        let contents_opt: Option<String> = if v < nu {
            match &units[v].options {
                Option::Some(c) => Option::Some(c.clone()),
                Option::None => Option::None,
            }
        } else {
            match &root.options {
                Option::Some(c) => Option::Some(c.clone()),
                Option::None => Option::None,
            }
        };
        let contents = match contents_opt {
            Option::Some(c) => c,
            Option::None => {
                proof {
                    lemma_options_of_node(uv, rv, v);
                }
                return Err(vpath);
            },
        };
        let deps = get_dependencies(contents.as_str());
        let mut fresh = resolve_unit_edges(&idx, &vpath, &deps);
        let ghost vpathv = vpath@;
        let ghost names = unit_deps(contents@);
        let ghost fv = edge_views(fresh@);
        let ghost ev0 = edge_views(r@);
        proof {
            assert(fv == resolved(idxv, vpathv, names));
            lemma_options_of_node(uv, rv, v);
            assert(node_options(uv, rv, v) == Option::Some(contents@));
            assert(edges_from(uv, rv, vpathv) == resolved(idxv, vpathv, names));
            assert(fv == edges_from(uv, rv, vpathv));
        }
        // enqueue every resolved directory not yet scheduled
        let nf = fresh.len();
        let mut fi: usize = 0;
        while fi < nf
            invariant
                fi <= nf,
                nf == fresh@.len(),
                fv == edge_views(fresh@),
                nu == units@.len(),
                uv == views_of(units@),
                rv == root@,
                idxv == index_spec(uv),
                forall|i: int, j: int| 0 <= i < j < uv.len() ==> uv[i].path != uv[j].path,
                visited@.len() == nu,
                head < queue@.len(),
                v == queue@[head as int],
                vpath@ == node_path(uv, rv, v),
                forall|t: int| 0 <= t < queue@.len() ==> (#[trigger] queue@[t]) <= nu,
                forall|t1: int, t2: int| 0 <= t1 < t2 < queue@.len() ==> queue@[t1] != queue@[t2],
                forall|t: int|
                    0 <= t < queue@.len() && (#[trigger] queue@[t]) == nu ==> t == 0 && !has_path(
                        uv,
                        rv.path,
                    ),
                node_path(uv, rv, queue@[0]) == rv.path,
                forall|j: usize| j < nu ==> (visited@[j as int] <==> queue@.contains(j)),
                forall|t: int|
                    0 <= t < queue@.len() ==> (node_path(uv, rv, (#[trigger] queue@[t]))
                        == rv.path || is_emitted_target(ev0, node_path(uv, rv, queue@[t])) || (
                    exists|k: int| 0 <= k < fi && (#[trigger] fv[k]).1 == node_path(
                        uv,
                        rv,
                        queue@[t],
                    ))),
                forall|k: int| 0 <= k < fv.len() ==> has_target(idxv, (#[trigger] fv[k]).1),
                ev0 == edge_views(r@),
                fv == edges_from(uv, rv, vpathv),
                vpathv == vpath@,
                edge_views(r@) == emitted_edges(uv, rv, queue@, head as int),
                forall|t: int| 0 <= t < head ==> node_options(uv, rv, #[trigger] queue@[t]) is Some,
                forall|k: int|
                    0 <= k < ev0.len() ==> target_covered(uv, rv, queue@, (#[trigger] ev0[k]).1),
                forall|k: int|
                    0 <= k < fi ==> target_covered(uv, rv, queue@, (#[trigger] fv[k]).1),
            decreases nf - fi,
        {
            let dj = find_path(units, &fresh[fi].1);
            proof {
                assert(fv[fi as int].1 == fresh@[fi as int].1@);
            }
            let j = match dj {
                Option::Some(j) => j,
                Option::None => {
                    proof {
                        lemma_target_is_path(uv, fv[fi as int].1);
                        assert(false);
                    }
                    0
                },
            };
            proof {
                assert(uv[j as int].path == fv[fi as int].1);
            }
            if !visited[j] {
                let ghost q0 = queue@;
                visited.set(j, true);
                queue.push(j);
                proof {
                    assert(queue@ =~= q0.push(j));
                    assert(!q0.contains(j));
                    assert forall|jj: usize| jj < nu implies (visited@[jj as int]
                        <==> queue@.contains(jj)) by {
                        if queue@.contains(jj) {
                            let t = choose|t: int| 0 <= t < queue@.len() && queue@[t] == jj;
                            if t < queue@.len() - 1 {
                                assert(q0[t] == jj);
                                assert(q0.contains(jj));
                            }
                        }
                        if visited@[jj as int] {
                            if jj != j {
                                assert(q0.contains(jj));
                                let t = choose|t: int| 0 <= t < q0.len() && q0[t] == jj;
                                assert(queue@[t] == jj);
                            } else {
                                assert(queue@[queue@.len() - 1] == jj);
                            }
                        }
                    }
                    assert(node_path(uv, rv, queue@[queue@.len() - 1]) == fv[fi as int].1);
                    lemma_emitted_prefix(uv, rv, q0, queue@, head as int);
                    assert(forall|t: int| 0 <= t < q0.len() ==> q0[t] == queue@[t]);
                    assert forall|k: int| 0 <= k < ev0.len() implies target_covered(
                        uv,
                        rv,
                        queue@,
                        (#[trigger] ev0[k]).1,
                    ) by {
                        lemma_covered_extend(uv, rv, q0, queue@, ev0[k].1);
                    }
                    assert forall|k: int| 0 <= k <= fi implies target_covered(
                        uv,
                        rv,
                        queue@,
                        (#[trigger] fv[k]).1,
                    ) by {
                        if k < fi {
                            lemma_covered_extend(uv, rv, q0, queue@, fv[k].1);
                        } else {
                            lemma_covered_intro(uv, rv, queue@, queue@.len() - 1, fv[k].1);
                        }
                    }
                }
            } else {
                proof {
                    assert(visited@[j as int]);
                    assert(queue@.contains(j));
                    let t = choose|t: int| 0 <= t < queue@.len() && queue@[t] == j;
                    assert(node_path(uv, rv, queue@[t]) == fv[fi as int].1);
                    lemma_covered_intro(uv, rv, queue@, t, fv[fi as int].1);
                }
            }
            fi = fi + 1;
        }
        // append this unit's edges to the graph
        let ghost rs = r@;
        let ghost fs = fresh@;
        r.append(&mut fresh);
        proof {
            assert(r@ == rs + fs);
            lemma_edge_views_concat(rs, fs);
            assert(edge_views(r@) == ev0 + fv);
            assert(node_path(uv, rv, queue@[head as int]) == vpathv);
            assert(vpathv == rv.path || is_emitted_target(ev0, vpathv));
            assert forall|t: int|
                0 <= t < queue@.len() implies (node_path(uv, rv, (#[trigger] queue@[t]))
                == rv.path || is_emitted_target(ev0, node_path(uv, rv, queue@[t]))
                || is_emitted_target(fv, node_path(uv, rv, queue@[t]))) by {
                if node_path(uv, rv, queue@[t]) != rv.path && !is_emitted_target(
                    ev0,
                    node_path(uv, rv, queue@[t]),
                ) {
                    let k = choose|k: int|
                        0 <= k < nf && (#[trigger] fv[k]).1 == node_path(uv, rv, queue@[t]);
                    lemma_target_intro(fv, node_path(uv, rv, queue@[t]), k);
                }
            }
            lemma_append_step(uv, rv, queue@, head as int, ev0, fv, edge_views(r@));
        }
        head = head + 1;
    }
    proof {
        let ev = edge_views(r@);
        let q = queue@;
        let h = q.len() as int;
        lemma_queue_paths_distinct(uv, rv, q);
        assert forall|p: Seq<char>|
            (p == rv.path || exists|k: int| 0 <= k < ev.len() && (#[trigger] ev[k]).1
                == p) implies #[trigger] by_source(ev, p) == edges_from(uv, rv, p) by {
            if p == rv.path {
                lemma_by_source_emitted(uv, rv, q, h, 0);
            } else {
                let k = choose|k: int| 0 <= k < ev.len() && ev[k].1 == p;
                lemma_covered_elim(uv, rv, q, ev[k].1);
                let t = choose|t: int| 0 <= t < q.len() && node_path(uv, rv, #[trigger] q[t]) == ev[k].1;
                lemma_by_source_emitted(uv, rv, q, h, t);
            }
        }
        assert(edge_list_complete(uv, rv, ev));
        assert(readable_options(uv, rv, rv.path)) by {
            lemma_options_of_node(uv, rv, q[0]);
            assert(node_options(uv, rv, q[0]) is Some);
        }
        assert forall|k: int| 0 <= k < ev.len() implies readable_options(
            uv,
            rv,
            (#[trigger] ev[k]).1,
        ) by {
            lemma_covered_elim(uv, rv, q, ev[k].1);
            let t = choose|t: int| 0 <= t < q.len() && node_path(uv, rv, #[trigger] q[t]) == ev[k].1;
            lemma_options_of_node(uv, rv, q[t]);
            assert(node_options(uv, rv, q[t]) is Some);
        }
    }
    Ok(r)
}

} // verus!
