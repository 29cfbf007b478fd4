use vstd::prelude::*;
use vstd::utf8::encode_utf8;

use crate::pythons::{executable_version, managed_version, ranks_above, version_matches, Python};
use crate::specs::Spec;

verus! {

/// One directory's listing as read by the caller: for each entry, its file
/// name and the location of its interpreter.
pub type Listing = Vec<(String, String)>;

/// The version that an entry named `name` reads as: as a managed
/// installation, or as an executable in a searched directory.
pub open spec fn entry_version(name: String, managed: bool) -> Option<crate::pythons::Version> {
    if managed {
        managed_version(encode_utf8(name@))
    } else {
        executable_version(encode_utf8(name@))
    }
}

/// The candidates among `entries`, in listing order, each with ordinal
/// `order`; entries whose names read as no version are left out.
pub open spec fn from_entries(entries: Seq<(String, String)>, order: int, managed: bool) -> Seq<
    Python,
>
    decreases entries.len(),
{
    if entries.len() == 0 {
        Seq::empty()
    } else {
        let rest = from_entries(entries.drop_last(), order, managed);
        let (name, location) = entries.last();
        match entry_version(name, managed) {
            Some(v) => rest.push(Python { location, version: v, order: order as usize }),
            None => rest,
        }
    }
}

/// The candidates of the directories `dirs`, in order; the `k`-th directory
/// has ordinal `first + k`, shared by all its candidates.
pub open spec fn from_directories(dirs: Seq<Listing>, first: int, managed: bool) -> Seq<Python>
    decreases dirs.len(),
{
    if dirs.len() == 0 {
        Seq::empty()
    } else {
        from_directories(dirs.drop_last(), first, managed) + from_entries(
            dirs.last()@,
            first + dirs.len() - 1,
            managed,
        )
    }
}

/// What discovery finds: the managed roots' candidates with ordinals from
/// zero in the order the roots are given, then the searched directories'
/// candidates with the following ordinals in path order.
pub open spec fn discovered(managed: Seq<Listing>, in_path: Seq<Listing>) -> Seq<Python> {
    from_directories(managed, 0, true) + from_directories(in_path, managed.len() as int, false)
}

proof fn lemma_entry_ordinals(entries: Seq<(String, String)>, order: int, managed: bool)
    requires
        0 <= order <= usize::MAX,
    ensures
        forall|i: int|
            0 <= i < from_entries(entries, order, managed).len() ==> (#[trigger] from_entries(
                entries,
                order,
                managed,
            )[i]).order == order,
    decreases entries.len(),
{
    if entries.len() > 0 {
        let rest = from_entries(entries.drop_last(), order, managed);
        lemma_entry_ordinals(entries.drop_last(), order, managed);
        let (name, location) = entries.last();
        if let Some(v) = entry_version(name, managed) {
            let p = Python { location, version: v, order: order as usize };
            assert(p.order == order);
            assert forall|i: int| 0 <= i < rest.push(p).len() implies (#[trigger] rest.push(
                p,
            )[i]).order == order by {
                if i < rest.len() {
                    assert(rest.push(p)[i] == rest[i]);
                }
            }
        }
    }
}

proof fn lemma_directory_ordinals(dirs: Seq<Listing>, first: int, managed: bool)
    requires
        0 <= first,
        first + dirs.len() <= usize::MAX,
    ensures
        forall|i: int|
            0 <= i < from_directories(dirs, first, managed).len() ==> first <= (
            #[trigger] from_directories(dirs, first, managed)[i]).order < first + dirs.len(),
    decreases dirs.len(),
{
    if dirs.len() > 0 {
        let head = from_directories(dirs.drop_last(), first, managed);
        let tail = from_entries(dirs.last()@, first + dirs.len() - 1, managed);
        lemma_directory_ordinals(dirs.drop_last(), first, managed);
        lemma_entry_ordinals(dirs.last()@, first + dirs.len() - 1, managed);
        assert forall|i: int| 0 <= i < (head + tail).len() implies first <= (#[trigger] (head
            + tail)[i]).order < first + dirs.len() by {
            if i >= head.len() {
                assert((head + tail)[i] == tail[i - head.len()]);
            } else {
                assert((head + tail)[i] == head[i]);
            }
        }
    }
}

/// Ordinals follow the sources: every candidate of a managed root has an
/// ordinal below the number of roots, every candidate of a searched
/// directory one at or above it, and the `k`-th directory of either kind
/// gives all its candidates the same ordinal (see `from_directories`).
pub proof fn managed_ordinals_come_first(managed: Seq<Listing>, in_path: Seq<Listing>)
    requires
        managed.len() + in_path.len() <= usize::MAX,
    ensures
        ({
            let m = from_directories(managed, 0, true);
            let r = discovered(managed, in_path);
            &&& forall|i: int| 0 <= i < m.len() ==> (#[trigger] r[i]).order < managed.len()
            &&& forall|i: int|
                m.len() <= i < r.len() ==> managed.len() <= (#[trigger] r[i]).order < managed.len()
                    + in_path.len()
        }),
{
    let m = from_directories(managed, 0, true);
    let p = from_directories(in_path, managed.len() as int, false);
    lemma_directory_ordinals(managed, 0, true);
    lemma_directory_ordinals(in_path, managed.len() as int, false);
    assert forall|i: int| 0 <= i < m.len() implies (#[trigger] (m + p)[i]).order
        < managed.len() by {
        assert((m + p)[i] == m[i]);
    }
    assert forall|i: int| m.len() <= i < (m + p).len() implies managed.len() <= (
    #[trigger] (m + p)[i]).order < managed.len() + in_path.len() by {
        assert((m + p)[i] == p[i - m.len()]);
    }
}

/// A directory that could not be read, given as an empty listing, adds no
/// candidate: the directories before it find what they find without it.
pub proof fn unreadable_directory_adds_nothing(dirs: Seq<Listing>, first: int, managed: bool)
    ensures
        forall|d: Listing|
            d@.len() == 0 ==> from_directories(dirs.push(d), first, managed) == from_directories(
                dirs,
                first,
                managed,
            ),
{
    assert forall|d: Listing| d@.len() == 0 implies from_directories(
        dirs.push(d),
        first,
        managed,
    ) == from_directories(dirs, first, managed) by {
        assert(dirs.push(d).drop_last() =~= dirs);
        assert(from_directories(dirs, first, managed) + Seq::<Python>::empty() =~= from_directories(
            dirs,
            first,
            managed,
        ));
    }
}

/// Appends to `found` the candidates of `dirs`, numbered from `first`.
fn collect_from(dirs: Vec<Listing>, first: usize, managed: bool, found: &mut Vec<Python>)
    requires
        first + dirs@.len() <= usize::MAX,
    ensures
        final(found)@ == old(found)@ + from_directories(dirs@, first as int, managed),
{
    let ghost ds = dirs@;
    let ghost start = found@;
    let mut order: usize = first;
    for dir in it: dirs.into_iter()
        invariant
            it.seq() == ds,
            first + ds.len() <= usize::MAX,
            order == first + it.index(),
            found@ == start + from_directories(ds.take(it.index() as int), first as int, managed),
    {
        let ghost k = order - first;
        let ghost before = found@;
        let ghost es = dir@;
        proof {
            assert(ds.take(k + 1).drop_last() =~= ds.take(k));
            assert(ds[k] == dir);
        }
        for entry in jt: dir.into_iter()
            invariant
                jt.seq() == es,
                order == first + k,
                found@ == before + from_entries(es.take(jt.index() as int), order as int, managed),
        {
            let ghost j = jt.index();
            proof {
                assert(es.take(j + 1).drop_last() =~= es.take(j));
                assert(es[j] == entry);
            }
            let (name, location) = entry;
            let candidate = if managed {
                Python::from_managed(name.as_str(), location, order)
            } else {
                Python::from_in_path(name.as_str(), location, order)
            };
            if let Some(p) = candidate {
                found.push(p);
            }
            proof {
                assert(found@ =~= before + from_entries(es.take(j + 1), order as int, managed));
            }
        }
        proof {
            assert(es.take(es.len() as int) =~= es);
            assert(found@ =~= start + from_directories(ds.take(k + 1), first as int, managed));
        }
        order = order + 1;
    }
    proof {
        assert(ds.take(ds.len() as int) =~= ds);
    }
}

/// The candidates in directory listings read by the caller. Each listing
/// holds one directory's (file name, interpreter location) pairs; a managed
/// root lists only entries whose interpreter file exists. A directory that
/// could not be read is an empty listing.
pub fn collect_all(managed: Vec<Listing>, in_path: Vec<Listing>) -> (r: Vec<Python>)
    requires
        managed@.len() + in_path@.len() <= usize::MAX,
    ensures
        r@ == discovered(managed@, in_path@),
{
    let mut found: Vec<Python> = Vec::new();
    let n = managed.len();
    collect_from(managed, 0, true, &mut found);
    collect_from(in_path, n, false, &mut found);
    proof {
        assert(found@ =~= discovered(managed@, in_path@));
    }
    found
}

/// Whether `spec` (none: any version) lets `p` take part in the selection.
pub open spec fn admits(spec: Option<Spec>, p: Python) -> bool {
    match spec {
        None => true,
        Some(s) => version_matches(p.version, s),
    }
}

/// `r` is what a search of `cands` for `spec` selects: the first admitted
/// candidate that no admitted candidate ranks above, or nothing when no
/// candidate is admitted.
pub open spec fn is_selection(cands: Seq<Python>, spec: Option<Spec>, r: Option<Python>) -> bool {
    match r {
        None => forall|j: int| 0 <= j < cands.len() ==> !admits(spec, #[trigger] cands[j]),
        Some(p) => exists|i: int|
            0 <= i < cands.len() && cands[i] == p && admits(spec, p) && (forall|j: int|
                0 <= j < cands.len() && admits(spec, #[trigger] cands[j]) ==> !ranks_above(
                    cands[j],
                    p,
                )) && (forall|j: int|
                0 <= j < i && admits(spec, #[trigger] cands[j]) ==> ranks_above(p, cands[j])),
    }
}

/// The location of what `is_selection` selects.
pub open spec fn selected_location(
    cands: Seq<Python>,
    spec: Option<Spec>,
    r: Option<String>,
) -> bool {
    exists|b: Option<Python>|
        is_selection(cands, spec, b) && match (r, b) {
            (None, None) => true,
            (Some(l), Some(p)) => l@ == p.location@,
            _ => false,
        }
}

/// Keeps the preferred of the best so far and the next interpreter; on a
/// tie the best so far stays.
pub fn select_best(best: Option<Python>, next: Python) -> (r: Option<Python>)
    ensures
        r == Some(
            match best {
                None => next,
                Some(p) => if ranks_above(next, p) {
                    next
                } else {
                    p
                },
            },
        ),
{
    match best {
        None => Some(next),
        Some(p) => if next.ranks_above(&p) {
            Some(next)
        } else {
            Some(p)
        },
    }
}

/// Picks the interpreter to run among `candidates`: of those that `spec`
/// admits, the highest version, and of equal versions the one found first.
pub fn select(candidates: Vec<Python>, spec: Option<Spec>) -> (r: Option<Python>)
    ensures
        is_selection(candidates@, spec, r),
{
    let ghost cands = candidates@;
    let mut best: Option<Python> = None;
    let ghost mut k: int = 0;
    for p in it: candidates.into_iter()
        invariant
            it.seq() == cands,
            k == it.index(),
            is_selection(cands.take(k), spec, best),
    {
        let ghost prev = best;
        let admitted = match spec {
            None => true,
            Some(s) => p.matches(&s),
        };
        proof {
            assert(cands[k] == p);
            assert(admitted == admits(spec, p));
        }
        if admitted {
            best = select_best(best, p);
        }
        proof {
            let q = cands.take(k);
            let q1 = cands.take(k + 1);
            assert(q1 =~= q.push(p));
            assert forall|j: int| 0 <= j < k implies q1[j] == #[trigger] q[j] by {}
            match prev {
                None => {
                    if admitted {
                        assert(q1[k] == p);
                    }
                },
                Some(b) => {
                    let i = choose|i: int|
                        0 <= i < q.len() && q[i] == b && admits(spec, b) && (forall|j: int|
                            0 <= j < q.len() && admits(spec, #[trigger] q[j]) ==> !ranks_above(
                                q[j],
                                b,
                            )) && (forall|j: int|
                            0 <= j < i && admits(spec, #[trigger] q[j]) ==> ranks_above(b, q[j]));
                    if admitted && ranks_above(p, b) {
                        assert(q1[k] == p);
                    } else {
                        assert(q1[i] == b);
                    }
                },
            }
            k = k + 1;
        }
    }
    proof {
        assert(cands.take(k) =~= cands);
    }
    best
}

/// The location of the interpreter that `spec` selects among `candidates`.
pub fn find(candidates: Vec<Python>, spec: &Spec) -> (r: Option<String>)
    ensures
        selected_location(candidates@, Some(*spec), r),
{
    let best = select(candidates, Some(*spec));
    match best {
        Some(p) => Some(p.location),
        None => None,
    }
}

/// The interpreter to run when no version is asked for: that of the active
/// virtual environment if there is one, else the best of all `candidates`.
pub fn find_default(virtual_env: Option<String>, candidates: Vec<Python>) -> (r: Option<String>)
    ensures
        virtual_env is Some ==> r == virtual_env,
        virtual_env is None ==> selected_location(candidates@, None, r),
{
    if let Some(v) = virtual_env {
        return Some(v);
    }
    let best = select(candidates, None);
    match best {
        Some(p) => Some(p.location),
        None => None,
    }
}

/// Of two interpreters where one is preferred to the other, a search that
/// admits both selects the preferred one, in whichever order they were found.
pub proof fn preferred_of_two_is_selected(a: Python, b: Python, spec: Option<Spec>, r: Option<Python>)
    requires
        ranks_above(a, b),
        admits(spec, a),
        admits(spec, b),
        is_selection(seq![a, b], spec, r) || is_selection(seq![b, a], spec, r),
    ensures
        r == Some(a),
{
    let c1 = seq![a, b];
    let c2 = seq![b, a];
    if is_selection(c1, spec, r) {
        assert(c1[0] == a);
        assert(!admits(spec, c1[0]) ==> false);
    } else {
        assert(c2[1] == a);
        assert(!admits(spec, c2[1]) ==> false);
    }
}

/// With no candidates at all, nothing is selected, whatever is asked for.
pub proof fn no_candidates_select_nothing(spec: Option<Spec>, r: Option<Python>)
    requires
        is_selection(Seq::empty(), spec, r),
    ensures
        r is None,
{
}

/// A search selects one result at most: `is_selection` determines it.
pub proof fn selection_is_unique(
    cands: Seq<Python>,
    spec: Option<Spec>,
    r1: Option<Python>,
    r2: Option<Python>,
)
    requires
        is_selection(cands, spec, r1),
        is_selection(cands, spec, r2),
    ensures
        r1 == r2,
{
    if r1 is Some && r2 is Some {
        let first = r1->0;
        let second = r2->0;
        let i1 = choose|i: int|
            0 <= i < cands.len() && cands[i] == first && admits(spec, first) && (forall|j: int|
                0 <= j < cands.len() && admits(spec, #[trigger] cands[j]) ==> !ranks_above(
                    cands[j],
                    first,
                )) && (forall|j: int|
                0 <= j < i && admits(spec, #[trigger] cands[j]) ==> ranks_above(first, cands[j]));
        let i2 = choose|i: int|
            0 <= i < cands.len() && cands[i] == second && admits(spec, second) && (forall|j: int|
                0 <= j < cands.len() && admits(spec, #[trigger] cands[j]) ==> !ranks_above(
                    cands[j],
                    second,
                )) && (forall|j: int|
                0 <= j < i && admits(spec, #[trigger] cands[j]) ==> ranks_above(second, cands[j]));
        assert(!ranks_above(cands[i1], second));
        assert(!ranks_above(cands[i2], first));
        if i1 < i2 {
            assert(ranks_above(second, cands[i1]));
        } else if i2 < i1 {
            assert(ranks_above(first, cands[i2]));
        }
    } else if r1 is Some {
        let first = r1->0;
        let i1 = choose|i: int| 0 <= i < cands.len() && cands[i] == first && admits(spec, first);
        assert(!admits(spec, cands[i1]));
    } else if r2 is Some {
        let second = r2->0;
        let i2 = choose|i: int| 0 <= i < cands.len() && cands[i] == second && admits(spec, second);
        assert(!admits(spec, cands[i2]));
    }
}
} // verus!
