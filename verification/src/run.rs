//! Applying a whole map of payloads, and judging the failures that result.

use vstd::prelude::*;

use crate::entries::Entries;
use crate::order::{lemma_name_order, name_le, name_lt, str_lt};
use crate::patcher::{failure_views, ElfSymtabPatcher, FailureView, PatchFailure, PatcherView};
use crate::site::PatchFailureReason;

verus! {

/// Why a run over a whole map of payloads is refused.
#[derive(Clone, Debug, PartialEq, Eq)]
pub enum RunError {
    /// A payload could not be written over a symbol that exists: the first such failure.
    Patch(PatchFailure),
    /// Names that match no object symbol, in ascending order (a name asked
    /// for more than once occurs as often).
    UnknownKeys(Vec<String>),
}

/// The state after asking for each pair of `pairs` in turn.
pub open spec fn patched_all(p: PatcherView, pairs: Seq<(Seq<char>, Seq<u8>)>) -> PatcherView
    decreases pairs.len(),
{
    if pairs.len() == 0 {
        p
    } else {
        patched_all(p, pairs.drop_last()).patched(pairs.last().0, pairs.last().1)
    }
}

/// Asks `patcher` to write each payload of `entries` over the symbol of its
/// name, in the map's order.
pub fn patch_all(patcher: &mut ElfSymtabPatcher, entries: &Entries)
    ensures
        final(patcher)@ == patched_all(old(patcher)@, entries@),
{
    let n = entries.len();
    let mut i: usize = 0;
    while i < n
        invariant
            n == entries@.len(),
            i <= n,
            patcher@ == patched_all(old(patcher)@, entries@.subrange(0, i as int)),
        decreases n - i,
    {
        let (name, bytes) = entries.entry(i);
        proof {
            let pre = entries@.subrange(0, i + 1);
            assert(pre.drop_last() =~= entries@.subrange(0, i as int));
            assert(pre.last() == entries@[i as int]);
        }
        patcher.patch_symbol(name.as_str(), bytes.0.as_slice());
        i = i + 1;
    }
    proof {
        assert(entries@.subrange(0, n as int) =~= entries@);
    }
}

/// The names of the `NotFound` failures, in order.
pub open spec fn unknown_names(f: Seq<FailureView>) -> Seq<Seq<char>>
    decreases f.len(),
{
    if f.len() == 0 {
        Seq::empty()
    } else if f.last().reason == PatchFailureReason::NotFound {
        unknown_names(f.drop_last()).push(f.last().symbol_name)
    } else {
        unknown_names(f.drop_last())
    }
}

/// `f[i]` is the first failure that is not a `NotFound`.
pub open spec fn first_fatal(f: Seq<FailureView>, i: int) -> bool {
    &&& 0 <= i < f.len()
    &&& f[i].reason != PatchFailureReason::NotFound
    &&& forall|j: int| 0 <= j < i ==> (#[trigger] f[j]).reason == PatchFailureReason::NotFound
}

/// Some failure is not a `NotFound`.
pub open spec fn has_fatal(f: Seq<FailureView>) -> bool {
    exists|i: int| #[trigger] first_fatal(f, i)
}

/// Each name of `s` is at most the names after it.
pub open spec fn names_sorted(s: Seq<Seq<char>>) -> bool {
    forall|i: int, j: int| 0 <= i < j < s.len() ==> name_le(#[trigger] s[i], #[trigger] s[j])
}

/// Judges the failures of a run: a failure on a symbol that exists is fatal,
/// and the first one is reported; otherwise names that matched no symbol are
/// reported, sorted; otherwise the run succeeded.
pub fn check_failures(failures: &[PatchFailure]) -> (r: Result<(), RunError>)
    ensures
        r matches Err(RunError::Patch(f)) ==> exists|i: int| #[trigger] first_fatal(failure_views(failures@), i) && f@ == failures@[i]@,
        has_fatal(failure_views(failures@)) ==> r matches Err(RunError::Patch(_)),
        r matches Err(RunError::UnknownKeys(keys)) ==> {
            &&& keys@.len() > 0
            &&& names_sorted(keys@.map_values(|k: String| k@))
            &&& keys@.map_values(|k: String| k@).to_multiset() == unknown_names(failure_views(failures@)).to_multiset()
        },
        r is Ok ==> unknown_names(failure_views(failures@)).len() == 0,
        (unknown_names(failure_views(failures@)).len() > 0 && !has_fatal(failure_views(failures@))) ==> r matches Err(RunError::UnknownKeys(_)),
{
    let ghost fv = failure_views(failures@);
    let mut keys: Vec<String> = Vec::new();
    let n = failures.len();
    let mut i: usize = 0;
    proof {
        assert(keys@.map_values(|k: String| k@) =~= Seq::<Seq<char>>::empty());
        assert(fv.subrange(0, 0) =~= Seq::<FailureView>::empty());
    }
    while i < n
        invariant
            n == failures@.len(),
            fv == failure_views(failures@),
            i <= n,
            forall|j: int| 0 <= j < i ==> (#[trigger] fv[j]).reason == PatchFailureReason::NotFound,
            names_sorted(keys@.map_values(|k: String| k@)),
            keys@.map_values(|k: String| k@).to_multiset() == unknown_names(fv.subrange(0, i as int)).to_multiset(),
            keys@.len() == unknown_names(fv.subrange(0, i as int)).len(),
        decreases n - i,
    {
        let f = &failures[i];
        assert(fv[i as int] == f@);
        proof {
            let pre = fv.subrange(0, i + 1);
            assert(pre.drop_last() =~= fv.subrange(0, i as int));
            assert(pre.last() == f@);
        }
        match f.reason {
            PatchFailureReason::NotFound => {
                let ghost before = keys@.map_values(|k: String| k@);
                let name = &f.symbol_name;
                let m = keys.len();
                let mut p: usize = 0;
                while p < m && !str_lt(name.as_str(), keys[p].as_str())
                    invariant
                        m == keys@.len(),
                        p <= m,
                        before == keys@.map_values(|k: String| k@),
                        forall|j: int| 0 <= j < p ==> name_le(#[trigger] before[j], name@),
                    decreases m - p,
                {
                    assert(before[p as int] == keys@[p as int]@);
                    p = p + 1;
                }
                keys.insert(p, name.clone());
                proof {
                    let after = keys@.map_values(|k: String| k@);
                    assert(after =~= before.insert(p as int, name@));
                    assert forall|a: int, b: int| 0 <= a < b < after.len() implies name_le(#[trigger] after[a], #[trigger] after[b]) by {
                        if a < p && b == p {
                            assert(after[a] == before[a]);
                            assert(after[b] == name@);
                        } else if a < p && b > p {
                            assert(after[a] == before[a]);
                            assert(after[b] == before[b - 1]);
                            assert(name_le(before[a], before[b - 1]));
                        } else if a == p && b > p {
                            assert(after[a] == name@);
                            assert(name_lt(name@, before[p as int]));
                            lemma_name_order(name@, before[p as int], before[p as int]);
                            assert(after[b] == before[b - 1]);
                            if b - 1 > p {
                                assert(name_le(before[p as int], before[b - 1]));
                                lemma_name_order(before[b - 1], name@, before[p as int]);
                            }
                        } else if a > p {
                            assert(after[a] == before[a - 1]);
                            assert(after[b] == before[b - 1]);
                            assert(name_le(before[a - 1], before[b - 1]));
                        } else {
                            assert(after[a] == before[a]);
                            assert(after[b] == before[b]);
                        }
                    }
                    vstd::seq_lib::to_multiset_insert(before, p as int, name@);
                    vstd::seq_lib::to_multiset_build(unknown_names(fv.subrange(0, i as int)), name@);
                }
            },
            _ => {
                let fatal = PatchFailure { symbol_name: f.symbol_name.clone(), reason: f.reason };
                assert(first_fatal(fv, i as int));
                return Err(RunError::Patch(fatal));
            },
        }
        i = i + 1;
    }
    proof {
        assert(fv.subrange(0, n as int) =~= fv);
        assert forall|i: int| !#[trigger] first_fatal(fv, i) by {
            if 0 <= i < n {
                assert(fv[i].reason == PatchFailureReason::NotFound);
            }
        }
    }
    if keys.len() > 0 {
        Err(RunError::UnknownKeys(keys))
    } else {
        Ok(())
    }
}

} // verus!
