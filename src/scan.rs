//! The state that the verification workers of one generation run share: which
//! unit files were already picked up, the first failure, and how many units
//! passed.

use crate::naming::{
    decimal_value, is_unit_name, lemma_numbered_unique, numbered_with, sequence_number, unit_name_matches,
};
use vstd::prelude::*;

verus! {

/// The names held by `v`.
pub open spec fn names(v: Seq<String>) -> Set<Seq<char>> {
    Set::new(|n: Seq<char>| exists|i: int| 0 <= i < v.len() && #[trigger] v[i]@ == n)
}

/// Whether no two entries of `v` hold the same name.
pub open spec fn distinct_names(v: Seq<String>) -> bool {
    forall|i: int, j: int| 0 <= i < j < v.len() ==> #[trigger] v[i]@ != #[trigger] v[j]@
}

/// Whether the unit `name` lies below the start threshold `skip_below`: a
/// threshold of zero skips nothing; otherwise a unit whose sequence number is
/// lower than the threshold is skipped.
pub open spec fn below_start(name: Seq<char>, suffix: Seq<char>, skip_below: nat) -> bool {
    skip_below > 0 && exists|d: Seq<char>| #[trigger] numbered_with(name, suffix, d) && decimal_value(d) < skip_below
}

/// How the state of a run changes when one unit finishes verification: a
/// pass adds one to the tested count; a failure is recorded only when none was
/// recorded before.
pub open spec fn failure_after(failure: Option<Seq<char>>, path: Seq<char>, passed: bool) -> Option<Seq<char>> {
    if passed || failure is Some {
        failure
    } else {
        Some(path)
    }
}

proof fn lemma_names_push(v: Seq<String>, x: String)
    ensures
        names(v.push(x)) == names(v).insert(x@),
{
    assert forall|n: Seq<char>| names(v.push(x)).contains(n) <==> names(v).insert(x@).contains(n) by {
        if names(v).contains(n) {
            let j = choose|j: int| 0 <= j < v.len() && #[trigger] v[j]@ == n;
            assert(v.push(x)[j] == v[j]);
        }
        if n == x@ {
            assert(v.push(x)[v.len() as int] == x);
        }
        if names(v.push(x)).contains(n) {
            let j = choose|j: int| 0 <= j < v.push(x).len() && #[trigger] v.push(x)[j]@ == n;
            if j < v.len() {
                assert(v[j] == v.push(x)[j]);
            }
        }
    }
    assert(names(v.push(x)) =~= names(v).insert(x@));
}

/// How discovery over `listing` takes the state `pre` to `post` and hands out
/// `fresh`: every unit name of the listing is remembered as picked up; the
/// failure and the tested count stay; `fresh` holds, once each, exactly the
/// unit names of the listing that were not picked up before and do not lie
/// below the start threshold. Without a threshold, every newly picked-up name
/// is handed out.
pub open spec fn discovered(
    pre: ScanState,
    post: ScanState,
    fresh: Seq<String>,
    listing: Seq<String>,
    base: Seq<char>,
    suffix: Seq<char>,
    skip_below: nat,
) -> bool {
    &&& post.failure() == pre.failure()
    &&& post.tested_count() == pre.tested_count()
    &&& post.scanned_names() == pre.scanned_names().union(
        Set::new(|n: Seq<char>| names(listing).contains(n) && is_unit_name(n, base, suffix)),
    )
    &&& distinct_names(fresh)
    &&& forall|f: int|
        0 <= f < fresh.len() ==> {
            &&& names(listing).contains(#[trigger] fresh[f]@)
            &&& is_unit_name(fresh[f]@, base, suffix)
            &&& !pre.scanned_names().contains(fresh[f]@)
            &&& !below_start(fresh[f]@, suffix, skip_below)
        }
    &&& forall|n: Seq<char>|
        #![trigger names(listing).contains(n), names(fresh).contains(n)]
        names(listing).contains(n) && is_unit_name(n, base, suffix) && !pre.scanned_names().contains(n) && !below_start(
            n,
            suffix,
            skip_below,
        ) ==> names(fresh).contains(n)
    &&& skip_below == 0 ==> post.scanned_len() == pre.scanned_len() + fresh.len()
}

/// The failure slot after the outcomes `results` (path, passed) are recorded
/// one after the other, starting from `failure`.
pub open spec fn failure_after_all(failure: Option<Seq<char>>, results: Seq<(Seq<char>, bool)>) -> Option<Seq<char>>
    decreases results.len(),
{
    if results.len() == 0 {
        failure
    } else {
        failure_after(failure_after_all(failure, results.drop_last()), results.last().0, results.last().1)
    }
}

/// How many of the outcomes `results` are passes.
pub open spec fn passes(results: Seq<(Seq<char>, bool)>) -> nat
    decreases results.len(),
{
    if results.len() == 0 {
        0
    } else {
        passes(results.drop_last()) + if results.last().1 {
            1nat
        } else {
            0nat
        }
    }
}

proof fn lemma_failure_prefix(results: Seq<(Seq<char>, bool)>, k: int, m: int)
    requires
        0 <= k < results.len(),
        0 <= m <= results.len(),
        !results[k].1,
        forall|j: int| 0 <= j < results.len() && j != k ==> #[trigger] results[j].1,
    ensures
        failure_after_all(None, results.subrange(0, m)) == if m <= k {
            None
        } else {
            Some(results[k].0)
        },
    decreases m,
{
    if m > 0 {
        lemma_failure_prefix(results, k, m - 1);
        assert(results.subrange(0, m).drop_last() =~= results.subrange(0, m - 1));
    }
}

/// Whatever the order in which the workers record their outcomes, when exactly
/// one unit fails, its path is the failure that the run reports.
pub proof fn lemma_single_failure_is_recorded(results: Seq<(Seq<char>, bool)>, k: int)
    requires
        0 <= k < results.len(),
        !results[k].1,
        forall|j: int| 0 <= j < results.len() && j != k ==> #[trigger] results[j].1,
    ensures
        failure_after_all(None, results) == Some(results[k].0),
{
    lemma_failure_prefix(results, k, results.len() as int);
    assert(results.subrange(0, results.len() as int) =~= results);
}

/// When no unit fails, no failure is recorded and every outcome counts as a
/// tested unit.
pub proof fn lemma_all_passed_counts_every_unit(results: Seq<(Seq<char>, bool)>)
    requires
        forall|j: int| 0 <= j < results.len() ==> #[trigger] results[j].1,
    ensures
        failure_after_all(None, results) is None,
        passes(results) == results.len(),
    decreases results.len(),
{
    if results.len() > 0 {
        lemma_all_passed_counts_every_unit(results.drop_last());
        assert(results.last().1);
    }
}

/// Once a failure is recorded, no later outcome resets or replaces it.
pub proof fn lemma_failure_is_never_reset(first: Seq<char>, results: Seq<(Seq<char>, bool)>)
    ensures
        failure_after_all(Some(first), results) == Some(first),
    decreases results.len(),
{
    if results.len() > 0 {
        lemma_failure_is_never_reset(first, results.drop_last());
    }
}

/// Shared state of one generation run. The scanned names only grow; once a
/// failure is recorded it stays, and no later failure replaces it.
pub struct ScanState {
    scanned: Vec<String>,
    first_failure: Option<String>,
    tested: usize,
}

impl ScanState {
    /// The unit names picked up so far.
    pub closed spec fn scanned_names(&self) -> Set<Seq<char>> {
        names(self.scanned@)
    }

    /// How many unit names were picked up so far.
    pub closed spec fn scanned_len(&self) -> nat {
        self.scanned@.len()
    }

    /// The first failure, if any.
    pub closed spec fn failure(&self) -> Option<Seq<char>> {
        match self.first_failure {
            Some(p) => Some(p@),
            None => None,
        }
    }

    /// How many units passed.
    pub closed spec fn tested_count(&self) -> nat {
        self.tested as nat
    }

    /// Each name is picked up once.
    pub closed spec fn wf(&self) -> bool {
        distinct_names(self.scanned@)
    }

    /// The state at the start of a run.
    pub fn new() -> (r: ScanState)
        ensures
            r.wf(),
            r.scanned_names() == Set::<Seq<char>>::empty(),
            r.scanned_len() == 0,
            r.failure() is None,
            r.tested_count() == 0,
    {
        let r = ScanState { scanned: Vec::new(), first_failure: None, tested: 0 };
        assert(names(r.scanned@) =~= Set::<Seq<char>>::empty());
        r
    }

    /// Whether a failure was recorded.
    pub fn failed(&self) -> (r: bool)
        ensures
            r == self.failure() is Some,
    {
        self.first_failure.is_some()
    }

    /// The first recorded failure.
    pub fn first_failure(&self) -> (r: Option<String>)
        ensures
            r is Some == self.failure() is Some,
            r matches Some(p) ==> self.failure() == Some(p@),
    {
        match &self.first_failure {
            Some(p) => Some(p.clone()),
            None => None,
        }
    }

    /// How many units passed.
    pub fn tested(&self) -> (r: usize)
        ensures
            r == self.tested_count(),
    {
        self.tested
    }

    /// How many unit names were picked up.
    pub fn scanned_count(&self) -> (r: usize)
        ensures
            r == self.scanned_len(),
    {
        self.scanned.len()
    }

    fn is_scanned(&self, name: &String) -> (r: bool)
        ensures
            r == self.scanned_names().contains(name@),
    {
        let mut k: usize = 0;
        while k < self.scanned.len()
            invariant
                k <= self.scanned@.len(),
                forall|j: int| 0 <= j < k ==> self.scanned@[j]@ != name@,
            decreases self.scanned@.len() - k,
        {
            if self.scanned[k] == *name {
                assert(self.scanned@[k as int]@ == name@);
                return true;
            }
            k = k + 1;
        }
        false
    }

    /// Records that the unit at `path` finished verification, passing or not.
    /// Returns whether this call recorded the run's first failure.
    pub fn record_outcome(&mut self, path: &str, passed: bool) -> (won: bool)
        requires
            passed ==> old(self).tested_count() < usize::MAX,
        ensures
            won == (!passed && old(self).failure() is None),
            final(self).failure() == failure_after(old(self).failure(), path@, passed),
            final(self).tested_count() == old(self).tested_count() + if passed {
                1nat
            } else {
                0nat
            },
            final(self).scanned_names() == old(self).scanned_names(),
            final(self).scanned_len() == old(self).scanned_len(),
            final(self).wf() == old(self).wf(),
    {
        if passed {
            self.tested = self.tested + 1;
            false
        } else if self.first_failure.is_none() {
            self.first_failure = Some(String::from_str(path));
            true
        } else {
            false
        }
    }

    /// Picks up, from a listing of the output directory, the unit files of the
    /// run that were not picked up before, and returns those to verify: all of
    /// them but the ones below the start threshold. Every picked-up name is
    /// remembered, skipped or not, so no unit is handed out twice.
    pub fn discover(&mut self, listing: &Vec<String>, base: &str, suffix: &str, skip_below: usize) -> (fresh: Vec<
        String,
    >)
        requires
            old(self).wf(),
        ensures
            final(self).wf(),
            discovered(*old(self), *final(self), fresh@, listing@, base@, suffix@, skip_below as nat),
    {
        let ghost old_names = names(self.scanned@);
        let ghost old_len = self.scanned@.len();
        let mut fresh: Vec<String> = Vec::new();
        let mut i: usize = 0;
        while i < listing.len()
            invariant
                i <= listing@.len(),
                distinct_names(self.scanned@),
                distinct_names(fresh@),
                self.failure() == old(self).failure(),
                self.tested_count() == old(self).tested_count(),
                old_names == old(self).scanned_names(),
                old_len == old(self).scanned_len(),
                names(self.scanned@) == old_names.union(
                    Set::new(
                        |n: Seq<char>| names(listing@.subrange(0, i as int)).contains(n) && is_unit_name(n, base@, suffix@),
                    ),
                ),
                forall|f: int|
                    0 <= f < fresh@.len() ==> {
                        &&& names(listing@).contains(#[trigger] fresh@[f]@)
                        &&& is_unit_name(fresh@[f]@, base@, suffix@)
                        &&& !old_names.contains(fresh@[f]@)
                        &&& names(self.scanned@).contains(fresh@[f]@)
                        &&& !below_start(fresh@[f]@, suffix@, skip_below as nat)
                    },
                forall|k: int|
                    0 <= k < i ==> (is_unit_name(#[trigger] listing@[k]@, base@, suffix@) && !old_names.contains(
                        listing@[k]@,
                    ) && !below_start(listing@[k]@, suffix@, skip_below as nat) ==> names(fresh@).contains(
                        listing@[k]@,
                    )),
                skip_below == 0 ==> self.scanned@.len() == old_len + fresh@.len(),
            decreases listing@.len() - i,
        {
            let name = &listing[i];
            let ghost prev_scanned = self.scanned@;
            let ghost prev_fresh = fresh@;
            proof {
                assert(listing@.subrange(0, i + 1) =~= listing@.subrange(0, i as int).push(listing@[i as int]));
                lemma_names_push(listing@.subrange(0, i as int), listing@[i as int]);
                assert(names(listing@).contains(name@)) by {
                    assert(listing@[i as int]@ == name@);
                }
            }
            let is_unit = unit_name_matches(name.as_str(), base, suffix);
            if !is_unit {
                proof {
                    assert(names(self.scanned@) =~= old_names.union(
                        Set::new(
                            |n: Seq<char>| names(listing@.subrange(0, i + 1)).contains(n) && is_unit_name(n, base@, suffix@),
                        ),
                    ));
                }
            } else if self.is_scanned(name) {
                proof {
                    assert(names(self.scanned@) =~= old_names.union(
                        Set::new(
                            |n: Seq<char>| names(listing@.subrange(0, i + 1)).contains(n) && is_unit_name(n, base@, suffix@),
                        ),
                    ));
                    if !old_names.contains(name@) && !below_start(name@, suffix@, skip_below as nat) {
                        let sub = listing@.subrange(0, i as int);
                        assert(names(sub).contains(name@));
                        let j = choose|j: int| 0 <= j < sub.len() && #[trigger] sub[j]@ == name@;
                        assert(listing@[j] == sub[j]);
                        assert(is_unit_name(listing@[j]@, base@, suffix@));
                    }
                }
            } else {
                let copy = name.clone();
                self.scanned.push(copy);
                proof {
                    lemma_names_push(prev_scanned, *name);
                    assert forall|a: int, b: int| 0 <= a < b < self.scanned@.len() implies #[trigger] self.scanned@[a]@
                        != #[trigger] self.scanned@[b]@ by {
                        if b == self.scanned@.len() - 1 {
                            assert(self.scanned@[b]@ == name@);
                            assert(self.scanned@[a] == prev_scanned[a]);
                        } else {
                            assert(self.scanned@[a] == prev_scanned[a]);
                            assert(self.scanned@[b] == prev_scanned[b]);
                        }
                    }
                    assert(names(self.scanned@) =~= old_names.union(
                        Set::new(
                            |n: Seq<char>| names(listing@.subrange(0, i + 1)).contains(n) && is_unit_name(n, base@, suffix@),
                        ),
                    ));
                }
                let skip = if skip_below > 0 {
                    let sn = sequence_number(name.as_str(), suffix);
                    proof {
                        match sn {
                            Some(v) => {
                                let d0 = choose|d: Seq<char>| numbered_with(name@, suffix@, d) && decimal_value(d) == v;
                                assert forall|d: Seq<char>| #[trigger] numbered_with(name@, suffix@, d) implies decimal_value(d)
                                    == v by {
                                    lemma_numbered_unique(name@, suffix@, d, d0);
                                }
                                if v < skip_below {
                                    assert(numbered_with(name@, suffix@, d0) && decimal_value(d0) < skip_below);
                                }
                            },
                            None => {},
                        }
                    }
                    match sn {
                        Some(v) => v < skip_below,
                        None => false,
                    }
                } else {
                    false
                };
                assert(skip == below_start(name@, suffix@, skip_below as nat));
                if !skip {
                    fresh.push(name.clone());
                    proof {
                        lemma_names_push(prev_fresh, *name);
                        assert forall|a: int, b: int| 0 <= a < b < fresh@.len() implies #[trigger] fresh@[a]@
                            != #[trigger] fresh@[b]@ by {
                            if b == fresh@.len() - 1 {
                                assert(fresh@[a] == prev_fresh[a]);
                                assert(names(prev_scanned).contains(prev_fresh[a]@));
                            } else {
                                assert(fresh@[a] == prev_fresh[a]);
                                assert(fresh@[b] == prev_fresh[b]);
                            }
                        }
                        assert forall|f: int| 0 <= f < fresh@.len() implies names(self.scanned@).contains(#[trigger] fresh@[f]@) by {
                            if f < prev_fresh.len() {
                                assert(fresh@[f] == prev_fresh[f]);
                            }
                        }
                    }
                }
            }
            i = i + 1;
        }
        assert(listing@.subrange(0, i as int) =~= listing@);
        fresh
    }
}

} // verus!
