//! The local installation scanner's decision logic.
//!
//! Enumerating the versions directory is I/O and happens outside this
//! crate; what arrives here is one candidate per subdirectory, saying
//! whether `<name>/<name>.jar` and `<name>/<name>.json` were found as
//! regular files.  A candidate is installed exactly when both exist; any
//! other combination is silently excluded, never an error.

use vstd::prelude::*;

use crate::catalog::has_name;
use crate::catalog::lemma_entry_push;
use crate::catalog::local_input_ok;
use crate::catalog::unique_names;
use crate::catalog::VersionEntry;

verus! {

/// One subdirectory of the versions root, as the caller found it on disk.
pub struct ScanCandidate {
    pub name: String,
    pub has_jar: bool,
    pub has_json: bool,
}

/// A candidate is a complete installation when both files exist.
pub open spec fn is_complete(c: ScanCandidate) -> bool {
    c.has_jar && c.has_json
}

/// The catalog rows a scan yields: one installed row per complete
/// candidate, in scan order.
pub open spec fn installed_entries(cs: Seq<ScanCandidate>) -> Seq<VersionEntry>
    decreases cs.len(),
{
    if cs.len() == 0 {
        Seq::empty()
    } else {
        let prefix = installed_entries(cs.drop_last());
        if is_complete(cs.last()) {
            prefix.push(VersionEntry { name: cs.last().name, installed: true })
        } else {
            prefix
        }
    }
}

/// Whether some candidate carries the name `n` and is complete.
pub open spec fn complete_candidate(cs: Seq<ScanCandidate>, n: Seq<char>) -> bool {
    exists|j: int| 0 <= j < cs.len() && cs[j].name@ == n && is_complete(cs[j])
}

/// No two candidates share a name (subdirectory names are unique).
pub open spec fn unique_candidate_names(cs: Seq<ScanCandidate>) -> bool {
    forall|i: int, j: int| 0 <= i < j < cs.len() ==> cs[i].name@ != cs[j].name@
}

/// Every row a scan yields is installed, and the rows' names are exactly
/// the names of the complete candidates.
pub proof fn lemma_installed_entries_props(cs: Seq<ScanCandidate>)
    ensures
        forall|i: int| 0 <= i < installed_entries(cs).len() ==> installed_entries(cs)[i].installed,
        forall|n: Seq<char>|
            #![trigger has_name(installed_entries(cs), n)]
            has_name(installed_entries(cs), n) <==> complete_candidate(cs, n),
    decreases cs.len(),
{
    if cs.len() > 0 {
        lemma_installed_entries_props(cs.drop_last());
        let prefix = installed_entries(cs.drop_last());
        if is_complete(cs.last()) {
            let e = VersionEntry { name: cs.last().name, installed: true };
            lemma_entry_push(prefix, e);
        }
        assert forall|n: Seq<char>| #![trigger has_name(installed_entries(cs), n)] has_name(
            installed_entries(cs),
            n,
        ) <==> complete_candidate(cs, n) by {
            if has_name(installed_entries(cs), n) {
                if complete_candidate(cs.drop_last(), n) {
                    let j = choose|j: int|
                        0 <= j < cs.drop_last().len() && cs.drop_last()[j].name@ == n
                            && is_complete(cs.drop_last()[j]);
                    assert(cs[j].name@ == n && is_complete(cs[j]));
                } else {
                    assert(n == cs.last().name@ && is_complete(cs.last()));
                    assert(cs[cs.len() - 1].name@ == n && is_complete(cs[cs.len() - 1]));
                }
            }
            if complete_candidate(cs, n) {
                let j = choose|j: int| 0 <= j < cs.len() && cs[j].name@ == n && is_complete(cs[j]);
                if j < cs.len() - 1 {
                    assert(cs.drop_last()[j].name@ == n && is_complete(cs.drop_last()[j]));
                    assert(complete_candidate(cs.drop_last(), n));
                } else {
                    assert(is_complete(cs.last()));
                }
            }
        }
    }
}

/// Candidates with unique names yield rows with unique names.
pub proof fn lemma_installed_entries_unique(cs: Seq<ScanCandidate>)
    requires
        unique_candidate_names(cs),
    ensures
        unique_names(installed_entries(cs)),
    decreases cs.len(),
{
    if cs.len() > 0 {
        assert forall|i: int, j: int| 0 <= i < j < cs.drop_last().len() implies cs.drop_last()[i].name@
            != cs.drop_last()[j].name@ by {
            assert(cs.drop_last()[i] == cs[i]);
            assert(cs.drop_last()[j] == cs[j]);
        }
        lemma_installed_entries_unique(cs.drop_last());
        lemma_installed_entries_props(cs.drop_last());
        let prefix = installed_entries(cs.drop_last());
        if is_complete(cs.last()) {
            if has_name(prefix, cs.last().name@) {
                let j = choose|j: int|
                    0 <= j < cs.drop_last().len() && cs.drop_last()[j].name@ == cs.last().name@
                        && is_complete(cs.drop_last()[j]);
                assert(cs[j].name@ == cs[cs.len() - 1].name@);
                assert(false);
            }
            let t = installed_entries(cs);
            assert(t == prefix.push(VersionEntry { name: cs.last().name, installed: true }));
            assert forall|i: int, j: int| 0 <= i < j < t.len() implies t[i].name@ != t[j].name@ by {
                if j < t.len() - 1 {
                    assert(t[i] == prefix[i] && t[j] == prefix[j]);
                } else {
                    assert(t[i] == prefix[i]);
                    if t[i].name@ == cs.last().name@ {
                        assert(has_name(prefix, cs.last().name@));
                        assert(false);
                    }
                }
            }
        }
    }
}

/// Keeps exactly the complete candidates, each as an installed catalog row,
/// in scan order.  When the candidate names are unique — subdirectory names
/// always are — the result is a valid local input for the merge.
#[verifier::loop_isolation(false)]
pub fn select_installed(cs: &Vec<ScanCandidate>) -> (r: Vec<VersionEntry>)
    ensures
        r@ == installed_entries(cs@),
        forall|i: int| 0 <= i < r@.len() ==> r@[i].installed,
        unique_candidate_names(cs@) ==> local_input_ok(r@),
{
    let mut out: Vec<VersionEntry> = Vec::new();
    let mut i: usize = 0;
    proof {
        assert(cs@.take(0) =~= Seq::<ScanCandidate>::empty());
    }
    while i < cs.len()
        invariant
            i <= cs@.len(),
            out@ == installed_entries(cs@.take(i as int)),
        decreases cs@.len() - i,
    {
        if cs[i].has_jar && cs[i].has_json {
            let e = VersionEntry { name: cs[i].name.clone(), installed: true };
            out.push(e);
        }
        proof {
            let t = cs@.take(i as int + 1);
            assert(t.drop_last() =~= cs@.take(i as int));
            assert(t.last() == cs@[i as int]);
        }
        i = i + 1;
    }
    proof {
        assert(cs@.take(cs@.len() as int) =~= cs@);
        lemma_installed_entries_props(cs@);
        if unique_candidate_names(cs@) {
            lemma_installed_entries_unique(cs@);
        }
    }
    out
}

} // verus!
