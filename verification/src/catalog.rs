//! The catalog: rows of `(version name, installed)` and the merge of the
//! locally scanned installations with the remotely published version list.
//!
//! `merge` is the heart of the engine: it filters the remote summaries to
//! the stable release channel, keeps every local entry untouched (local
//! installed state always wins), appends each new remote name as a
//! not-installed row, and returns the rows sorted by name.  Its contract,
//! `merged_catalog`, pins the result completely: which names appear, which
//! of them are installed, and in what order they stand.

use vstd::prelude::*;

use crate::text_order::lemma_lex_lt_connected;
use crate::text_order::lemma_lex_lt_irreflexive;
use crate::text_order::lemma_lex_lt_transitive;
use crate::text_order::lex_lt;
use crate::text_order::str_lt;

verus! {

/// One row of the merged catalog: a version name, unique within a catalog,
/// and whether a complete local installation of that version exists.
pub struct VersionEntry {
    pub name: String,
    pub installed: bool,
}

impl Clone for VersionEntry {
    fn clone(&self) -> (r: Self)
        ensures
            r == *self,
    {
        VersionEntry { name: self.name.clone(), installed: self.installed }
    }
}

/// One version as the remote service publishes it: its name, its release
/// channel (the original JSON field is called `type`), the location of the
/// detailed manifest, and two timestamps that nothing downstream reads yet.
pub struct Version {
    pub id: String,
    pub kind: String,
    pub url: String,
    pub time: String,
    pub release_time: String,
}

/// The `latest` block of the published version list.
pub struct Latest {
    pub release: String,
    pub snapshot: String,
}

/// The whole published version list: the latest names and one summary per
/// publishable version.
pub struct VersionManifest {
    pub latest: Latest,
    pub versions: Vec<Version>,
}

/// The one release channel admitted into the catalog for fresh installs.
pub open spec fn release_channel() -> Seq<char> {
    "release"@
}

/// Whether a remote summary belongs to the stable release channel.
pub open spec fn is_release(v: Version) -> bool {
    v.kind@ == release_channel()
}

/// Whether some row of `s` carries the name `n`.
pub open spec fn has_name(s: Seq<VersionEntry>, n: Seq<char>) -> bool {
    exists|i: int| 0 <= i < s.len() && s[i].name@ == n
}

/// Whether some row of `s` carries the name `n` with this installed flag.
pub open spec fn has_entry(s: Seq<VersionEntry>, n: Seq<char>, installed: bool) -> bool {
    exists|i: int| 0 <= i < s.len() && s[i].name@ == n && s[i].installed == installed
}

/// The rows are strictly ascending by name.
pub open spec fn sorted_by_name(s: Seq<VersionEntry>) -> bool {
    forall|i: int, j: int| 0 <= i < j < s.len() ==> lex_lt(s[i].name@, s[j].name@)
}

/// No two rows share a name.
pub open spec fn unique_names(s: Seq<VersionEntry>) -> bool {
    forall|i: int, j: int| 0 <= i < j < s.len() ==> s[i].name@ != s[j].name@
}

/// Whether the remote list offers the name `n` on the release channel.
pub open spec fn remote_offers(rs: Seq<Version>, n: Seq<char>) -> bool {
    exists|i: int| 0 <= i < rs.len() && rs[i].id@ == n && is_release(rs[i])
}

/// Whether the remote list mentions the name `n` on any channel.
pub open spec fn remote_has_id(rs: Seq<Version>, n: Seq<char>) -> bool {
    exists|i: int| 0 <= i < rs.len() && rs[i].id@ == n
}

/// What the scanner hands to the merge: unique names, every row installed.
pub open spec fn local_input_ok(s: Seq<VersionEntry>) -> bool {
    &&& unique_names(s)
    &&& forall|i: int| 0 <= i < s.len() ==> s[i].installed
}

/// The full statement of what `merge` returns: `r` is sorted and
/// deduplicated; its names are exactly the local names plus the remotely
/// offered release names; a row is installed exactly when its name was
/// scanned locally, so a locally installed row is never downgraded.
pub open spec fn merged_catalog(
    local: Seq<VersionEntry>,
    remote: Seq<Version>,
    r: Seq<VersionEntry>,
) -> bool {
    &&& sorted_by_name(r)
    &&& unique_names(r)
    &&& forall|n: Seq<char>|
        #![trigger has_name(r, n)]
        has_name(r, n) <==> (has_name(local, n) || remote_offers(remote, n))
    &&& forall|n: Seq<char>, b: bool|
        #![trigger has_entry(r, n, b)]
        has_entry(r, n, b) <==> (has_entry(local, n, b) || (remote_offers(remote, n)
            && !has_name(local, n) && b == false))
    &&& forall|i: int| 0 <= i < r.len() ==> (r[i].installed <==> has_name(local, r[i].name@))
}

/// Two catalogs agree row for row on name and installed flag.
pub open spec fn same_catalog(a: Seq<VersionEntry>, b: Seq<VersionEntry>) -> bool {
    &&& a.len() == b.len()
    &&& forall|i: int|
        0 <= i < a.len() ==> a[i].name@ == b[i].name@ && a[i].installed == b[i].installed
}

/// Decides whether a remote summary sits on the release channel.
pub fn version_is_release(v: &Version) -> (r: bool)
    ensures
        r == is_release(*v),
{
    let rel: String = "release".to_owned();
    v.kind == rel
}

/// Decides whether the catalog already carries the name `n`.
pub fn contains_name(s: &Vec<VersionEntry>, n: &String) -> (r: bool)
    ensures
        r == has_name(s@, n@),
{
    let mut i: usize = 0;
    while i < s.len()
        invariant
            i <= s@.len(),
            forall|k: int| 0 <= k < i ==> s@[k].name@ != n@,
        decreases s@.len() - i,
    {
        if s[i].name == *n {
            proof {
                assert(s@[i as int].name@ == n@);
            }
            return true;
        }
        i = i + 1;
    }
    false
}

/// Adds one row with a fresh name to a sorted catalog, keeping it sorted.
#[verifier::rlimit(30)]
pub fn insert_sorted(list: &mut Vec<VersionEntry>, e: VersionEntry)
    requires
        sorted_by_name(old(list)@),
        !has_name(old(list)@, e.name@),
    ensures
        sorted_by_name(final(list)@),
        final(list)@.len() == old(list)@.len() + 1,
        forall|n: Seq<char>, b: bool|
            #![trigger has_entry(final(list)@, n, b)]
            has_entry(final(list)@, n, b) <==> (has_entry(old(list)@, n, b) || (n == e.name@ && b
                == e.installed)),
        forall|n: Seq<char>|
            #![trigger has_name(final(list)@, n)]
            has_name(final(list)@, n) <==> (has_name(old(list)@, n) || n == e.name@),
{
    let ghost s0 = list@;
    let mut k: usize = 0;
    while k < list.len()
        invariant
            k <= s0.len(),
            list@ == s0,
            sorted_by_name(s0),
            !has_name(s0, e.name@),
            forall|m: int| 0 <= m < k ==> lex_lt(s0[m].name@, e.name@),
        ensures
            k <= s0.len(),
            list@ == s0,
            forall|m: int| 0 <= m < k ==> lex_lt(s0[m].name@, e.name@),
            k < s0.len() ==> lex_lt(e.name@, s0[k as int].name@),
        decreases s0.len() - k,
    {
        if str_lt(e.name.as_str(), list[k].name.as_str()) {
            break ;
        }
        proof {
            if s0[k as int].name@ == e.name@ {
                assert(has_name(s0, e.name@));
                assert(false);
            }
            if !lex_lt(s0[k as int].name@, e.name@) {
                lemma_lex_lt_connected(s0[k as int].name@, e.name@);
                assert(false);
            }
        }
        k = k + 1;
    }
    let ghost ev = e;
    let ghost ename = e.name@;
    let ghost einst = e.installed;
    list.insert(k, e);
    proof {
        let t = list@;
        assert(t == s0.insert(k as int, ev));
        assert(t.len() == s0.len() + 1);
        assert forall|i: int| 0 <= i < k implies t[i] == s0[i] by {}
        assert(t[k as int].name@ == ename && t[k as int].installed == einst);
        assert forall|i: int| k < i < t.len() implies t[i] == s0[i - 1] by {}
        assert forall|i: int, j: int| 0 <= i < j < t.len() implies lex_lt(
            t[i].name@,
            t[j].name@,
        ) by {
            if j < k {
            } else if i < k && j == k {
                assert(lex_lt(s0[i].name@, ename));
            } else if i < k && j > k {
                assert(t[j] == s0[j - 1]);
                assert(lex_lt(s0[i].name@, s0[j - 1].name@));
            } else if i == k {
                assert(k < s0.len());
                assert(lex_lt(ename, s0[k as int].name@));
                if j > k + 1 {
                    assert(lex_lt(s0[k as int].name@, s0[j - 1].name@));
                    lemma_lex_lt_transitive(ename, s0[k as int].name@, s0[j - 1].name@);
                }
            } else {
                assert(lex_lt(s0[i - 1].name@, s0[j - 1].name@));
            }
        }
        assert forall|n: Seq<char>, b: bool| has_entry(t, n, b) implies (has_entry(s0, n, b) || (n
            == ename && b == einst)) by {
            let i = choose|i: int| 0 <= i < t.len() && t[i].name@ == n && t[i].installed == b;
            if i < k {
                assert(s0[i].name@ == n && s0[i].installed == b);
            } else if i > k {
                assert(s0[i - 1].name@ == n && s0[i - 1].installed == b);
            }
        }
        assert forall|n: Seq<char>, b: bool| (has_entry(s0, n, b) || (n == ename && b
            == einst)) implies has_entry(t, n, b) by {
            if has_entry(s0, n, b) {
                let i = choose|i: int| 0 <= i < s0.len() && s0[i].name@ == n && s0[i].installed
                    == b;
                if i < k {
                    assert(t[i].name@ == n && t[i].installed == b);
                } else {
                    assert(t[i + 1].name@ == n && t[i + 1].installed == b);
                }
            } else {
                assert(t[k as int].name@ == n && t[k as int].installed == b);
            }
        }
        assert forall|n: Seq<char>| has_name(t, n) implies (has_name(s0, n) || n == ename) by {
            let i = choose|i: int| 0 <= i < t.len() && t[i].name@ == n;
            if i < k {
                assert(s0[i].name@ == n);
            } else if i > k {
                assert(s0[i - 1].name@ == n);
            }
        }
        assert forall|n: Seq<char>| (has_name(s0, n) || n == ename) implies has_name(t, n) by {
            if has_name(s0, n) {
                let i = choose|i: int| 0 <= i < s0.len() && s0[i].name@ == n;
                if i < k {
                    assert(t[i].name@ == n);
                } else {
                    assert(t[i + 1].name@ == n);
                }
            } else {
                assert(t[k as int].name@ == n);
            }
        }
    }
}

pub(crate) proof fn lemma_entry_push(s: Seq<VersionEntry>, x: VersionEntry)
    ensures
        forall|n: Seq<char>, b: bool|
            #![trigger has_entry(s.push(x), n, b)]
            has_entry(s.push(x), n, b) <==> (has_entry(s, n, b) || (n == x.name@ && b
                == x.installed)),
        forall|n: Seq<char>|
            #![trigger has_name(s.push(x), n)]
            has_name(s.push(x), n) <==> (has_name(s, n) || n == x.name@),
{
    let t = s.push(x);
    assert forall|n: Seq<char>, b: bool| has_entry(t, n, b) implies (has_entry(s, n, b) || (n
        == x.name@ && b == x.installed)) by {
        let i = choose|i: int| 0 <= i < t.len() && t[i].name@ == n && t[i].installed == b;
        if i < s.len() {
            assert(s[i].name@ == n && s[i].installed == b);
        }
    }
    assert forall|n: Seq<char>, b: bool| (has_entry(s, n, b) || (n == x.name@ && b
        == x.installed)) implies has_entry(t, n, b) by {
        if has_entry(s, n, b) {
            let i = choose|i: int| 0 <= i < s.len() && s[i].name@ == n && s[i].installed == b;
            assert(t[i].name@ == n && t[i].installed == b);
        } else {
            assert(t[s.len() as int].name@ == n && t[s.len() as int].installed == b);
        }
    }
    assert forall|n: Seq<char>| has_name(t, n) implies (has_name(s, n) || n == x.name@) by {
        let i = choose|i: int| 0 <= i < t.len() && t[i].name@ == n;
        if i < s.len() {
            assert(s[i].name@ == n);
        }
    }
    assert forall|n: Seq<char>| (has_name(s, n) || n == x.name@) implies has_name(t, n) by {
        if has_name(s, n) {
            let i = choose|i: int| 0 <= i < s.len() && s[i].name@ == n;
            assert(t[i].name@ == n);
        } else {
            assert(t[s.len() as int].name@ == n);
        }
    }
}

proof fn lemma_offers_push(rs: Seq<Version>, x: Version)
    ensures
        forall|n: Seq<char>|
            #![trigger remote_offers(rs.push(x), n)]
            remote_offers(rs.push(x), n) <==> (remote_offers(rs, n) || (n == x.id@ && is_release(
                x,
            ))),
        forall|n: Seq<char>|
            #![trigger remote_has_id(rs.push(x), n)]
            remote_has_id(rs.push(x), n) <==> (remote_has_id(rs, n) || n == x.id@),
{
    let t = rs.push(x);
    assert forall|n: Seq<char>| remote_offers(t, n) implies (remote_offers(rs, n) || (n == x.id@
        && is_release(x))) by {
        let i = choose|i: int| 0 <= i < t.len() && t[i].id@ == n && is_release(t[i]);
        if i < rs.len() {
            assert(rs[i].id@ == n && is_release(rs[i]));
        }
    }
    assert forall|n: Seq<char>| (remote_offers(rs, n) || (n == x.id@ && is_release(
        x,
    ))) implies remote_offers(t, n) by {
        if remote_offers(rs, n) {
            let i = choose|i: int| 0 <= i < rs.len() && rs[i].id@ == n && is_release(rs[i]);
            assert(t[i].id@ == n && is_release(t[i]));
        } else {
            assert(t[rs.len() as int].id@ == n && is_release(t[rs.len() as int]));
        }
    }
    assert forall|n: Seq<char>| remote_has_id(t, n) implies (remote_has_id(rs, n) || n
        == x.id@) by {
        let i = choose|i: int| 0 <= i < t.len() && t[i].id@ == n;
        if i < rs.len() {
            assert(rs[i].id@ == n);
        }
    }
    assert forall|n: Seq<char>| (remote_has_id(rs, n) || n == x.id@) implies remote_has_id(
        t,
        n,
    ) by {
        if remote_has_id(rs, n) {
            let i = choose|i: int| 0 <= i < rs.len() && rs[i].id@ == n;
            assert(t[i].id@ == n);
        } else {
            assert(t[rs.len() as int].id@ == n);
        }
    }
}

/// Merges the locally scanned entries with the remote summaries into one
/// sorted, deduplicated catalog.  Only summaries on the release channel may
/// add a row; a name already installed locally stays installed.  The result
/// is a pure function of the two inputs, characterised by `merged_catalog`.
#[verifier::loop_isolation(false)]
#[verifier::rlimit(60)]
pub fn merge(local: Vec<VersionEntry>, remote: &Vec<Version>) -> (r: Vec<VersionEntry>)
    requires
        local_input_ok(local@),
    ensures
        merged_catalog(local@, remote@, r@),
{
    let ghost lseq = local@;
    let ghost rseq = remote@;
    let mut out: Vec<VersionEntry> = Vec::new();
    let mut i: usize = 0;
    proof {
        assert(lseq.take(0) =~= Seq::<VersionEntry>::empty());
    }
    while i < local.len()
        invariant
            i <= lseq.len(),
            sorted_by_name(out@),
            forall|n: Seq<char>, b: bool|
                #![trigger has_entry(out@, n, b)]
                has_entry(out@, n, b) <==> has_entry(lseq.take(i as int), n, b),
            forall|n: Seq<char>|
                #![trigger has_name(out@, n)]
                has_name(out@, n) <==> has_name(lseq.take(i as int), n),
        decreases lseq.len() - i,
    {
        let e = local[i].clone();
        proof {
            assert(e == lseq[i as int]);
            if has_name(out@, e.name@) {
                let kk = choose|kk: int|
                    0 <= kk < lseq.take(i as int).len() && lseq.take(i as int)[kk].name@
                        == e.name@;
                assert(lseq[kk].name@ == lseq[i as int].name@);
                assert(false);
            }
        }
        insert_sorted(&mut out, e);
        proof {
            lemma_entry_push(lseq.take(i as int), lseq[i as int]);
            assert(lseq.take(i as int + 1) =~= lseq.take(i as int).push(lseq[i as int]));
            assert forall|n: Seq<char>, b: bool| #![trigger has_entry(out@, n, b)] has_entry(
                out@,
                n,
                b,
            ) <==> has_entry(lseq.take(i as int + 1), n, b) by {
                assert(has_entry(lseq.take(i as int + 1), n, b) == has_entry(
                    lseq.take(i as int).push(lseq[i as int]),
                    n,
                    b,
                ));
            }
            assert forall|n: Seq<char>| #![trigger has_name(out@, n)] has_name(out@, n)
                <==> has_name(lseq.take(i as int + 1), n) by {
                assert(has_name(lseq.take(i as int + 1), n) == has_name(
                    lseq.take(i as int).push(lseq[i as int]),
                    n,
                ));
            }
        }
        i = i + 1;
    }
    proof {
        assert(lseq.take(lseq.len() as int) =~= lseq);
        assert(rseq.take(0) =~= Seq::<Version>::empty());
        assert forall|n: Seq<char>, b: bool| #![trigger has_entry(out@, n, b)] has_entry(
            out@,
            n,
            b,
        ) <==> (has_entry(lseq, n, b) || (remote_offers(rseq.take(0), n) && !has_name(lseq, n)
            && b == false)) by {
            assert(has_entry(lseq.take(lseq.len() as int), n, b) == has_entry(lseq, n, b));
            if remote_offers(rseq.take(0), n) {
                let w = choose|w: int|
                    0 <= w < rseq.take(0).len() && rseq.take(0)[w].id@ == n && is_release(
                        rseq.take(0)[w],
                    );
                assert(false);
            }
        }
        assert forall|n: Seq<char>| #![trigger has_name(out@, n)] has_name(out@, n) <==> (
        has_name(lseq, n) || remote_offers(rseq.take(0), n)) by {
            assert(has_name(lseq.take(lseq.len() as int), n) == has_name(lseq, n));
        }
    }
    let mut j: usize = 0;
    while j < remote.len()
        invariant
            j <= rseq.len(),
            sorted_by_name(out@),
            forall|n: Seq<char>, b: bool|
                #![trigger has_entry(out@, n, b)]
                has_entry(out@, n, b) <==> (has_entry(lseq, n, b) || (remote_offers(
                    rseq.take(j as int),
                    n,
                ) && !has_name(lseq, n) && b == false)),
            forall|n: Seq<char>|
                #![trigger has_name(out@, n)]
                has_name(out@, n) <==> (has_name(lseq, n) || remote_offers(
                    rseq.take(j as int),
                    n,
                )),
        decreases rseq.len() - j,
    {
        proof {
            lemma_offers_push(rseq.take(j as int), rseq[j as int]);
            assert(rseq.take(j as int + 1) =~= rseq.take(j as int).push(rseq[j as int]));
        }
        let is_rel = version_is_release(&remote[j]);
        if is_rel {
            let present = contains_name(&out, &remote[j].id);
            if !present {
                let e = VersionEntry { name: remote[j].id.clone(), installed: false };
                proof {
                    assert(e.name@ == rseq[j as int].id@);
                }
                insert_sorted(&mut out, e);
                proof {
                    assert forall|n: Seq<char>, b: bool| #![trigger has_entry(out@, n, b)]
                        has_entry(out@, n, b) <==> (has_entry(lseq, n, b) || (remote_offers(
                        rseq.take(j as int + 1),
                        n,
                    ) && !has_name(lseq, n) && b == false)) by {
                        assert(remote_offers(rseq.take(j as int + 1), n) == remote_offers(
                            rseq.take(j as int).push(rseq[j as int]),
                            n,
                        ));
                        if n == rseq[j as int].id@ && b == false {
                            assert(!has_name(lseq, n));
                        }
                    }
                    assert forall|n: Seq<char>| #![trigger has_name(out@, n)] has_name(out@, n)
                        <==> (has_name(lseq, n) || remote_offers(rseq.take(j as int + 1), n)) by {
                        assert(remote_offers(rseq.take(j as int + 1), n) == remote_offers(
                            rseq.take(j as int).push(rseq[j as int]),
                            n,
                        ));
                    }
                }
            } else {
                proof {
                    assert(has_name(out@, rseq[j as int].id@));
                    assert forall|n: Seq<char>, b: bool| #![trigger has_entry(out@, n, b)]
                        has_entry(out@, n, b) <==> (has_entry(lseq, n, b) || (remote_offers(
                        rseq.take(j as int + 1),
                        n,
                    ) && !has_name(lseq, n) && b == false)) by {
                        assert(remote_offers(rseq.take(j as int + 1), n) == remote_offers(
                            rseq.take(j as int).push(rseq[j as int]),
                            n,
                        ));
                        if n == rseq[j as int].id@ && !has_name(lseq, n) && !remote_offers(
                            rseq.take(j as int),
                            n,
                        ) {
                            assert(has_name(out@, n));
                            assert(false);
                        }
                    }
                    assert forall|n: Seq<char>| #![trigger has_name(out@, n)] has_name(out@, n)
                        <==> (has_name(lseq, n) || remote_offers(rseq.take(j as int + 1), n)) by {
                        assert(remote_offers(rseq.take(j as int + 1), n) == remote_offers(
                            rseq.take(j as int).push(rseq[j as int]),
                            n,
                        ));
                        if n == rseq[j as int].id@ && !remote_offers(rseq.take(j as int), n) {
                            assert(has_name(out@, n));
                        }
                    }
                }
            }
        } else {
            proof {
                assert forall|n: Seq<char>, b: bool| #![trigger has_entry(out@, n, b)] has_entry(
                    out@,
                    n,
                    b,
                ) <==> (has_entry(lseq, n, b) || (remote_offers(rseq.take(j as int + 1), n)
                    && !has_name(lseq, n) && b == false)) by {
                    assert(remote_offers(rseq.take(j as int + 1), n) == remote_offers(
                        rseq.take(j as int).push(rseq[j as int]),
                        n,
                    ));
                }
                assert forall|n: Seq<char>| #![trigger has_name(out@, n)] has_name(out@, n) <==> (
                has_name(lseq, n) || remote_offers(rseq.take(j as int + 1), n)) by {
                    assert(remote_offers(rseq.take(j as int + 1), n) == remote_offers(
                        rseq.take(j as int).push(rseq[j as int]),
                        n,
                    ));
                }
            }
        }
        j = j + 1;
    }
    proof {
        assert(rseq.take(rseq.len() as int) =~= rseq);
        assert forall|n: Seq<char>, b: bool| #![trigger has_entry(out@, n, b)] has_entry(
            out@,
            n,
            b,
        ) <==> (has_entry(lseq, n, b) || (remote_offers(rseq, n) && !has_name(lseq, n) && b
            == false)) by {
            assert(remote_offers(rseq.take(rseq.len() as int), n) == remote_offers(rseq, n));
        }
        assert forall|n: Seq<char>| #![trigger has_name(out@, n)] has_name(out@, n) <==> (
        has_name(lseq, n) || remote_offers(rseq, n)) by {
            assert(remote_offers(rseq.take(rseq.len() as int), n) == remote_offers(rseq, n));
        }
        assert forall|i0: int, j0: int| 0 <= i0 < j0 < out@.len() implies out@[i0].name@
            != out@[j0].name@ by {
            assert(lex_lt(out@[i0].name@, out@[j0].name@));
            lemma_lex_lt_irreflexive(out@[i0].name@);
        }
        assert forall|i0: int| 0 <= i0 < out@.len() implies (out@[i0].installed <==> has_name(
            lseq,
            out@[i0].name@,
        )) by {
            let n = out@[i0].name@;
            let b = out@[i0].installed;
            assert(has_entry(out@, n, b));
            if has_entry(lseq, n, b) {
                let w = choose|w: int|
                    0 <= w < lseq.len() && lseq[w].name@ == n && lseq[w].installed == b;
                assert(lseq[w].installed);
                assert(has_name(lseq, n));
            } else {
                assert(b == false && !has_name(lseq, n));
            }
        }
    }
    out
}

/// A catalog that is strictly sorted is determined by its entry set: two
/// such catalogs with the same rows, as sets of `(name, installed)` pairs,
/// agree row for row.
proof fn lemma_sorted_canonical(a: Seq<VersionEntry>, b: Seq<VersionEntry>)
    requires
        sorted_by_name(a),
        sorted_by_name(b),
        forall|n: Seq<char>, bb: bool|
            #![trigger has_entry(a, n, bb)]
            #![trigger has_entry(b, n, bb)]
            has_entry(a, n, bb) <==> has_entry(b, n, bb),
        forall|n: Seq<char>|
            #![trigger has_name(a, n)]
            #![trigger has_name(b, n)]
            has_name(a, n) <==> has_name(b, n),
    ensures
        same_catalog(a, b),
    decreases a.len(),
{
    if a.len() == 0 {
        if b.len() > 0 {
            assert(has_name(b, b[0].name@));
            let i = choose|i: int| 0 <= i < a.len() && a[i].name@ == b[0].name@;
            assert(false);
        }
    } else if b.len() == 0 {
        assert(has_name(a, a[0].name@));
        let i = choose|i: int| 0 <= i < b.len() && b[i].name@ == a[0].name@;
        assert(false);
    } else {
        assert(has_name(a, a[0].name@));
        let j = choose|i: int| 0 <= i < b.len() && b[i].name@ == a[0].name@;
        assert(has_name(b, b[0].name@));
        let k = choose|i: int| 0 <= i < a.len() && a[i].name@ == b[0].name@;
        if a[0].name@ != b[0].name@ {
            assert(j != 0);
            assert(k != 0);
            assert(lex_lt(b[0].name@, b[j].name@));
            assert(lex_lt(a[0].name@, a[k].name@));
            lemma_lex_lt_transitive(a[0].name@, b[0].name@, a[0].name@);
            lemma_lex_lt_irreflexive(a[0].name@);
            assert(false);
        }
        assert(has_entry(a, a[0].name@, a[0].installed));
        let m = choose|i: int|
            0 <= i < b.len() && b[i].name@ == a[0].name@ && b[i].installed == a[0].installed;
        if m != 0 {
            assert(lex_lt(b[0].name@, b[m].name@));
            lemma_lex_lt_irreflexive(b[0].name@);
            assert(false);
        }
        let a1 = a.drop_first();
        let b1 = b.drop_first();
        assert forall|i: int, j1: int| 0 <= i < j1 < a1.len() implies lex_lt(
            a1[i].name@,
            a1[j1].name@,
        ) by {
            assert(a1[i] == a[i + 1]);
            assert(a1[j1] == a[j1 + 1]);
        }
        assert forall|i: int, j1: int| 0 <= i < j1 < b1.len() implies lex_lt(
            b1[i].name@,
            b1[j1].name@,
        ) by {
            assert(b1[i] == b[i + 1]);
            assert(b1[j1] == b[j1 + 1]);
        }
        assert forall|n: Seq<char>, bb: bool| #![trigger has_entry(a1, n, bb)] has_entry(
            a1,
            n,
            bb,
        ) <==> (has_entry(a, n, bb) && n != a[0].name@) by {
            if has_entry(a1, n, bb) {
                let i = choose|i: int| 0 <= i < a1.len() && a1[i].name@ == n && a1[i].installed
                    == bb;
                assert(a[i + 1].name@ == n && a[i + 1].installed == bb);
                assert(has_entry(a, n, bb));
                assert(lex_lt(a[0].name@, a[i + 1].name@));
                if n == a[0].name@ {
                    lemma_lex_lt_irreflexive(n);
                    assert(false);
                }
            }
            if has_entry(a, n, bb) && n != a[0].name@ {
                let i = choose|i: int| 0 <= i < a.len() && a[i].name@ == n && a[i].installed
                    == bb;
                assert(i != 0);
                assert(a1[i - 1].name@ == n && a1[i - 1].installed == bb);
            }
        }
        assert forall|n: Seq<char>, bb: bool| #![trigger has_entry(b1, n, bb)] has_entry(
            b1,
            n,
            bb,
        ) <==> (has_entry(b, n, bb) && n != b[0].name@) by {
            if has_entry(b1, n, bb) {
                let i = choose|i: int| 0 <= i < b1.len() && b1[i].name@ == n && b1[i].installed
                    == bb;
                assert(b[i + 1].name@ == n && b[i + 1].installed == bb);
                assert(has_entry(b, n, bb));
                assert(lex_lt(b[0].name@, b[i + 1].name@));
                if n == b[0].name@ {
                    lemma_lex_lt_irreflexive(n);
                    assert(false);
                }
            }
            if has_entry(b, n, bb) && n != b[0].name@ {
                let i = choose|i: int| 0 <= i < b.len() && b[i].name@ == n && b[i].installed
                    == bb;
                assert(i != 0);
                assert(b1[i - 1].name@ == n && b1[i - 1].installed == bb);
            }
        }
        assert forall|n: Seq<char>| #![trigger has_name(a1, n)] has_name(a1, n) <==> (has_name(
            a,
            n,
        ) && n != a[0].name@) by {
            if has_name(a1, n) {
                let i = choose|i: int| 0 <= i < a1.len() && a1[i].name@ == n;
                assert(a[i + 1].name@ == n);
                assert(has_name(a, n));
                assert(lex_lt(a[0].name@, a[i + 1].name@));
                if n == a[0].name@ {
                    lemma_lex_lt_irreflexive(n);
                    assert(false);
                }
            }
            if has_name(a, n) && n != a[0].name@ {
                let i = choose|i: int| 0 <= i < a.len() && a[i].name@ == n;
                assert(i != 0);
                assert(a1[i - 1].name@ == n);
            }
        }
        assert forall|n: Seq<char>| #![trigger has_name(b1, n)] has_name(b1, n) <==> (has_name(
            b,
            n,
        ) && n != b[0].name@) by {
            if has_name(b1, n) {
                let i = choose|i: int| 0 <= i < b1.len() && b1[i].name@ == n;
                assert(b[i + 1].name@ == n);
                assert(has_name(b, n));
                assert(lex_lt(b[0].name@, b[i + 1].name@));
                if n == b[0].name@ {
                    lemma_lex_lt_irreflexive(n);
                    assert(false);
                }
            }
            if has_name(b, n) && n != b[0].name@ {
                let i = choose|i: int| 0 <= i < b.len() && b[i].name@ == n;
                assert(i != 0);
                assert(b1[i - 1].name@ == n);
            }
        }
        lemma_sorted_canonical(a1, b1);
        assert forall|i: int| 0 <= i < a.len() implies a[i].name@ == b[i].name@ && a[i].installed
            == b[i].installed by {
            if i > 0 {
                assert(a1[i - 1] == a[i]);
                assert(b1[i - 1] == b[i]);
            }
        }
    }
}

/// Merging is deterministic: any two catalogs that satisfy the merge
/// contract for the same pair of inputs agree row for row.  Together with
/// `merge`'s own contract, two calls on the same inputs give the same
/// output.
pub proof fn lemma_merge_deterministic(
    local: Seq<VersionEntry>,
    remote: Seq<Version>,
    r1: Seq<VersionEntry>,
    r2: Seq<VersionEntry>,
)
    requires
        merged_catalog(local, remote, r1),
        merged_catalog(local, remote, r2),
    ensures
        same_catalog(r1, r2),
{
    assert forall|n: Seq<char>, bb: bool|
        #![trigger has_entry(r1, n, bb)]
        #![trigger has_entry(r2, n, bb)]
        has_entry(r1, n, bb) <==> has_entry(r2, n, bb) by {
        assert(has_entry(r1, n, bb) <==> (has_entry(local, n, bb) || (remote_offers(remote, n)
            && !has_name(local, n) && bb == false)));
        assert(has_entry(r2, n, bb) <==> (has_entry(local, n, bb) || (remote_offers(remote, n)
            && !has_name(local, n) && bb == false)));
    }
    assert forall|n: Seq<char>|
        #![trigger has_name(r1, n)]
        #![trigger has_name(r2, n)]
        has_name(r1, n) <==> has_name(r2, n) by {
        assert(has_name(r1, n) <==> (has_name(local, n) || remote_offers(remote, n)));
        assert(has_name(r2, n) <==> (has_name(local, n) || remote_offers(remote, n)));
    }
    lemma_sorted_canonical(r1, r2);
}

/// Local state wins: a name that was scanned locally keeps `installed =
/// true` in the merged catalog, whether or not the remote list mentions it.
pub proof fn lemma_local_wins(
    local: Seq<VersionEntry>,
    remote: Seq<Version>,
    r: Seq<VersionEntry>,
    n: Seq<char>,
)
    requires
        local_input_ok(local),
        merged_catalog(local, remote, r),
        has_name(local, n),
        remote_has_id(remote, n),
    ensures
        has_entry(r, n, true),
        !has_entry(r, n, false),
{
    let w = choose|w: int| 0 <= w < local.len() && local[w].name@ == n;
    assert(local[w].installed);
    assert(has_entry(local, n, true));
    assert(has_entry(r, n, true));
    if has_entry(r, n, false) {
        assert(has_entry(local, n, false));
        let v = choose|v: int|
            0 <= v < local.len() && local[v].name@ == n && local[v].installed == false;
        assert(false);
    }
}

/// The channel filter: a name that the remote list mentions only outside
/// the release channel never produces a new catalog row; if the same name
/// is installed locally, its row is preserved with `installed = true`.
pub proof fn lemma_channel_filter(
    local: Seq<VersionEntry>,
    remote: Seq<Version>,
    r: Seq<VersionEntry>,
    t: int,
)
    requires
        local_input_ok(local),
        merged_catalog(local, remote, r),
        0 <= t < remote.len(),
        !is_release(remote[t]),
        forall|u: int| 0 <= u < remote.len() && remote[u].id@ == remote[t].id@ ==> !is_release(
            remote[u],
        ),
    ensures
        !has_name(local, remote[t].id@) ==> !has_name(r, remote[t].id@),
        has_name(local, remote[t].id@) ==> has_entry(r, remote[t].id@, true),
{
    let n = remote[t].id@;
    if remote_offers(remote, n) {
        let u = choose|u: int| 0 <= u < remote.len() && remote[u].id@ == n && is_release(
            remote[u],
        );
        assert(false);
    }
    if has_name(local, n) {
        let w = choose|w: int| 0 <= w < local.len() && local[w].name@ == n;
        assert(local[w].installed);
        assert(has_entry(local, n, true));
        assert(has_entry(r, n, true));
    }
}

} // verus!
