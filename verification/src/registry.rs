//! The registry: records keyed by their prototype identifier, the keys kept
//! strictly ascending, insertion of an identifier already present refused.
//! The builder drives the translator and the decoder over every file of one
//! manifest and accumulates the decoded records, aborting the whole batch on
//! the first error.

use vstd::prelude::*;

use crate::errors::{BuildError, ProtoError};
use crate::records::{proto_from_ini, proto_from_ini_s, Proto};

verus! {

/// Strictly ascending keys.
pub open spec fn sorted_strict(ks: Seq<u16>) -> bool {
    forall|i: int, j: int| 0 <= i < j < ks.len() ==> ks[i] < ks[j]
}

/// The first position whose key is at least `k`.
pub open spec fn lower_bound(ks: Seq<u16>, k: u16) -> int
    decreases ks.len(),
{
    if ks.len() == 0 {
        0
    } else if ks[0] >= k {
        0
    } else {
        1 + lower_bound(ks.subrange(1, ks.len() as int), k)
    }
}

pub proof fn lemma_lower_bound(ks: Seq<u16>, k: u16)
    ensures
        0 <= lower_bound(ks, k) <= ks.len(),
        lower_bound(ks, k) < ks.len() ==> ks[lower_bound(ks, k)] >= k,
        forall|j: int| 0 <= j < lower_bound(ks, k) ==> ks[j] < k,
    decreases ks.len(),
{
    if ks.len() > 0 && ks[0] < k {
        let sub = ks.subrange(1, ks.len() as int);
        lemma_lower_bound(sub, k);
        assert forall|j: int| 0 <= j < lower_bound(ks, k) implies ks[j] < k by {
            if j > 0 {
                assert(sub[j - 1] < k);
            }
        }
    }
}

/// Inserting a fresh key at its lower bound keeps the keys strictly
/// ascending, and extends the key set by exactly that key.
pub proof fn lemma_insert_sorted(ks: Seq<u16>, k: u16)
    requires
        sorted_strict(ks),
        !ks.contains(k),
    ensures
        sorted_strict(ks.insert(lower_bound(ks, k), k)),
        forall|x: u16| ks.insert(lower_bound(ks, k), k).contains(x) <==> (ks.contains(x) || x
            == k),
{
    lemma_lower_bound(ks, k);
    let p = lower_bound(ks, k);
    let ks2 = ks.insert(p, k);
    assert(ks2.len() == ks.len() + 1);
    assert(p < ks2.len() && ks2[p] == k);
    assert forall|i: int, j: int| 0 <= i < j < ks2.len() implies ks2[i] < ks2[j] by {
        if i < p && j < p {
            assert(ks2[i] == ks[i] && ks2[j] == ks[j]);
        } else if i < p && j == p {
            assert(ks2[i] == ks[i] && ks[i] < k);
        } else if i < p && j > p {
            assert(ks2[i] == ks[i] && ks2[j] == ks[j - 1]);
            assert(ks[j - 1] >= k) by {
                if j - 1 > p {
                    assert(ks[p] < ks[j - 1]);
                }
                assert(ks[j - 1] != k) by {
                    assert(ks.contains(ks[j - 1])) by {
                        assert(ks[j - 1] == ks[j - 1]);
                    }
                }
            }
            assert(ks[i] < k);
        } else if i == p {
            assert(ks2[j] == ks[j - 1]);
            assert(ks[j - 1] >= k) by {
                if j - 1 > p {
                    assert(ks[p] < ks[j - 1]);
                }
            }
            assert(ks[j - 1] != k) by {
                assert(ks.contains(ks[j - 1])) by {
                    assert(ks[j - 1] == ks[j - 1]);
                }
            }
        } else {
            assert(ks2[i] == ks[i - 1] && ks2[j] == ks[j - 1]);
        }
    }
    assert forall|x: u16| ks2.contains(x) <==> (ks.contains(x) || x == k) by {
        if ks2.contains(x) {
            let w = choose|w: int| 0 <= w < ks2.len() && ks2[w] == x;
            if w < p {
                assert(ks[w] == x);
            } else if w > p {
                assert(ks[w - 1] == x);
            }
        }
        if ks.contains(x) {
            let w = choose|w: int| 0 <= w < ks.len() && ks[w] == x;
            if w < p {
                assert(ks2[w] == x);
            } else {
                assert(ks2[w + 1] == x);
            }
        }
        if x == k {
            assert(ks2[p] == x);
        }
    }
}

/// A registry of records keyed by identifier: parallel vectors of strictly
/// ascending keys and their records.
#[derive(Debug, Clone)]
pub struct PidMap<T> {
    pub keys: Vec<u16>,
    pub vals: Vec<T>,
}

impl<T> PidMap<T> {
    /// Keys and records in step, keys strictly ascending (hence unique).
    pub open spec fn wf(&self) -> bool {
        &&& self.keys@.len() == self.vals@.len()
        &&& sorted_strict(self.keys@)
    }

    /// Whether an identifier is registered.
    pub open spec fn contains_pid(&self, k: u16) -> bool {
        self.keys@.contains(k)
    }

    /// The empty registry.
    pub fn new() -> (r: PidMap<T>)
        ensures
            r.wf(),
            r.keys@ == Seq::<u16>::empty(),
            r.vals@ == Seq::<T>::empty(),
    {
        PidMap { keys: Vec::new(), vals: Vec::new() }
    }

    /// The number of registered records.
    pub fn len(&self) -> (r: usize)
        ensures
            r == self.keys@.len(),
    {
        self.keys.len()
    }

    /// The record registered under `pid`, if any.
    pub fn get(&self, pid: u16) -> (r: Option<&T>)
        requires
            self.wf(),
        ensures
            match r {
                Some(v) => exists|i: int|
                    0 <= i < self.keys@.len() && self.keys@[i] == pid && self.vals@[i] == *v,
                None => !self.contains_pid(pid),
            },
    {
        let len = self.keys.len();
        let mut i: usize = 0;
        while i < len
            invariant
                0 <= i <= len == self.keys@.len() == self.vals@.len(),
                forall|j: int| 0 <= j < i ==> self.keys@[j] != pid,
            decreases len - i,
        {
            if self.keys[i] == pid {
                return Some(&self.vals[i]);
            }
            i = i + 1;
        }
        None
    }

    /// Registers a record under `pid`, refusing an identifier already
    /// present; on success the key sits at its lower bound, so the keys
    /// stay strictly ascending.
    pub fn insert(&mut self, pid: u16, v: T) -> (r: Result<(), ProtoError>)
        requires
            old(self).wf(),
        ensures
            final(self).wf(),
            match r {
                Ok(()) => !old(self).keys@.contains(pid) && final(self).keys@ == old(
                    self,
                ).keys@.insert(lower_bound(old(self).keys@, pid), pid) && final(self).vals@ == old(
                    self,
                ).vals@.insert(lower_bound(old(self).keys@, pid), v),
                Err(e) => e == (ProtoError::IdentifierCollision { pid }) && old(
                    self,
                ).keys@.contains(pid) && final(self).keys@ == old(self).keys@ && final(self).vals@
                    == old(self).vals@,
            },
    {
        let len = self.keys.len();
        let mut p: usize = 0;
        while p < len && self.keys[p] < pid
            invariant
                0 <= p <= len == self.keys@.len(),
                forall|j: int| 0 <= j < p ==> self.keys@[j] < pid,
            decreases len - p,
        {
            p = p + 1;
        }
        proof {
            lemma_lower_bound(self.keys@, pid);
            assert(p as int == lower_bound(self.keys@, pid));
        }
        if p < len && self.keys[p] == pid {
            proof {
                assert(self.keys@.contains(pid)) by {
                    assert(self.keys@[p as int] == pid);
                }
            }
            return Err(ProtoError::IdentifierCollision { pid });
        }
        proof {
            assert(!self.keys@.contains(pid)) by {
                if self.keys@.contains(pid) {
                    let w = choose|w: int| 0 <= w < self.keys@.len() && self.keys@[w] == pid;
                    assert(w < p || w >= p);
                    if w >= p {
                        if p < len {
                            if w > p {
                                assert(self.keys@[p as int] < self.keys@[w]);
                            }
                        }
                    }
                }
            }
            lemma_insert_sorted(self.keys@, pid);
        }
        self.keys.insert(p, pid);
        self.vals.insert(p, v);
        Ok(())
    }
}

/// The views of a sequence of records.
pub open spec fn tvals_view<T: View>(vs: Seq<T>) -> Seq<T::V> {
    vs.map_values(|t: T| t@)
}

/// The views of a sequence of byte vectors.
pub open spec fn files_view(fs: Seq<Vec<u8>>) -> Seq<Seq<u8>> {
    fs.map_values(|f: Vec<u8>| f@)
}

/// The registry contents after the first `m` records of one list are
/// registered, or the first identifier that collides.
pub open spec fn insert_all<T: Proto>(
    ks: Seq<u16>,
    vs: Seq<T::V>,
    recs: Seq<T::V>,
    m: int,
) -> Result<(Seq<u16>, Seq<T::V>), u16>
    decreases m,
{
    if m <= 0 {
        Ok((ks, vs))
    } else {
        match insert_all::<T>(ks, vs, recs, m - 1) {
            Err(p) => Err(p),
            Ok((ks2, vs2)) => {
                let pid = T::pid_of(recs[m - 1]);
                if ks2.contains(pid) {
                    Err(pid)
                } else {
                    Ok(
                        (
                            ks2.insert(lower_bound(ks2, pid), pid),
                            vs2.insert(lower_bound(ks2, pid), recs[m - 1]),
                        ),
                    )
                }
            },
        }
    }
}

/// The registry contents after the first `n` files of one manifest, or the
/// first fatal error, attributed to its file.
pub open spec fn build_fold<T: Proto>(files: Seq<Seq<u8>>, n: int) -> Result<
    (Seq<u16>, Seq<T::V>),
    BuildError,
>
    decreases n,
{
    if n <= 0 {
        Ok((Seq::empty(), Seq::empty()))
    } else {
        match build_fold::<T>(files, n - 1) {
            Err(e) => Err(e),
            Ok((ks, vs)) => match proto_from_ini_s::<T>(files[n - 1]) {
                Err(e) => Err(BuildError { file: (n - 1) as usize, err: e }),
                Ok(recs) => match insert_all::<T>(ks, vs, recs, recs.len() as int) {
                    Err(pid) => Err(
                        BuildError {
                            file: (n - 1) as usize,
                            err: ProtoError::IdentifierCollision { pid },
                        },
                    ),
                    Ok(st) => Ok(st),
                },
            },
        }
    }
}

/// The registry of a whole manifest's files.
pub open spec fn build_btree_s<T: Proto>(files: Seq<Seq<u8>>) -> Result<
    (Seq<u16>, Seq<T::V>),
    BuildError,
> {
    build_fold::<T>(files, files.len() as int)
}

pub proof fn lemma_insert_all_err<T: Proto>(
    ks: Seq<u16>,
    vs: Seq<T::V>,
    recs: Seq<T::V>,
    n: int,
    m: int,
)
    requires
        insert_all::<T>(ks, vs, recs, n) is Err,
        n <= m,
    ensures
        insert_all::<T>(ks, vs, recs, m) == insert_all::<T>(ks, vs, recs, n),
    decreases m - n,
{
    if m > n {
        lemma_insert_all_err::<T>(ks, vs, recs, n, m - 1);
    }
}

pub proof fn lemma_build_fold_err<T: Proto>(files: Seq<Seq<u8>>, n: int, m: int)
    requires
        build_fold::<T>(files, n) is Err,
        n <= m,
    ensures
        build_fold::<T>(files, m) == build_fold::<T>(files, n),
    decreases m - n,
{
    if m > n {
        lemma_build_fold_err::<T>(files, n, m - 1);
    }
}

/// The records that file `k` of a manifest decodes to.
pub open spec fn recs_of<T: Proto>(files: Seq<Seq<u8>>, k: int) -> Seq<T::V> {
    proto_from_ini_s::<T>(files[k])->Ok_0
}

/// The number of records of the first `n` files.
pub open spec fn total_records<T: Proto>(files: Seq<Seq<u8>>, n: int) -> int
    decreases n,
{
    if n <= 0 {
        0
    } else {
        total_records::<T>(files, n - 1) + recs_of::<T>(files, n - 1).len()
    }
}

/// Every file of the manifest translates and decodes.
pub open spec fn all_decode_ok<T: Proto>(files: Seq<Seq<u8>>) -> bool {
    forall|k: int| 0 <= k < files.len() ==> (#[trigger] proto_from_ini_s::<T>(files[k])) is Ok
}

/// No two records of the first `n` files share an identifier.
pub open spec fn pids_distinct<T: Proto>(files: Seq<Seq<u8>>, n: int) -> bool {
    forall|k1: int, j1: int, k2: int, j2: int|
        0 <= k1 < n && 0 <= j1 < recs_of::<T>(files, k1).len() && 0 <= k2 < n && 0 <= j2 < recs_of::<
            T,
        >(files, k2).len() && (k1 != k2 || j1 != j2) ==> T::pid_of(
            #[trigger] recs_of::<T>(files, k1)[j1],
        ) != T::pid_of(#[trigger] recs_of::<T>(files, k2)[j2])
}

/// What a successful prefix of one file's insertions guarantees: sorted
/// keys, one key per record, the key set extended by exactly the records'
/// identifiers, and those identifiers fresh and pairwise distinct.
#[verifier::rlimit(60)]
proof fn lemma_insert_all_ok<T: Proto>(ks: Seq<u16>, vs: Seq<T::V>, recs: Seq<T::V>, n: int)
    requires
        sorted_strict(ks),
        0 <= n <= recs.len(),
    ensures
        insert_all::<T>(ks, vs, recs, n) matches Ok(st) ==> {
            &&& sorted_strict(st.0)
            &&& st.0.len() == ks.len() + n
            &&& (forall|x: u16|
                st.0.contains(x) <==> (ks.contains(x) || exists|j: int|
                    0 <= j < n && T::pid_of(#[trigger] recs[j]) == x))
            &&& (forall|j: int| 0 <= j < n ==> !ks.contains(T::pid_of(#[trigger] recs[j])))
            &&& (forall|j1: int, j2: int|
                0 <= j1 < j2 < n ==> T::pid_of(#[trigger] recs[j1]) != T::pid_of(
                    #[trigger] recs[j2],
                ))
        },
    decreases n,
{
    if n > 0 && insert_all::<T>(ks, vs, recs, n) is Ok {
        lemma_insert_all_ok::<T>(ks, vs, recs, n - 1);
        let st1 = insert_all::<T>(ks, vs, recs, n - 1)->Ok_0;
        let pid = T::pid_of(recs[n - 1]);
        assert(!st1.0.contains(pid));
        lemma_lower_bound(st1.0, pid);
        lemma_insert_sorted(st1.0, pid);
        let st2 = insert_all::<T>(ks, vs, recs, n)->Ok_0;
        assert(st2.0 == st1.0.insert(lower_bound(st1.0, pid), pid));
        assert(st2.0.len() == st1.0.len() + 1);
        assert forall|x: u16|
            st2.0.contains(x) <==> (ks.contains(x) || exists|j: int|
                0 <= j < n && T::pid_of(#[trigger] recs[j]) == x) by {
            if st2.0.contains(x) {
                if st1.0.contains(x) {
                } else {
                    assert(x == pid);
                    assert(T::pid_of(recs[n - 1]) == x);
                }
            }
            if exists|j: int| 0 <= j < n && T::pid_of(#[trigger] recs[j]) == x {
                let j = choose|j: int| 0 <= j < n && T::pid_of(#[trigger] recs[j]) == x;
                if j < n - 1 {
                    assert(st1.0.contains(x));
                } else {
                    assert(x == pid);
                }
            }
        }
        assert forall|j: int| 0 <= j < n implies !ks.contains(T::pid_of(#[trigger] recs[j])) by {
            if j == n - 1 {
                assert(!st1.0.contains(pid));
            }
        }
        assert forall|j1: int, j2: int| 0 <= j1 < j2 < n implies T::pid_of(#[trigger] recs[j1])
            != T::pid_of(#[trigger] recs[j2]) by {
            if j2 == n - 1 {
                assert(st1.0.contains(T::pid_of(recs[j1])));
            }
        }
    }
}

/// Inserting records whose identifiers are fresh and pairwise distinct
/// succeeds.
proof fn lemma_insert_all_fresh<T: Proto>(ks: Seq<u16>, vs: Seq<T::V>, recs: Seq<T::V>, n: int)
    requires
        sorted_strict(ks),
        0 <= n <= recs.len(),
        forall|j: int| 0 <= j < n ==> !ks.contains(T::pid_of(#[trigger] recs[j])),
        forall|j1: int, j2: int|
            0 <= j1 < j2 < n ==> T::pid_of(#[trigger] recs[j1]) != T::pid_of(#[trigger] recs[j2]),
    ensures
        insert_all::<T>(ks, vs, recs, n) is Ok,
    decreases n,
{
    if n > 0 {
        lemma_insert_all_fresh::<T>(ks, vs, recs, n - 1);
        lemma_insert_all_ok::<T>(ks, vs, recs, n - 1);
        let st1 = insert_all::<T>(ks, vs, recs, n - 1)->Ok_0;
        let pid = T::pid_of(recs[n - 1]);
        assert(!st1.0.contains(pid)) by {
            if st1.0.contains(pid) {
                if !ks.contains(pid) {
                    let j = choose|j: int| 0 <= j < n - 1 && T::pid_of(#[trigger] recs[j]) == pid;
                    assert(T::pid_of(recs[j]) != T::pid_of(recs[n - 1]));
                }
            }
        }
    }
}

/// What a successful prefix of the whole build guarantees: sorted keys, one
/// key per decoded record, the key set exactly the decoded identifiers, and
/// those identifiers globally pairwise distinct.
#[verifier::rlimit(100)]
proof fn lemma_build_fold_ok<T: Proto>(files: Seq<Seq<u8>>, n: int)
    requires
        all_decode_ok::<T>(files),
        0 <= n <= files.len(),
    ensures
        build_fold::<T>(files, n) matches Ok(st) ==> {
            &&& sorted_strict(st.0)
            &&& st.0.len() == total_records::<T>(files, n)
            &&& (forall|x: u16|
                st.0.contains(x) <==> exists|k: int, j: int|
                    0 <= k < n && 0 <= j < recs_of::<T>(files, k).len() && T::pid_of(
                        #[trigger] recs_of::<T>(files, k)[j],
                    ) == x)
            &&& pids_distinct::<T>(files, n)
        },
    decreases n,
{
    if n > 0 && build_fold::<T>(files, n) is Ok {
        lemma_build_fold_ok::<T>(files, n - 1);
        let st1 = build_fold::<T>(files, n - 1)->Ok_0;
        let recs = recs_of::<T>(files, n - 1);
        lemma_insert_all_ok::<T>(st1.0, st1.1, recs, recs.len() as int);
        let st2 = build_fold::<T>(files, n)->Ok_0;
        assert(st2 == insert_all::<T>(st1.0, st1.1, recs, recs.len() as int)->Ok_0);
        assert forall|x: u16|
            st2.0.contains(x) <==> exists|k: int, j: int|
                0 <= k < n && 0 <= j < recs_of::<T>(files, k).len() && T::pid_of(
                    #[trigger] recs_of::<T>(files, k)[j],
                ) == x by {
            if st2.0.contains(x) {
                if st1.0.contains(x) {
                    let (k, j) = choose|k: int, j: int|
                        0 <= k < n - 1 && 0 <= j < recs_of::<T>(files, k).len() && T::pid_of(
                            #[trigger] recs_of::<T>(files, k)[j],
                        ) == x;
                    assert(T::pid_of(recs_of::<T>(files, k)[j]) == x);
                } else {
                    let j = choose|j: int| 0 <= j < recs.len() && T::pid_of(#[trigger] recs[j])
                        == x;
                    assert(T::pid_of(recs_of::<T>(files, n - 1)[j]) == x);
                }
            }
            if exists|k: int, j: int|
                0 <= k < n && 0 <= j < recs_of::<T>(files, k).len() && T::pid_of(
                    #[trigger] recs_of::<T>(files, k)[j],
                ) == x {
                let (k, j) = choose|k: int, j: int|
                    0 <= k < n && 0 <= j < recs_of::<T>(files, k).len() && T::pid_of(
                        #[trigger] recs_of::<T>(files, k)[j],
                    ) == x;
                if k < n - 1 {
                    assert(st1.0.contains(x));
                } else {
                    assert(T::pid_of(recs[j]) == x);
                }
            }
        }
        assert forall|k1: int, j1: int, k2: int, j2: int|
            0 <= k1 < n && 0 <= j1 < recs_of::<T>(files, k1).len() && 0 <= k2 < n && 0 <= j2
                < recs_of::<T>(files, k2).len() && (k1 != k2 || j1 != j2) implies T::pid_of(
            #[trigger] recs_of::<T>(files, k1)[j1],
        ) != T::pid_of(#[trigger] recs_of::<T>(files, k2)[j2]) by {
            if k1 < n - 1 && k2 < n - 1 {
            } else if k1 == n - 1 && k2 == n - 1 {
            } else if k1 < n - 1 && k2 == n - 1 {
                assert(st1.0.contains(T::pid_of(recs_of::<T>(files, k1)[j1])));
                assert(!st1.0.contains(T::pid_of(recs[j2])));
            } else {
                assert(st1.0.contains(T::pid_of(recs_of::<T>(files, k2)[j2])));
                assert(!st1.0.contains(T::pid_of(recs[j1])));
            }
        }
    }
}

/// A manifest of decodable files with pairwise-distinct identifiers builds.
proof fn lemma_build_fold_distinct_ok<T: Proto>(files: Seq<Seq<u8>>, n: int)
    requires
        all_decode_ok::<T>(files),
        pids_distinct::<T>(files, files.len() as int),
        0 <= n <= files.len(),
    ensures
        build_fold::<T>(files, n) is Ok,
    decreases n,
{
    if n > 0 {
        lemma_build_fold_distinct_ok::<T>(files, n - 1);
        lemma_build_fold_ok::<T>(files, n - 1);
        let st1 = build_fold::<T>(files, n - 1)->Ok_0;
        let recs = recs_of::<T>(files, n - 1);
        assert forall|j: int| 0 <= j < recs.len() implies !st1.0.contains(
            T::pid_of(#[trigger] recs[j]),
        ) by {
            if st1.0.contains(T::pid_of(recs[j])) {
                let (k2, j2) = choose|k2: int, j2: int|
                    0 <= k2 < n - 1 && 0 <= j2 < recs_of::<T>(files, k2).len() && T::pid_of(
                        #[trigger] recs_of::<T>(files, k2)[j2],
                    ) == T::pid_of(recs[j]);
                assert(T::pid_of(recs_of::<T>(files, n - 1)[j]) != T::pid_of(
                    recs_of::<T>(files, k2)[j2],
                ));
            }
        }
        assert forall|j1: int, j2: int| 0 <= j1 < j2 < recs.len() implies T::pid_of(
            #[trigger] recs[j1],
        ) != T::pid_of(#[trigger] recs[j2]) by {
            assert(T::pid_of(recs_of::<T>(files, n - 1)[j1]) != T::pid_of(
                recs_of::<T>(files, n - 1)[j2],
            ));
        }
        lemma_insert_all_fresh::<T>(st1.0, st1.1, recs, recs.len() as int);
    }
}

/// When every file decodes, the build can only fail on a collision.
proof fn lemma_build_fold_err_kind<T: Proto>(files: Seq<Seq<u8>>, n: int)
    requires
        all_decode_ok::<T>(files),
        0 <= n <= files.len(),
    ensures
        build_fold::<T>(files, n) matches Err(be) ==> be.err matches
            ProtoError::IdentifierCollision { .. },
    decreases n,
{
    if n > 0 {
        lemma_build_fold_err_kind::<T>(files, n - 1);
    }
}

/// Identifier uniqueness. For a manifest whose files all decode: if any two
/// records — of two files or of one — share an identifier, the build fails
/// with an identifier collision; if all identifiers are pairwise distinct,
/// the build succeeds and the registry holds exactly one key per record.
pub proof fn lemma_registry_uniqueness<T: Proto>(files: Seq<Seq<u8>>)
    requires
        all_decode_ok::<T>(files),
    ensures
        pids_distinct::<T>(files, files.len() as int) ==> (build_btree_s::<T>(files) matches Ok(st)
            && st.0.len() == total_records::<T>(files, files.len() as int)),
        !pids_distinct::<T>(files, files.len() as int) ==> (build_btree_s::<T>(files) matches Err(
            be,
        ) && be.err matches ProtoError::IdentifierCollision { .. }),
{
    let n = files.len() as int;
    if pids_distinct::<T>(files, n) {
        lemma_build_fold_distinct_ok::<T>(files, n);
        lemma_build_fold_ok::<T>(files, n);
    } else {
        if build_fold::<T>(files, n) is Ok {
            lemma_build_fold_ok::<T>(files, n);
        }
        lemma_build_fold_err_kind::<T>(files, n);
    }
}

/// Registers every record of `recs`, in order, aborting on the first
/// identifier collision.
pub fn insert_records<T: Proto>(reg: &mut PidMap<T>, recs: Vec<T>) -> (r: Result<(), ProtoError>)
    requires
        old(reg).wf(),
    ensures
        final(reg).wf(),
        match r {
            Ok(()) => insert_all::<T>(
                old(reg).keys@,
                tvals_view(old(reg).vals@),
                tvals_view(recs@),
                recs@.len() as int,
            ) == Ok::<(Seq<u16>, Seq<T::V>), u16>(
                (final(reg).keys@, tvals_view(final(reg).vals@)),
            ),
            Err(e) => (e matches ProtoError::IdentifierCollision { pid } && insert_all::<T>(
                old(reg).keys@,
                tvals_view(old(reg).vals@),
                tvals_view(recs@),
                recs@.len() as int,
            ) == Err::<(Seq<u16>, Seq<T::V>), u16>(pid)),
        },
{
    let ghost ks0 = old(reg).keys@;
    let ghost vs0 = tvals_view(old(reg).vals@);
    let ghost rv = tvals_view(recs@);
    let mut pending = recs;
    proof {
        assert(tvals_view(pending@) =~= rv.subrange(0, rv.len() as int));
    }
    while pending.len() > 0
        invariant
            reg.wf(),
            ks0 == old(reg).keys@,
            vs0 == tvals_view(old(reg).vals@),
            rv == tvals_view(recs@),
            pending@.len() <= rv.len(),
            tvals_view(pending@) == rv.subrange(rv.len() - pending@.len(), rv.len() as int),
            insert_all::<T>(ks0, vs0, rv, rv.len() - pending@.len()) == Ok::<
                (Seq<u16>, Seq<T::V>),
                u16,
            >((reg.keys@, tvals_view(reg.vals@))),
        decreases pending.len(),
    {
        let ghost j = rv.len() - pending@.len();
        let ghost before = pending@;
        let v = pending.remove(0);
        proof {
            assert(pending@ =~= before.subrange(1, before.len() as int));
            assert(v == before[0]);
            assert(v@ == tvals_view(before)[0]);
            assert(tvals_view(before)[0] == rv.subrange(j, rv.len() as int)[0]);
            assert(v@ == rv[j]);
            assert forall|x: int| 0 <= x < pending@.len() implies tvals_view(pending@)[x] == rv[j
                + 1 + x] by {
                assert(pending@[x] == before[x + 1]);
                assert(tvals_view(before)[x + 1] == rv.subrange(j, rv.len() as int)[x + 1]);
            }
            assert(tvals_view(pending@) =~= rv.subrange(rv.len() - pending@.len(), rv.len() as int));
        }
        let pid = v.proto_id();
        let ghost keys_before = reg.keys@;
        let ghost vals_before = tvals_view(reg.vals@);
        let ghost vv = v@;
        match reg.insert(pid, v) {
            Err(e) => {
                proof {
                    assert(insert_all::<T>(ks0, vs0, rv, j + 1) == Err::<
                        (Seq<u16>, Seq<T::V>),
                        u16,
                    >(pid));
                    lemma_insert_all_err::<T>(ks0, vs0, rv, j + 1, rv.len() as int);
                    assert(rv == tvals_view(recs@));
                }
                return Err(e);
            },
            Ok(()) => {
                proof {
                    lemma_lower_bound(keys_before, pid);
                    let p = lower_bound(keys_before, pid);
                    assert(tvals_view(reg.vals@) =~= vals_before.insert(p, vv));
                    assert(insert_all::<T>(ks0, vs0, rv, j + 1) == Ok::<
                        (Seq<u16>, Seq<T::V>),
                        u16,
                    >((reg.keys@, tvals_view(reg.vals@))));
                }
            },
        }
    }
    proof {
        assert(rv.len() - pending@.len() == rv.len());
        assert(rv == tvals_view(recs@));
    }
    Ok(())
}

/// Builds one registry over every file of a manifest: each file is
/// translated and decoded, and its records are registered in order; a
/// malformed file or an identifier collision aborts the whole build.
pub fn build_btree<T: Proto>(files: &Vec<Vec<u8>>) -> (r: Result<PidMap<T>, BuildError>)
    ensures
        match r {
            Ok(reg) => reg.wf() && build_btree_s::<T>(files_view(files@)) == Ok::<
                (Seq<u16>, Seq<T::V>),
                BuildError,
            >((reg.keys@, tvals_view(reg.vals@))),
            Err(e) => build_btree_s::<T>(files_view(files@)) == Err::<
                (Seq<u16>, Seq<T::V>),
                BuildError,
            >(e),
        },
{
    let ghost fv = files_view(files@);
    let n = files.len();
    let mut reg = PidMap::<T>::new();
    let mut fi: usize = 0;
    proof {
        assert(tvals_view(reg.vals@) =~= Seq::<T::V>::empty());
    }
    while fi < n
        invariant
            0 <= fi <= n == files@.len(),
            fv == files_view(files@),
            reg.wf(),
            build_fold::<T>(fv, fi as int) == Ok::<(Seq<u16>, Seq<T::V>), BuildError>(
                (reg.keys@, tvals_view(reg.vals@)),
            ),
        decreases n - fi,
    {
        proof {
            assert(fv[fi as int] == files@[fi as int]@);
        }
        match proto_from_ini::<T>(files[fi].as_slice()) {
            Err(e) => {
                proof {
                    assert(build_fold::<T>(fv, fi as int + 1) == Err::<
                        (Seq<u16>, Seq<T::V>),
                        BuildError,
                    >(BuildError { file: fi, err: e }));
                    lemma_build_fold_err::<T>(fv, fi as int + 1, fv.len() as int);
                }
                return Err(BuildError { file: fi, err: e });
            },
            Ok(ps) => {
                let ghost rv = ps@;
                let ghost keys_before = reg.keys@;
                let ghost vals_before = tvals_view(reg.vals@);
                match insert_records(&mut reg, ps.values) {
                    Err(e) => {
                        proof {
                            let pid = match e {
                                ProtoError::IdentifierCollision { pid } => pid,
                                _ => 0u16,
                            };
                            assert(insert_all::<T>(keys_before, vals_before, rv, rv.len() as int)
                                == Err::<(Seq<u16>, Seq<T::V>), u16>(pid));
                            assert(build_fold::<T>(fv, fi as int + 1) == Err::<
                                (Seq<u16>, Seq<T::V>),
                                BuildError,
                            >(BuildError { file: fi, err: e }));
                            lemma_build_fold_err::<T>(fv, fi as int + 1, fv.len() as int);
                        }
                        return Err(BuildError { file: fi, err: e });
                    },
                    Ok(()) => {},
                }
            },
        }
        fi = fi + 1;
    }
    Ok(reg)
}

/// One registry per file: as [`build_btree`], except that every file gets a
/// registry of its own, so identifiers collide only within one file.
pub open spec fn per_file_fold<T: Proto>(files: Seq<Seq<u8>>, n: int) -> Result<
    Seq<(Seq<u16>, Seq<T::V>)>,
    BuildError,
>
    decreases n,
{
    if n <= 0 {
        Ok(Seq::empty())
    } else {
        match per_file_fold::<T>(files, n - 1) {
            Err(e) => Err(e),
            Ok(regs) => match proto_from_ini_s::<T>(files[n - 1]) {
                Err(e) => Err(BuildError { file: (n - 1) as usize, err: e }),
                Ok(recs) => match insert_all::<T>(
                    Seq::empty(),
                    Seq::empty(),
                    recs,
                    recs.len() as int,
                ) {
                    Err(pid) => Err(
                        BuildError {
                            file: (n - 1) as usize,
                            err: ProtoError::IdentifierCollision { pid },
                        },
                    ),
                    Ok(st) => Ok(regs.push(st)),
                },
            },
        }
    }
}

proof fn lemma_per_file_fold_err<T: Proto>(files: Seq<Seq<u8>>, n: int, m: int)
    requires
        per_file_fold::<T>(files, n) is Err,
        n <= m,
    ensures
        per_file_fold::<T>(files, m) == per_file_fold::<T>(files, n),
    decreases m - n,
{
    if m > n {
        lemma_per_file_fold_err::<T>(files, n, m - 1);
    }
}

/// The registry views of a sequence of registries.
pub open spec fn regs_view<T: Proto>(regs: Seq<PidMap<T>>) -> Seq<(Seq<u16>, Seq<T::V>)> {
    regs.map_values(|r: PidMap<T>| (r.keys@, tvals_view(r.vals@)))
}

/// Builds one registry per manifest file, in manifest order.
pub fn build_btree_per_file<T: Proto>(files: &Vec<Vec<u8>>) -> (r: Result<
    Vec<PidMap<T>>,
    BuildError,
>)
    ensures
        match r {
            Ok(regs) => (forall|i: int| 0 <= i < regs@.len() ==> (#[trigger] regs@[i]).wf())
                && per_file_fold::<T>(files_view(files@), files@.len() as int) == Ok::<
                Seq<(Seq<u16>, Seq<T::V>)>,
                BuildError,
            >(regs_view(regs@)),
            Err(e) => per_file_fold::<T>(files_view(files@), files@.len() as int) == Err::<
                Seq<(Seq<u16>, Seq<T::V>)>,
                BuildError,
            >(e),
        },
{
    let ghost fv = files_view(files@);
    let n = files.len();
    let mut regs: Vec<PidMap<T>> = Vec::new();
    let mut fi: usize = 0;
    proof {
        assert(regs_view::<T>(regs@) =~= Seq::<(Seq<u16>, Seq<T::V>)>::empty());
    }
    while fi < n
        invariant
            0 <= fi <= n == files@.len(),
            fv == files_view(files@),
            forall|i: int| 0 <= i < regs@.len() ==> (#[trigger] regs@[i]).wf(),
            per_file_fold::<T>(fv, fi as int) == Ok::<Seq<(Seq<u16>, Seq<T::V>)>, BuildError>(
                regs_view(regs@),
            ),
        decreases n - fi,
    {
        proof {
            assert(fv[fi as int] == files@[fi as int]@);
        }
        match proto_from_ini::<T>(files[fi].as_slice()) {
            Err(e) => {
                proof {
                    lemma_per_file_fold_err::<T>(fv, fi as int + 1, fv.len() as int);
                }
                return Err(BuildError { file: fi, err: e });
            },
            Ok(ps) => {
                let ghost rv = ps@;
                let mut reg = PidMap::<T>::new();
                proof {
                    assert(tvals_view(reg.vals@) =~= Seq::<T::V>::empty());
                }
                match insert_records(&mut reg, ps.values) {
                    Err(e) => {
                        proof {
                            lemma_per_file_fold_err::<T>(fv, fi as int + 1, fv.len() as int);
                        }
                        return Err(BuildError { file: fi, err: e });
                    },
                    Ok(()) => {
                        regs.push(reg);
                        proof {
                            assert(regs_view::<T>(regs@) =~= per_file_fold::<T>(
                                fv,
                                fi as int,
                            )->Ok_0.push((reg.keys@, tvals_view(reg.vals@))));
                        }
                    },
                }
            },
        }
        fi = fi + 1;
    }
    Ok(regs)
}

} // verus!
