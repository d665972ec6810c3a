//! Version vectors: the logical clocks that order snapshots.

use crate::collections::table::{lemma_index_of, Table};
use crate::crypto::hash;
use crate::crypto::sign::PublicKey;
use crate::error::Error;
use vstd::prelude::*;

verus! {

/// How two version vectors stand to each other.
#[derive(Clone, Copy, Debug, PartialEq, Eq, Structural)]
pub enum Relation {
    /// Every version is the same.
    Equal,
    /// No version of the first is above that of the second, and some is below.
    Less,
    /// No version of the first is below that of the second, and some is above.
    Greater,
    /// Some version of the first is above and some is below.
    Concurrent,
}

/// A version for each writer. Writers that are not listed have version zero.
#[derive(Debug)]
pub struct VersionVector {
    pub versions: Table<u64>,
}

/// The version of the writer with key `key` in the versions `m`.
pub open spec fn version_of(m: Map<hash::Hash, u64>, key: hash::Hash) -> u64 {
    if m.contains_key(key) {
        m[key]
    } else {
        0
    }
}

impl VersionVector {
    /// The list is ordered and holds no zero version.
    pub open spec fn wf(&self) -> bool {
        &&& self.versions.wf()
        &&& forall|k: hash::Hash| #[trigger] self.versions@.contains_key(k)
            ==> self.versions@[k] > 0
    }

    /// The version of `writer`.
    pub open spec fn spec_get(&self, writer: PublicKey) -> u64 {
        version_of(self.versions@, writer.key)
    }

    /// `self <= other`: no version of `self` is above that of `other`.
    pub open spec fn spec_le(&self, other: &VersionVector) -> bool {
        forall|w: PublicKey| #[trigger] self.spec_get(w) <= other.spec_get(w)
    }

    /// Every version is the same.
    pub open spec fn spec_eq(&self, other: &VersionVector) -> bool {
        forall|w: PublicKey| #[trigger] self.spec_get(w) == other.spec_get(w)
    }

    /// `self < other`: `self <= other` and they differ.
    pub open spec fn spec_lt(&self, other: &VersionVector) -> bool {
        self.spec_le(other) && !other.spec_le(self)
    }

    pub open spec fn spec_relation(&self, other: &VersionVector) -> Relation {
        if self.spec_le(other) {
            if other.spec_le(self) {
                Relation::Equal
            } else {
                Relation::Less
            }
        } else if other.spec_le(self) {
            Relation::Greater
        } else {
            Relation::Concurrent
        }
    }

    /// The vector in which every version is zero.
    pub fn new() -> (vv: VersionVector)
        ensures
            vv.wf(),
            forall|w: PublicKey| #[trigger] vv.spec_get(w) == 0,
    {
        VersionVector { versions: Table::new() }
    }

    /// The vector in which `writer` has version one and every other writer zero.
    pub fn first(writer: PublicKey) -> (vv: VersionVector)
        ensures
            vv.wf(),
            forall|w: PublicKey|
                #[trigger] vv.spec_get(w) == (if w == writer {
                    1u64
                } else {
                    0u64
                }),
    {
        let mut versions: Table<u64> = Table::new();
        versions.insert(writer.key, 1);
        VersionVector { versions }
    }

    pub fn get(&self, writer: &PublicKey) -> (v: u64)
        requires
            self.wf(),
        ensures
            v == self.spec_get(*writer),
    {
        match self.versions.get(&writer.key) {
            Some(v) => *v,
            None => 0,
        }
    }

    pub fn is_empty(&self) -> (r: bool)
        requires
            self.wf(),
        ensures
            r == (forall|w: PublicKey| #[trigger] self.spec_get(w) == 0),
    {
        let r = self.versions.is_empty();
        proof {
            if !r {
                let k = self.versions.entries@[0].key;
                lemma_index_of(self.versions.entries@, 0);
                assert(self.spec_get(PublicKey { key: k }) > 0);
            }
        }
        r
    }

    /// Raises the version of `writer` to `version` if it is below it.
    pub fn insert(&mut self, writer: PublicKey, version: u64)
        requires
            old(self).wf(),
        ensures
            final(self).wf(),
            forall|w: PublicKey|
                #[trigger] final(self).spec_get(w) == (if w == writer && old(self).spec_get(w)
                    < version {
                    version
                } else {
                    old(self).spec_get(w)
                }),
    {
        let current = self.get(&writer);
        if current < version {
            self.versions.insert(writer.key, version);
        }
    }

    /// Adds one to the version of `writer`. Fails, and changes nothing, if
    /// that version is the largest number already.
    pub fn increment(&mut self, writer: PublicKey) -> (r: Result<(), Error>)
        requires
            old(self).wf(),
        ensures
            final(self).wf(),
            r.is_ok() <==> old(self).spec_get(writer) < u64::MAX,
            r.is_err() ==> r == Err::<(), Error>(Error::VersionOverflow) && final(self).versions
                == old(self).versions,
            r.is_ok() ==> forall|w: PublicKey|
                #[trigger] final(self).spec_get(w) == (if w == writer {
                    (old(self).spec_get(w) + 1) as u64
                } else {
                    old(self).spec_get(w)
                }),
    {
        let current = self.get(&writer);
        if current == u64::MAX {
            return Err(Error::VersionOverflow);
        }
        self.versions.insert(writer.key, current + 1);
        Ok(())
    }

    /// `self <= other`.
    pub fn le(&self, other: &VersionVector) -> (r: bool)
        requires
            self.wf(),
            other.wf(),
        ensures
            r == self.spec_le(other),
    {
        let mut i: usize = 0;
        while i < self.versions.len()
            invariant
                self.wf(),
                other.wf(),
                i <= self.versions.entries@.len(),
                forall|j: int|
                    0 <= j < i ==> (#[trigger] self.versions.entries@[j]).value <= version_of(
                        other.versions@,
                        self.versions.entries@[j].key,
                    ),
            decreases self.versions.entries@.len() - i,
        {
            let key = self.versions.key_at(i);
            let mine = *self.versions.value_at(i);
            let theirs = other.get(&PublicKey { key });
            if mine > theirs {
                proof {
                    let w = PublicKey { key };
                    assert(self.spec_get(w) == mine);
                    assert(!(self.spec_get(w) <= other.spec_get(w)));
                }
                return false;
            }
            i = i + 1;
        }
        proof {
            assert forall|w: PublicKey| #[trigger] self.spec_get(w) <= other.spec_get(w) by {
                if self.versions@.contains_key(w.key) {
                    let j = crate::collections::table::index_of(self.versions.entries@, w.key);
                    lemma_index_of(self.versions.entries@, j);
                    assert(self.versions.entries@[j].value <= version_of(
                        other.versions@,
                        self.versions.entries@[j].key,
                    ));
                }
            }
        }
        true
    }

    /// How `self` stands to `other`.
    pub fn relation(&self, other: &VersionVector) -> (r: Relation)
        requires
            self.wf(),
            other.wf(),
        ensures
            r == self.spec_relation(other),
    {
        let below = self.le(other);
        let above = other.le(self);
        if below {
            if above {
                Relation::Equal
            } else {
                Relation::Less
            }
        } else if above {
            Relation::Greater
        } else {
            Relation::Concurrent
        }
    }

    /// `self < other`.
    pub fn lt(&self, other: &VersionVector) -> (r: bool)
        requires
            self.wf(),
            other.wf(),
        ensures
            r == self.spec_lt(other),
    {
        self.le(other) && !other.le(self)
    }

    /// Whether every version is the same in both.
    pub fn same(&self, other: &VersionVector) -> (r: bool)
        requires
            self.wf(),
            other.wf(),
        ensures
            r == self.spec_eq(other),
    {
        let r = self.le(other) && other.le(self);
        proof {
            if r {
                assert forall|w: PublicKey| #[trigger] self.spec_get(w) == other.spec_get(w) by {
                    assert(self.spec_get(w) <= other.spec_get(w));
                    assert(other.spec_get(w) <= self.spec_get(w));
                }
            } else if self.spec_eq(other) {
                assert forall|w: PublicKey| #[trigger] self.spec_get(w) <= other.spec_get(w) by {
                    assert(self.spec_get(w) == other.spec_get(w));
                }
                assert forall|w: PublicKey| #[trigger] other.spec_get(w) <= self.spec_get(w) by {
                    assert(self.spec_get(w) == other.spec_get(w));
                }
            }
        }
        r
    }

    /// Raises every version of `self` to that of `other` where it is below it.
    pub fn merge(&mut self, other: &VersionVector)
        requires
            old(self).wf(),
            other.wf(),
        ensures
            final(self).wf(),
            forall|w: PublicKey|
                #[trigger] final(self).spec_get(w) == (if old(self).spec_get(w) < other.spec_get(
                    w,
                ) {
                    other.spec_get(w)
                } else {
                    old(self).spec_get(w)
                }),
    {
        let mut i: usize = 0;
        while i < other.versions.len()
            invariant
                self.wf(),
                other.wf(),
                i <= other.versions.entries@.len(),
                forall|k: hash::Hash|
                    #![trigger version_of(self.versions@, k)]
                    version_of(self.versions@, k) == (if exists|j: int|
                        0 <= j < i && (#[trigger] other.versions.entries@[j]).key == k {
                        if version_of(old(self).versions@, k) < version_of(other.versions@, k) {
                            version_of(other.versions@, k)
                        } else {
                            version_of(old(self).versions@, k)
                        }
                    } else {
                        version_of(old(self).versions@, k)
                    }),
            decreases other.versions.entries@.len() - i,
        {
            let key = other.versions.key_at(i);
            let theirs = *other.versions.value_at(i);
            let ghost before = self.versions@;
            self.insert(PublicKey { key }, theirs);
            proof {
                let es = other.versions.entries@;
                assert forall|k: hash::Hash|
                    #![trigger version_of(self.versions@, k)]
                    version_of(self.versions@, k) == (if exists|j: int|
                        0 <= j < i + 1 && (#[trigger] es[j]).key == k {
                        if version_of(old(self).versions@, k) < version_of(other.versions@, k) {
                            version_of(other.versions@, k)
                        } else {
                            version_of(old(self).versions@, k)
                        }
                    } else {
                        version_of(old(self).versions@, k)
                    }) by {
                    let w = PublicKey { key: k };
                    assert(self.spec_get(w) == version_of(self.versions@, k));
                    let seen_before = exists|j: int| 0 <= j < i && (#[trigger] es[j]).key == k;
                    let seen_now = exists|j: int| 0 <= j < i + 1 && (#[trigger] es[j]).key == k;
                    if k == key {
                        assert(es[i as int].key == k);
                        assert(seen_now);
                        if seen_before {
                            let j = choose|j: int| 0 <= j < i && (#[trigger] es[j]).key == k;
                            crate::collections::table::lemma_index_unique(es, j, i as int);
                        }
                        assert(version_of(before, k) == version_of(old(self).versions@, k));
                    } else {
                        if seen_now {
                            let j = choose|j: int| 0 <= j < i + 1 && (#[trigger] es[j]).key == k;
                            assert(j < i);
                            assert(seen_before);
                        }
                        if seen_before {
                            let j = choose|j: int| 0 <= j < i && (#[trigger] es[j]).key == k;
                            assert(0 <= j < i + 1 && es[j].key == k);
                            assert(seen_now);
                        }
                    }
                }
            }
            i = i + 1;
        }
        proof {
            let es = other.versions.entries@;
            assert forall|w: PublicKey|
                #[trigger] self.spec_get(w) == (if old(self).spec_get(w) < other.spec_get(w) {
                    other.spec_get(w)
                } else {
                    old(self).spec_get(w)
                }) by {
                let k = w.key;
                assert(self.spec_get(w) == version_of(self.versions@, k));
                if other.versions@.contains_key(k) {
                    let j = crate::collections::table::index_of(es, k);
                    assert(0 <= j < i && es[j].key == k);
                } else {
                    if exists|j: int| 0 <= j < i && (#[trigger] es[j]).key == k {
                        let j = choose|j: int| 0 <= j < i && (#[trigger] es[j]).key == k;
                        lemma_index_of(es, j);
                    }
                }
            }
        }
    }

    /// A copy of this vector.
    pub fn duplicate(&self) -> (vv: VersionVector)
        requires
            self.wf(),
        ensures
            vv.wf(),
            vv.versions@ == self.versions@,
            forall|w: PublicKey| #[trigger] vv.spec_get(w) == self.spec_get(w),
    {
        let mut versions: Table<u64> = Table::new();
        let mut i: usize = 0;
        while i < self.versions.len()
            invariant
                self.wf(),
                versions.wf(),
                i <= self.versions.entries@.len(),
                forall|k: hash::Hash|
                    #![trigger versions@.contains_key(k)]
                    versions@.contains_key(k) <==> (exists|j: int|
                        0 <= j < i && (#[trigger] self.versions.entries@[j]).key == k),
                forall|k: hash::Hash|
                    #![trigger versions@[k]]
                    versions@.contains_key(k) ==> versions@[k] == self.versions@[k],
            decreases self.versions.entries@.len() - i,
        {
            let key = self.versions.key_at(i);
            let value = *self.versions.value_at(i);
            let ghost prev = versions@;
            versions.insert(key, value);
            proof {
                let es = self.versions.entries@;
                assert forall|k: hash::Hash|
                    #![trigger versions@.contains_key(k)]
                    versions@.contains_key(k) <==> (exists|j: int|
                        0 <= j < i + 1 && (#[trigger] es[j]).key == k) by {
                    if k == key {
                        assert(es[i as int].key == k);
                    } else {
                        if prev.contains_key(k) {
                            let j = choose|j: int| 0 <= j < i && (#[trigger] es[j]).key == k;
                            assert(0 <= j < i + 1 && es[j].key == k);
                        }
                        if exists|j: int| 0 <= j < i + 1 && (#[trigger] es[j]).key == k {
                            let j = choose|j: int| 0 <= j < i + 1 && (#[trigger] es[j]).key == k;
                            assert(0 <= j < i && es[j].key == k);
                        }
                    }
                }
            }
            i = i + 1;
        }
        proof {
            let es = self.versions.entries@;
            assert forall|k: hash::Hash| versions@.contains_key(k) <==> self.versions@.contains_key(
                k,
            ) by {
                if self.versions@.contains_key(k) {
                    let j = crate::collections::table::index_of(es, k);
                    assert(0 <= j < i && es[j].key == k);
                }
                if versions@.contains_key(k) {
                    let j = choose|j: int| 0 <= j < i && (#[trigger] es[j]).key == k;
                    lemma_index_of(es, j);
                }
            }
            assert(versions@ =~= self.versions@);
        }
        VersionVector { versions }
    }
}

/// A change to the version vector of a branch.
#[derive(Debug)]
pub enum VersionVectorOp {
    /// Add one to the version of the branch's own writer.
    IncrementLocal,
    /// Raise every version to that of the given vector where it is below it.
    Merge(VersionVector),
}

impl VersionVectorOp {
    pub open spec fn wf(&self) -> bool {
        match self {
            VersionVectorOp::IncrementLocal => true,
            VersionVectorOp::Merge(other) => other.wf(),
        }
    }

    /// The version of `w` after this change was applied, for the branch of
    /// `local_id`, to a vector in which `w` had version `before`.
    pub open spec fn spec_apply(&self, local_id: PublicKey, w: PublicKey, before: u64) -> u64 {
        match self {
            VersionVectorOp::IncrementLocal => if w == local_id {
                (before + 1) as u64
            } else {
                before
            },
            VersionVectorOp::Merge(other) => if before < other.spec_get(w) {
                other.spec_get(w)
            } else {
                before
            },
        }
    }

    /// Applies this change to `vv`. Fails, and changes nothing, if a version would overflow.
    pub fn apply(&self, local_id: &PublicKey, vv: &mut VersionVector) -> (r: Result<(), Error>)
        requires
            self.wf(),
            old(vv).wf(),
        ensures
            final(vv).wf(),
            r.is_err() <==> (*self is IncrementLocal && old(vv).spec_get(*local_id) == u64::MAX),
            r.is_err() ==> r == Err::<(), Error>(Error::VersionOverflow) && final(vv).versions
                == old(vv).versions,
            r.is_ok() ==> forall|w: PublicKey|
                #[trigger] final(vv).spec_get(w) == self.spec_apply(
                    *local_id,
                    w,
                    old(vv).spec_get(w),
                ),
    {
        match self {
            VersionVectorOp::IncrementLocal => vv.increment(*local_id),
            VersionVectorOp::Merge(other) => {
                vv.merge(other);
                Ok(())
            },
        }
    }
}

/// A version vector in which the version of one writer is one higher, and
/// every other version is the same, is greater.
pub proof fn lemma_incremented_is_greater(
    before: &VersionVector,
    after: &VersionVector,
    writer: PublicKey,
)
    requires
        before.spec_get(writer) < u64::MAX,
        forall|w: PublicKey| #[trigger]
            after.spec_get(w) == (if w == writer {
                (before.spec_get(w) + 1) as u64
            } else {
                before.spec_get(w)
            }),
    ensures
        before.spec_lt(after),
{
    assert(after.spec_get(writer) > before.spec_get(writer));
    assert forall|w: PublicKey| #[trigger] before.spec_get(w) <= after.spec_get(w) by {
        assert(after.spec_get(w) == (if w == writer {
            (before.spec_get(w) + 1) as u64
        } else {
            before.spec_get(w)
        }));
    }
}

} // verus!
