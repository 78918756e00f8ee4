//! Dense numbering of distinct strings.

use std::collections::hash_map::DefaultHasher;
use std::collections::HashMap;
use std::hash::Hasher;

use vstd::prelude::*;
use vstd::std_specs::hash::DefaultHasherAdditionalSpecFns;
use vstd::string::StringSliceAdditionalSpecFns;
use vstd::utf8::encode_utf8;

use crate::text::{str_eq, views};
use crate::walk::distinct_names;

verus! {

broadcast use vstd::std_specs::hash::group_hash_axioms;

/// The bucket of a string: the standard hasher's digest of its UTF-8 bytes.
pub open spec fn str_hash_spec(s: Seq<char>) -> u64 {
    DefaultHasher::spec_finish(seq![encode_utf8(s)])
}

/// The standard hasher's digest of the bytes of `s`.
pub fn str_hash(s: &str) -> (h: u64)
    ensures
        h == str_hash_spec(s@),
{
    let mut hasher = DefaultHasher::new();
    hasher.write(s.as_bytes());
    let h = hasher.finish();
    proof {
        assert(hasher@ =~= seq![encode_utf8(s@)]);
    }
    h
}

/// Distinct strings numbered in order of first insertion.
pub struct Interner {
    names: Vec<String>,
    buckets: HashMap<u64, Vec<usize>>,
}

impl Interner {
    /// The numbered strings; node `i` stands for `names()[i]`.
    pub closed spec fn names(&self) -> Seq<Seq<char>> {
        views(self.names@)
    }

    pub closed spec fn wf(&self) -> bool {
        &&& forall|i: int, j: int|
            0 <= i < self.names@.len() && 0 <= j < self.names@.len() && i != j
                ==> #[trigger] self.names@[i]@ != #[trigger] self.names@[j]@
        &&& forall|k: u64, m: int|
            #![trigger self.buckets@[k]@[m]]
            self.buckets@.contains_key(k) && 0 <= m < self.buckets@[k]@.len() ==> {
                &&& self.buckets@[k]@[m] < self.names@.len()
                &&& str_hash_spec(self.names@[self.buckets@[k]@[m] as int]@) == k
            }
        &&& forall|i: int|
            #![trigger self.names@[i]]
            0 <= i < self.names@.len() ==> {
                &&& self.buckets@.contains_key(str_hash_spec(self.names@[i]@))
                &&& self.buckets@[str_hash_spec(self.names@[i]@)]@.contains(i as usize)
            }
    }

    /// Distinct numbers stand for distinct strings.
    pub proof fn lemma_distinct(&self)
        requires
            self.wf(),
        ensures
            distinct_names(self.names()),
    {
        assert forall|i: int, j: int|
            0 <= i < self.names().len() && 0 <= j < self.names().len() && i != j
                implies #[trigger] self.names()[i] != #[trigger] self.names()[j] by {
            assert(self.names@[i]@ == self.names()[i]);
            assert(self.names@[j]@ == self.names()[j]);
        }
    }

    pub fn new() -> (r: Self)
        ensures
            r.wf(),
            r.names() == Seq::<Seq<char>>::empty(),
    {
        let r = Interner { names: Vec::new(), buckets: HashMap::new() };
        assert(r.names() =~= Seq::<Seq<char>>::empty());
        r
    }

    pub fn len(&self) -> (r: usize)
        ensures
            r == self.names().len(),
    {
        self.names.len()
    }

    /// The number of the string equal to `s`, if it was inserted.
    pub fn lookup(&self, s: &str) -> (r: Option<usize>)
        requires
            self.wf(),
        ensures
            match r {
                Some(i) => i < self.names().len() && self.names()[i as int] == s@,
                None => forall|i: int| 0 <= i < self.names().len() ==> self.names()[i] != s@,
            },
    {
        let h = str_hash(s);
        match self.buckets.get(&h) {
            None => {
                proof {
                    assert forall|i: int| 0 <= i < self.names().len() implies self.names()[i] != s@ by {
                        assert(self.names@[i]@ == self.names()[i]);
                    }
                }
                None
            },
            Some(bucket) => {
                let mut m: usize = 0;
                while m < bucket.len()
                    invariant
                        self.wf(),
                        self.buckets@.contains_key(h),
                        bucket@ == self.buckets@[h]@,
                        m <= bucket@.len(),
                        forall|q: int| 0 <= q < m ==> self.names@[bucket@[q] as int]@ != s@,
                    decreases bucket@.len() - m,
                {
                    let i = bucket[m];
                    assert(self.buckets@[h]@[m as int] == i);
                    if str_eq(self.names[i].as_str(), s) {
                        return Some(i);
                    }
                    m = m + 1;
                }
                proof {
                    assert forall|i: int| 0 <= i < self.names().len() implies self.names()[i] != s@ by {
                        assert(self.names@[i]@ == self.names()[i]);
                        if self.names@[i]@ == s@ {
                            assert(str_hash_spec(self.names@[i]@) == h);
                            assert(i < self.names.len());
                            let iu = i as usize;
                            assert(iu as int == i);
                            assert(self.buckets@[h]@.contains(iu));
                            assert(bucket@.contains(iu));
                            let q = choose|q: int| 0 <= q < bucket@.len() && bucket@[q] == iu;
                            assert(self.names@[bucket@[q] as int]@ != s@);
                            assert(bucket@[q] as int == i);
                        }
                    }
                }
                None
            },
        }
    }

    /// The number of `s`, inserting it first when it is new.
    pub fn intern(&mut self, s: &str) -> (r: usize)
        requires
            old(self).wf(),
        ensures
            final(self).wf(),
            r < final(self).names().len(),
            final(self).names()[r as int] == s@,
            old(self).names().contains(s@) ==> final(self).names() == old(self).names(),
            !old(self).names().contains(s@) ==> final(self).names() == old(self).names().push(s@),
    {
        match self.lookup(s) {
            Some(i) => {
                proof {
                    assert(old(self).names()[i as int] == s@);
                }
                i
            },
            None => {
                let h = str_hash(s);
                let i = self.names.len();
                let ghost old_names = self.names@;
                let ghost old_buckets = self.buckets@;
                self.names.push(s.to_owned());
                let mut bucket = match self.buckets.remove(&h) {
                    Some(b) => b,
                    None => Vec::new(),
                };
                let ghost old_bucket = bucket@;
                bucket.push(i);
                self.buckets.insert(h, bucket);
                proof {
                    assert(self.names() =~= old(self).names().push(s@));
                    assert(!old(self).names().contains(s@));
                    assert forall|a: int, b: int|
                        0 <= a < self.names@.len() && 0 <= b < self.names@.len() && a != b
                            implies #[trigger] self.names@[a]@ != #[trigger] self.names@[b]@ by {
                        if a < i && b < i {
                            assert(self.names@[a] == old_names[a]);
                            assert(self.names@[b] == old_names[b]);
                        } else if a == i {
                            assert(self.names@[b]@ == old(self).names()[b]);
                        } else {
                            assert(self.names@[a]@ == old(self).names()[a]);
                        }
                    }
                    assert(old_buckets.contains_key(h) ==> old_bucket == old_buckets[h]@);
                    assert(!old_buckets.contains_key(h) ==> old_bucket.len() == 0);
                    assert forall|k: u64, m: int|
                        #![trigger self.buckets@[k]@[m]]
                        self.buckets@.contains_key(k) && 0 <= m < self.buckets@[k]@.len() implies {
                            &&& self.buckets@[k]@[m] < self.names@.len()
                            &&& str_hash_spec(self.names@[self.buckets@[k]@[m] as int]@) == k
                        } by {
                        if k == h {
                            if m < old_bucket.len() {
                                assert(self.buckets@[k]@[m] == old_buckets[k]@[m]);
                                assert(self.names@[old_buckets[k]@[m] as int] == old_names[old_buckets[k]@[m] as int]);
                            }
                        } else {
                            assert(self.buckets@[k] == old_buckets[k]);
                            assert(self.names@[old_buckets[k]@[m] as int] == old_names[old_buckets[k]@[m] as int]);
                        }
                    }
                    assert forall|j: int|
                        #![trigger self.names@[j]]
                        0 <= j < self.names@.len() implies {
                            &&& self.buckets@.contains_key(str_hash_spec(self.names@[j]@))
                            &&& self.buckets@[str_hash_spec(self.names@[j]@)]@.contains(j as usize)
                        } by {
                        if j == i {
                            assert(self.buckets@[h]@[self.buckets@[h]@.len() - 1] == i);
                        } else {
                            assert(self.names@[j] == old_names[j]);
                            let k = str_hash_spec(old_names[j]@);
                            assert(old_buckets[k]@.contains(j as usize));
                            let q = choose|q: int| 0 <= q < old_buckets[k]@.len() && old_buckets[k]@[q] == j as usize;
                            if k == h {
                                assert(self.buckets@[k]@[q] == j as usize);
                            } else {
                                assert(self.buckets@[k] == old_buckets[k]);
                            }
                        }
                    }
                }
                i
            },
        }
    }
}

} // verus!
