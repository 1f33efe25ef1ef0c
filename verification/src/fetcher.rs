//! Fetching bytes by URL.
//!
//! The library's resolvers and the mounter only need "the bytes at this
//! URL"; the in-memory fetcher here answers from a fixed table and is
//! verified. The network-backed fetcher lives outside the library.

use vstd::prelude::*;

verus! {

/// A fetcher answering from a fixed in-memory table of URL-to-bytes
/// entries.
#[derive(Debug)]
pub struct DummyUrlFetcher {
    data: Vec<(String, Vec<u8>)>,
}

impl DummyUrlFetcher {
    /// Each URL is recorded at most once.
    pub closed spec fn wf(&self) -> bool {
        forall|a: int, b: int|
            0 <= a < b < self.data@.len() ==> (#[trigger] self.data@[a]).0@ != (
            #[trigger] self.data@[b]).0@
    }

    /// The bytes recorded for `url`, if any.
    pub closed spec fn data_at(&self, url: Seq<char>) -> Option<Seq<u8>> {
        if exists|k: int| 0 <= k < self.data@.len() && (#[trigger] self.data@[k]).0@ == url {
            let k = choose|k: int|
                0 <= k < self.data@.len() && (#[trigger] self.data@[k]).0@ == url;
            Some(self.data@[k].1@)
        } else {
            None
        }
    }

    /// An empty table.
    pub fn new() -> (r: DummyUrlFetcher)
        ensures
            r.wf(),
            forall|u: Seq<char>| #[trigger] r.data_at(u) is None,
    {
        DummyUrlFetcher { data: Vec::new() }
    }

    proof fn lemma_data_at_index(&self, k: int)
        requires
            self.wf(),
            0 <= k < self.data@.len(),
        ensures
            self.data_at(self.data@[k].0@) == Some(self.data@[k].1@),
    {
        let u = self.data@[k].0@;
        assert(exists|a: int| 0 <= a < self.data@.len() && (#[trigger] self.data@[a]).0@ == u);
        let a = choose|a: int| 0 <= a < self.data@.len() && (#[trigger] self.data@[a]).0@ == u;
        assert(a == k);
    }

    /// Records `data` as the answer for `url`, replacing any previous
    /// entry.
    pub fn add_data(&mut self, url: String, data: Vec<u8>)
        requires
            old(self).wf(),
        ensures
            final(self).wf(),
            final(self).data_at(url@) == Some(data@),
            forall|u: Seq<char>|
                u != url@ ==> #[trigger] final(self).data_at(u) == old(self).data_at(u),
    {
        let ghost data0 = self.data@;
        let mut k: usize = 0;
        let mut found = false;
        while k < self.data.len() && !found
            invariant
                old(self).wf(),
                self.data@ == data0,
                0 <= k <= self.data@.len(),
                !found ==> forall|a: int| 0 <= a < k ==> (#[trigger] self.data@[a]).0@ != url@,
                found ==> k < self.data@.len() && self.data@[k as int].0@ == url@,
            decreases self.data@.len() - k + (if found {
                0int
            } else {
                1int
            }),
        {
            if crate::text::str_eq(self.data[k].0.as_str(), url.as_str()) {
                found = true;
            } else {
                k = k + 1;
            }
        }
        if found {
            self.data.remove(k);
            proof {
                assert(self.data@ =~= data0.remove(k as int));
            }
        }
        let ghost data1 = self.data@;
        proof {
            assert(forall|a: int| 0 <= a < data1.len() ==> (#[trigger] data1[a]).0@ != url@) by {
                if found {
                    assert forall|a: int| 0 <= a < data1.len() implies (
                    #[trigger] data1[a]).0@ != url@ by {
                        if a < k {
                            assert(data1[a] == data0[a]);
                        } else {
                            assert(data1[a] == data0[a + 1]);
                        }
                    }
                }
            }
            assert(forall|a: int, b: int|
                0 <= a < b < data1.len() ==> (#[trigger] data1[a]).0@ != (
                #[trigger] data1[b]).0@) by {
                if found {
                    assert forall|a: int, b: int|
                        0 <= a < b < data1.len() implies (#[trigger] data1[a]).0@ != (
                    #[trigger] data1[b]).0@ by {
                        let a0: int = if a < k {
                            a
                        } else {
                            a + 1
                        };
                        let b0: int = if b < k {
                            b
                        } else {
                            b + 1
                        };
                        assert(data1[a] == data0[a0] && data1[b] == data0[b0]);
                    }
                }
            }
        }
        self.data.push((url, data));
        proof {
            let fin = self.data@;
            assert(fin == data1.push(fin.last()));
            assert(self.wf()) by {
                assert forall|a: int, b: int|
                    0 <= a < b < fin.len() implies (#[trigger] fin[a]).0@ != (
                #[trigger] fin[b]).0@ by {
                    if b < fin.len() - 1 {
                        assert(fin[a] == data1[a] && fin[b] == data1[b]);
                    } else {
                        assert(fin[a] == data1[a]);
                    }
                }
            }
            self.lemma_data_at_index(fin.len() - 1);
            assert forall|u: Seq<char>| u != fin.last().0@ implies #[trigger] self.data_at(u)
                == old(self).data_at(u) by {
                if exists|a: int| 0 <= a < fin.len() && (#[trigger] fin[a]).0@ == u {
                    let a = choose|a: int| 0 <= a < fin.len() && (#[trigger] fin[a]).0@ == u;
                    assert(a < fin.len() - 1);
                    assert(fin[a] == data1[a]);
                    let a0: int = if found && a >= k {
                        a + 1
                    } else {
                        a
                    };
                    assert(data0[a0] == fin[a]);
                    self.lemma_data_at_index(a);
                    old(self).lemma_data_at_index(a0);
                } else {
                    assert(self.data_at(u) is None);
                    assert(old(self).data_at(u) is None) by {
                        if exists|a: int| 0 <= a < data0.len() && (#[trigger] data0[a]).0@ == u {
                            let a = choose|a: int|
                                0 <= a < data0.len() && (#[trigger] data0[a]).0@ == u;
                            let a1: int = if found && a > k {
                                a - 1
                            } else {
                                a
                            };
                            assert(a != k || !found);
                            assert(data1[a1] == data0[a]);
                            assert(fin[a1] == data0[a]);
                        }
                    }
                }
            }
        }
    }

    /// The recorded bytes for `url`; fails exactly when the table has no
    /// entry for it.
    pub fn fetch_binary(&self, url: &str) -> (r: Result<Vec<u8>, String>)
        requires
            self.wf(),
        ensures
            match r {
                Ok(d) => self.data_at(url@) == Some(d@),
                Err(_) => self.data_at(url@) is None,
            },
    {
        let mut k: usize = 0;
        while k < self.data.len()
            invariant
                self.wf(),
                0 <= k <= self.data@.len(),
                forall|a: int| 0 <= a < k ==> (#[trigger] self.data@[a]).0@ != url@,
            decreases self.data@.len() - k,
        {
            if crate::text::str_eq(self.data[k].0.as_str(), url) {
                let d = self.data[k].1.clone();
                proof {
                    self.lemma_data_at_index(k as int);
                    assert(d@ =~= self.data@[k as int].1@);
                }
                return Ok(d);
            }
            k = k + 1;
        }
        Err(String::from_str("No data found for URL"))
    }
}

} // verus!
