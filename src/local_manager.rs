//! The per-node local resource manager's bookkeeping: the node's memory,
//! the warm VMs it keeps cached, and admission of new VMs with eviction.

use vstd::prelude::*;

use crate::worker::AcquireError;

verus! {

/// A VM handed to a worker.
#[derive(Debug)]
pub struct Vm {
    pub image: String,
    /// Its memory footprint, in MiB.
    pub mem: usize,
    /// False for a newly allocated VM, which the worker must launch.
    pub launched: bool,
}

/// Memory taken by the VMs `s`, each given as image and footprint.
pub open spec fn mem_of(s: Seq<(Seq<char>, usize)>) -> nat
    decreases s.len(),
{
    if s.len() == 0 {
        0
    } else {
        mem_of(s.drop_last()) + s.last().1 as nat
    }
}

pub proof fn lemma_mem_of_split(s: Seq<(Seq<char>, usize)>, k: int)
    requires
        0 <= k <= s.len(),
    ensures
        mem_of(s) == mem_of(s.take(k)) + mem_of(s.skip(k)),
    decreases s.len(),
{
    if k < s.len() {
        lemma_mem_of_split(s.drop_last(), k);
        assert(s.drop_last().take(k) =~= s.take(k));
        assert(s.skip(k).drop_last() =~= s.drop_last().skip(k));
        assert(s.skip(k).last() == s.last());
    } else {
        assert(s.take(k) =~= s);
        assert(s.skip(k) =~= Seq::<(Seq<char>, usize)>::empty());
    }
}

pub proof fn lemma_mem_of_remove(s: Seq<(Seq<char>, usize)>, j: int)
    requires
        0 <= j < s.len(),
    ensures
        mem_of(s) == mem_of(s.remove(j)) + s[j].1,
{
    lemma_mem_of_split(s, j);
    lemma_mem_of_split(s.remove(j), j);
    assert(s.remove(j).take(j) =~= s.take(j));
    assert(s.skip(j).drop_first() =~= s.remove(j).skip(j));
    lemma_mem_of_split(s.skip(j), 1);
    assert(s.skip(j).take(1) =~= seq![s[j]]);
    assert(seq![s[j]].drop_last() =~= Seq::<(Seq<char>, usize)>::empty());
    assert(mem_of(Seq::<(Seq<char>, usize)>::empty()) == 0);
    assert(mem_of(seq![s[j]]) == s[j].1);
    assert(s.skip(j).skip(1) =~= s.skip(j).drop_first());
    assert(mem_of(s.skip(j)) == s[j].1 + mem_of(s.remove(j).skip(j)));
}

/// `i` is the first catalog entry of image `img`.
pub open spec fn catalog_pos(cat: Seq<(Seq<char>, usize)>, img: Seq<char>, i: int) -> bool {
    &&& 0 <= i < cat.len()
    &&& cat[i].0 == img
    &&& forall|k: int| 0 <= k < i ==> cat[k].0 != img
}

/// `j` is the oldest warm VM of image `img`.
pub open spec fn warm_pos(warm: Seq<(Seq<char>, usize)>, img: Seq<char>, j: int) -> bool {
    catalog_pos(warm, img, j)
}

/// Evicting the `k` oldest warm VMs is the least eviction that frees `need`.
pub open spec fn least_eviction(free: nat, warm: Seq<(Seq<char>, usize)>, need: nat, k: int) -> bool {
    &&& 0 < k <= warm.len()
    &&& free + mem_of(warm.take(k)) >= need
    &&& free + mem_of(warm.take(k - 1)) < need
}

pub open spec fn pairs_view(v: Seq<(String, usize)>) -> Seq<(Seq<char>, usize)> {
    v.map_values(|e: (String, usize)| (e.0@, e.1))
}

/// How many of the warm VMs `s` are of image `img`.
pub open spec fn count_of(s: Seq<(Seq<char>, usize)>, img: Seq<char>) -> nat
    decreases s.len(),
{
    if s.len() == 0 {
        0
    } else {
        count_of(s.drop_last(), img) + if s.last().0 == img {
            1nat
        } else {
            0nat
        }
    }
}

/// The node's memory, in MiB, and its VMs.
pub struct LocalResources {
    /// Known function images and the memory a VM of each needs.
    pub functions: Vec<(String, usize)>,
    pub total_mem: usize,
    pub free_mem: usize,
    /// Memory of the VMs handed to workers.
    pub used_mem: usize,
    /// Warm VMs, oldest first, as image and footprint.
    pub warm: Vec<(String, usize)>,
}

impl LocalResources {
    pub open spec fn warm_view(&self) -> Seq<(Seq<char>, usize)> {
        pairs_view(self.warm@)
    }

    pub open spec fn catalog(&self) -> Seq<(Seq<char>, usize)> {
        pairs_view(self.functions@)
    }

    /// Free, warm and handed-out memory add up to the total.
    pub open spec fn wf(&self) -> bool {
        self.free_mem + mem_of(self.warm_view()) + self.used_mem == self.total_mem
    }

    pub fn new(functions: Vec<(String, usize)>, total_mem: usize) -> (r: Self)
        ensures
            r.wf(),
            r.functions == functions,
            r.total_mem == total_mem,
            r.free_mem == total_mem,
            r.used_mem == 0,
            r.warm@.len() == 0,
    {
        let r = LocalResources { functions, total_mem, free_mem: total_mem, used_mem: 0, warm: Vec::new() };
        assert(r.warm_view() =~= Seq::<(Seq<char>, usize)>::empty());
        r
    }

    fn find_pos(v: &Vec<(String, usize)>, img: &String) -> (r: Option<usize>)
        ensures
            match r {
                Some(i) => catalog_pos(pairs_view(v@), img@, i as int),
                None => forall|i: int| 0 <= i < v@.len() ==> v@[i].0@ != img@,
            },
    {
        let mut i: usize = 0;
        while i < v.len()
            invariant
                i <= v@.len(),
                forall|k: int| 0 <= k < i ==> v@[k].0@ != img@,
            decreases v@.len() - i,
        {
            if v[i].0 == *img {
                return Some(i);
            }
            i = i + 1;
        }
        None
    }

    /// A VM of `image` for a worker, with the warm VMs evicted to make room
    /// for it. A warm VM of the image is reused as it is; else a new one is
    /// allocated from free memory, evicting the oldest warm VMs if free
    /// memory is short.
    pub fn get_vm(&mut self, image: &String) -> (r: Result<(Vm, Vec<(String, usize)>), AcquireError>)
        requires
            old(self).wf(),
        ensures
            final(self).wf(),
            final(self).functions == old(self).functions,
            final(self).total_mem == old(self).total_mem,
            r is Err ==> final(self).free_mem == old(self).free_mem && final(self).used_mem == old(
                self,
            ).used_mem && final(self).warm@ == old(self).warm@,
            ({
                let cat = old(self).catalog();
                let warm = old(self).warm_view();
                let free = old(self).free_mem as nat;
                &&& (forall|i: int| !catalog_pos(cat, image@, i)) ==> r == Err::<
                    (Vm, Vec<(String, usize)>),
                    AcquireError,
                >(AcquireError::FunctionNotExist)
                &&& forall|i: int| #[trigger]
                    catalog_pos(cat, image@, i) ==> {
                        let need = cat[i].1;
                        &&& forall|j: int| #[trigger]
                            warm_pos(warm, image@, j) ==> {
                                &&& r is Ok
                                &&& r->Ok_0.0.image@ == image@ && r->Ok_0.0.mem == warm[j].1 && r->Ok_0.0.launched
                                &&& r->Ok_0.1@.len() == 0
                                &&& final(self).warm_view() == warm.remove(j)
                                &&& final(self).free_mem == free
                                &&& final(self).used_mem == old(self).used_mem + warm[j].1
                            }
                        &&& (forall|j: int| !warm_pos(warm, image@, j)) ==> {
                            &&& need > old(self).total_mem ==> r == Err::<(Vm, Vec<(String, usize)>), AcquireError>(
                                AcquireError::LowMemory(need),
                            )
                            &&& need <= old(self).total_mem && free + mem_of(warm) < need ==> r == Err::<
                                (Vm, Vec<(String, usize)>),
                                AcquireError,
                            >(AcquireError::InsufficientEvict)
                            &&& need <= old(self).total_mem && free >= need ==> {
                                &&& r is Ok
                                &&& r->Ok_0.0.image@ == image@ && r->Ok_0.0.mem == need && !r->Ok_0.0.launched
                                &&& r->Ok_0.1@.len() == 0
                                &&& final(self).warm@ == old(self).warm@
                                &&& final(self).free_mem == free - need
                                &&& final(self).used_mem == old(self).used_mem + need
                            }
                            &&& forall|k: int| #[trigger]
                                least_eviction(free, warm, need as nat, k) ==> need <= old(self).total_mem && free
                                    < need ==> {
                                    &&& r is Ok
                                    &&& r->Ok_0.0.image@ == image@ && r->Ok_0.0.mem == need
                                        && !r->Ok_0.0.launched
                                    &&& pairs_view(r->Ok_0.1@) == warm.take(k)
                                    &&& final(self).warm_view() == warm.skip(k)
                                    &&& final(self).free_mem == free + mem_of(warm.take(k)) - need
                                    &&& final(self).used_mem == old(self).used_mem + need
                                }
                        }
                    }
            }),
    {
        let ghost warm0 = self.warm_view();
        let ghost cat = self.catalog();
        let i = match Self::find_pos(&self.functions, image) {
            Some(i) => i,
            None => {
                assert forall|i: int| !catalog_pos(cat, image@, i) by {}
                return Err(AcquireError::FunctionNotExist);
            },
        };
        assert forall|b: int| catalog_pos(cat, image@, b) implies b == i by {}
        let need = self.functions[i].1;
        match Self::find_pos(&self.warm, image) {
            Some(j) => {
                assert forall|b: int| warm_pos(warm0, image@, b) implies b == j by {}
                proof {
                    lemma_mem_of_remove(warm0, j as int);
                }
                let (img, mem) = self.warm.remove(j);
                assert(img@ == image@ && mem == warm0[j as int].1);
                assert(warm_pos(warm0, image@, j as int));
                assert(self.warm_view() =~= warm0.remove(j as int));
                self.used_mem = self.used_mem + mem;
                return Ok((Vm { image: img, mem, launched: true }, Vec::new()));
            },
            None => {
                assert forall|b: int| !warm_pos(warm0, image@, b) by {}
            },
        }
        if need > self.total_mem {
            return Err(AcquireError::LowMemory(need));
        }
        if self.free_mem >= need {
            self.free_mem = self.free_mem - need;
            self.used_mem = self.used_mem + need;
            return Ok((Vm { image: image.clone(), mem: need, launched: false }, Vec::new()));
        }
        // Find how many of the oldest warm VMs must go.
        let mut k: usize = 0;
        let mut gained: usize = 0;
        while k < self.warm.len() && self.free_mem + gained < need
            invariant
                self.wf(),
                self.warm_view() == warm0,
                k <= warm0.len(),
                gained == mem_of(warm0.take(k as int)),
                gained <= mem_of(warm0),
                need <= self.total_mem,
                self.free_mem < need,
                k > 0 ==> self.free_mem + mem_of(warm0.take(k - 1)) < need,
            decreases warm0.len() - k,
        {
            proof {
                lemma_mem_of_split(warm0, k as int + 1);
                assert(warm0.take(k as int + 1).drop_last() =~= warm0.take(k as int));
                lemma_mem_of_split(warm0, k as int);
            }
            gained = gained + self.warm[k].1;
            k = k + 1;
        }
        if self.free_mem + gained < need {
            assert(warm0.take(k as int) =~= warm0);
            assert forall|b: int| !least_eviction(self.free_mem as nat, warm0, need as nat, b) by {
                if 0 < b <= warm0.len() {
                    lemma_prefix_mem_grows(warm0, b, warm0.len() as int);
                }
            }
            return Err(AcquireError::InsufficientEvict);
        }
        assert(least_eviction(self.free_mem as nat, warm0, need as nat, k as int));
        assert forall|b: int| least_eviction(self.free_mem as nat, warm0, need as nat, b) implies b == k by {
            if b < k {
                lemma_prefix_mem_grows(warm0, b, k - 1);
            } else if b > k {
                lemma_prefix_mem_grows(warm0, k as int, b - 1);
            }
        }
        proof {
            lemma_mem_of_split(warm0, k as int);
        }
        let mut rest = self.warm.split_off(k);
        std::mem::swap(&mut rest, &mut self.warm);
        assert(self.warm_view() =~= warm0.skip(k as int));
        assert(pairs_view(rest@) =~= warm0.take(k as int));
        self.free_mem = self.free_mem + gained - need;
        self.used_mem = self.used_mem + need;
        Ok((Vm { image: image.clone(), mem: need, launched: false }, rest))
    }

    /// The snapshot pushed to the global scheduler: for each known image, in
    /// catalog order, how many warm VMs of it the node keeps.
    pub fn stats(&self) -> (r: Vec<(String, usize)>)
        ensures
            r@.len() == self.functions@.len(),
            forall|i: int|
                0 <= i < r@.len() ==> (#[trigger] r@[i]).0@ == self.functions@[i].0@ && r@[i].1 as nat
                    == count_of(self.warm_view(), self.functions@[i].0@),
    {
        let mut out: Vec<(String, usize)> = Vec::new();
        let mut i: usize = 0;
        while i < self.functions.len()
            invariant
                i <= self.functions@.len(),
                out@.len() == i,
                forall|a: int|
                    0 <= a < i ==> (#[trigger] out@[a]).0@ == self.functions@[a].0@ && out@[a].1 as nat
                        == count_of(self.warm_view(), self.functions@[a].0@),
            decreases self.functions@.len() - i,
        {
            let img = &self.functions[i].0;
            let mut n: usize = 0;
            let mut j: usize = 0;
            while j < self.warm.len()
                invariant
                    j <= self.warm@.len(),
                    n as nat == count_of(self.warm_view().take(j as int), img@),
                    n <= j,
                decreases self.warm@.len() - j,
            {
                assert(self.warm_view().take(j as int + 1).drop_last() =~= self.warm_view().take(j as int));
                if self.warm[j].0 == *img {
                    n = n + 1;
                }
                j = j + 1;
            }
            assert(self.warm_view().take(j as int) =~= self.warm_view());
            out.push((img.clone(), n));
            i = i + 1;
        }
        out
    }

    /// A worker is done with `vm`, which stays warm for its image.
    pub fn release_vm(&mut self, vm: Vm)
        requires
            old(self).wf(),
            vm.mem <= old(self).used_mem,
        ensures
            final(self).wf(),
            final(self).warm_view() == old(self).warm_view().push((vm.image@, vm.mem)),
            final(self).used_mem == old(self).used_mem - vm.mem,
            final(self).free_mem == old(self).free_mem,
            final(self).functions == old(self).functions,
            final(self).total_mem == old(self).total_mem,
    {
        let ghost w0 = self.warm_view();
        self.used_mem = self.used_mem - vm.mem;
        self.warm.push((vm.image, vm.mem));
        assert(self.warm_view() =~= w0.push((vm.image@, vm.mem)));
        assert(self.warm_view().drop_last() =~= w0);
    }

    /// A worker's `vm` failed: its memory returns to the free pool.
    pub fn delete_vm(&mut self, vm: Vm)
        requires
            old(self).wf(),
            vm.mem <= old(self).used_mem,
        ensures
            final(self).wf(),
            final(self).warm@ == old(self).warm@,
            final(self).used_mem == old(self).used_mem - vm.mem,
            final(self).free_mem == old(self).free_mem + vm.mem,
            final(self).functions == old(self).functions,
            final(self).total_mem == old(self).total_mem,
    {
        self.used_mem = self.used_mem - vm.mem;
        self.free_mem = self.free_mem + vm.mem;
    }
}

/// Longer prefixes of the warm list hold at least as much memory.
pub proof fn lemma_prefix_mem_grows(s: Seq<(Seq<char>, usize)>, a: int, b: int)
    requires
        0 <= a <= b <= s.len(),
    ensures
        mem_of(s.take(a)) <= mem_of(s.take(b)),
    decreases b - a,
{
    if a < b {
        lemma_prefix_mem_grows(s, a, b - 1);
        assert(s.take(b).drop_last() =~= s.take(b - 1));
    }
}

} // verus!
