//! A directory tree kept in one table: each directory names its parent by
//! its place in the table.
use vstd::prelude::*;
use vstd::string::StringSliceAdditionalSpecFns;

verus! {

pub struct Dir {
    /// The place of the parent directory, if any.
    pub parent: Option<usize>,
    pub size: usize,
    pub name: Vec<u8>,
}

impl Dir {
    /// The root directory, `/`, with no parent.
    pub fn new_root() -> (r: Dir)
        ensures
            r.parent is None,
            r.size == 0,
            r.name@ == seq![47u8],
    {
        let name: Vec<u8> = vec![47u8];
        assert(name@ =~= seq![47u8]);
        Dir { parent: None, size: 0, name }
    }

    /// The full name of a directory without a parent: its own name.
    pub fn to_full_name(&self) -> (r: Vec<u8>)
        requires
            self.parent is None,
        ensures
            r@ == self.name@,
    {
        let mut full_name: Vec<u8> = Vec::new();
        let mut i: usize = 0;
        while i < self.name.len()
            invariant
                0 <= i <= self.name@.len(),
                full_name@ == self.name@.subrange(0, i as int),
            decreases self.name@.len() - i,
        {
            full_name.push(self.name[i]);
            proof {
                assert(full_name@ =~= self.name@.subrange(0, i + 1));
            }
            i = i + 1;
        }
        proof {
            assert(self.name@.subrange(0, i as int) =~= self.name@);
        }
        full_name
    }
}

/// Directories by name, each with its place in `dirs`, and the working directory.
pub struct FileSystem {
    pub dirs: Vec<Dir>,
    pub dir_map: Vec<(Vec<u8>, usize)>,
    pub work_dir: usize,
}

impl FileSystem {
    /// Names are distinct and name places of `dirs`; the working directory is one of them.
    pub open spec fn wf(&self) -> bool {
        &&& self.work_dir < self.dirs@.len()
        &&& forall|k: int| 0 <= k < self.dir_map@.len() ==> (#[trigger] self.dir_map@[k]).1 < self.dirs@.len()
        &&& forall|a: int, b: int| 0 <= a < b < self.dir_map@.len() ==> (#[trigger] self.dir_map@[a]).0@ != (#[trigger] self.dir_map@[b]).0@
    }

    /// A file system of the root alone, which is the working directory.
    pub fn new() -> (r: FileSystem)
        ensures
            r.wf(),
            r.dirs@.len() == 1,
            r.dir_map@.len() == 1,
            r.dir_map@[0].0@ == seq![47u8],
            r.dir_map@[0].1 == 0,
            r.work_dir == 0,
            r.dirs@[0].parent is None,
            r.dirs@[0].size == 0,
            r.dirs@[0].name@ == seq![47u8],
    {
        let root_dir = Dir::new_root();
        let key: Vec<u8> = vec![47u8];
        assert(key@ =~= seq![47u8]);
        let mut dirs: Vec<Dir> = Vec::new();
        dirs.push(root_dir);
        let mut dir_map: Vec<(Vec<u8>, usize)> = Vec::new();
        dir_map.push((key, 0));
        FileSystem { dirs, dir_map, work_dir: 0 }
    }

    /// The place in `dir_map` of the name `n`, if any.
    pub fn find(&self, n: &[u8]) -> (r: Option<usize>)
        ensures
            match r {
                Some(k) => k < self.dir_map@.len() && self.dir_map@[k as int].0@ == n@,
                None => forall|k: int| 0 <= k < self.dir_map@.len() ==> (#[trigger] self.dir_map@[k]).0@ != n@,
            },
    {
        let mut k: usize = 0;
        while k < self.dir_map.len()
            invariant
                0 <= k <= self.dir_map@.len(),
                forall|j: int| 0 <= j < k ==> (#[trigger] self.dir_map@[j]).0@ != n@,
            decreases self.dir_map@.len() - k,
        {
            let key = &self.dir_map[k].0;
            if key.len() == n.len() {
                let mut i: usize = 0;
                let mut same = true;
                while i < n.len()
                    invariant
                        key@.len() == n@.len(),
                        0 <= i <= n@.len(),
                        same == forall|j: int| 0 <= j < i ==> key@[j] == n@[j],
                    decreases n@.len() - i,
                {
                    if key[i] != n[i] {
                        same = false;
                    }
                    i = i + 1;
                }
                if same {
                    assert(key@ =~= n@);
                    return Some(k);
                }
            }
            k = k + 1;
        }
        None
    }

    /// Makes the directory `dir_name` (where it is not there yet) a child of
    /// the working directory.
    pub fn mkdir(&mut self, dir_name: &str)
        requires
            old(self).wf(),
            old(self).dirs@.len() < usize::MAX,
        ensures
            final(self).wf(),
            final(self).work_dir == old(self).work_dir,
            exists|k: int| 0 <= k < final(self).dir_map@.len() && (#[trigger] final(self).dir_map@[k]).0@ == dir_name.spec_bytes()
                && final(self).dirs@[final(self).dir_map@[k].1 as int].parent == Some(old(self).work_dir),
            final(self).dir_map@.len() == old(self).dir_map@.len() + if exists|k: int| 0 <= k < old(self).dir_map@.len() && (#[trigger] old(self).dir_map@[k]).0@ == dir_name.spec_bytes() { 0int } else { 1int },
    {
        let n = dir_name.as_bytes();
        let ghost mut kk: int = 0;
        let slot = match self.find(n) {
            Some(k) => {
                proof {
                    kk = k as int;
                }
                self.dir_map[k].1
            },
            None => {
                let name = vstd::slice::slice_to_vec(n);
                let d = Dir { parent: None, size: 0, name };
                let place = self.dirs.len();
                self.dirs.push(d);
                let key = vstd::slice::slice_to_vec(n);
                let ghost old_map = self.dir_map@;
                self.dir_map.push((key, place));
                proof {
                    assert forall|a: int, b: int| 0 <= a < b < self.dir_map@.len() implies (#[trigger] self.dir_map@[a]).0@ != (#[trigger] self.dir_map@[b]).0@ by {
                        if b == old_map.len() {
                            assert(self.dir_map@[a] == old_map[a]);
                        } else {
                            assert(self.dir_map@[a] == old_map[a] && self.dir_map@[b] == old_map[b]);
                        }
                    }
                    assert forall|k: int| 0 <= k < self.dir_map@.len() implies (#[trigger] self.dir_map@[k]).1 < self.dirs@.len() by {
                        if k < old_map.len() {
                            assert(self.dir_map@[k] == old_map[k]);
                        }
                    }
                    assert(self.dir_map@[old_map.len() as int].0@ == n@);
                    kk = old_map.len() as int;
                }
                place
            },
        };
        let wd = self.work_dir;
        let mut d = Dir { parent: None, size: 0, name: Vec::new() };
        self.dirs.set_and_swap(slot, &mut d);
        d.parent = Some(wd);
        self.dirs.set_and_swap(slot, &mut d);
        proof {
            assert(self.dir_map@[kk].0@ == n@ && self.dir_map@[kk].1 == slot);
            assert(self.dirs@[slot as int].parent == Some(wd));
        }
    }
}

} // verus!
