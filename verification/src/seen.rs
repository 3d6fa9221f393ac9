//! The canonical path set: paths already reported during one scan, used to
//! avoid reporting a file twice when it is reachable from two scan roots.

use vstd::prelude::*;

verus! {

/// The set of canonical paths already reported. Grows monotonically during
/// one scan.
pub struct SeenPaths {
    items: Vec<Vec<char>>,
}

impl View for SeenPaths {
    type V = Set<Seq<char>>;

    closed spec fn view(&self) -> Set<Seq<char>> {
        Set::new(|p: Seq<char>| exists|i: int| 0 <= i < self.items@.len() && self.items@[i]@ == p)
    }
}

fn eq_chars(a: &Vec<char>, b: &Vec<char>) -> (r: bool)
    ensures
        r == (a@ == b@),
{
    let n = a.len();
    if n != b.len() {
        proof {
            assert(a@ != b@);
        }
        return false;
    }
    let mut i: usize = 0;
    while i < n
        invariant
            i <= n,
            n == a@.len(),
            n == b@.len(),
            forall|k: int| 0 <= k < i ==> a@[k] == b@[k],
        decreases n - i,
    {
        if a[i] != b[i] {
            return false;
        }
        i += 1;
    }
    proof {
        assert(a@ =~= b@);
    }
    true
}

impl SeenPaths {
    /// An empty set: no path has been reported yet.
    pub fn new() -> (r: SeenPaths)
        ensures
            r@ == Set::<Seq<char>>::empty(),
    {
        let r = SeenPaths { items: Vec::new() };
        proof {
            assert(r@ =~= Set::<Seq<char>>::empty());
        }
        r
    }

    /// Mark a canonical path as reported. Returns true — the caller should
    /// process the file — exactly when the path was not yet in the set; the
    /// path is in the set afterwards either way.
    pub fn try_mark(&mut self, path: &Vec<char>) -> (fresh: bool)
        ensures
            fresh == !old(self)@.contains(path@),
            final(self)@ == old(self)@.insert(path@),
    {
        let n = self.items.len();
        let mut i: usize = 0;
        while i < n
            invariant
                i <= n,
                n == self.items@.len(),
                forall|k: int| 0 <= k < i ==> self.items@[k]@ != path@,
            decreases n - i,
        {
            let hit = eq_chars(&self.items[i], path);
            if hit {
                proof {
                    assert(self@.contains(path@));
                    assert(self@ =~= self@.insert(path@));
                }
                return false;
            }
            i += 1;
        }
        proof {
            assert(!self@.contains(path@));
        }
        let ghost pre = self@;
        let ghost pre_items = self.items@;
        let mut copy: Vec<char> = Vec::new();
        let mut j: usize = 0;
        let pn = path.len();
        while j < pn
            invariant
                j <= pn,
                pn == path@.len(),
                copy@ =~= path@.take(j as int),
            decreases pn - j,
        {
            copy.push(path[j]);
            j += 1;
        }
        proof {
            assert(copy@ =~= path@);
        }
        self.items.push(copy);
        proof {
            assert(self.items@ =~= pre_items.push(copy));
            assert forall|p: Seq<char>| self@.contains(p) implies pre.insert(path@).contains(
                p,
            ) by {
                let i2 = choose|i2: int| 0 <= i2 < self.items@.len() && self.items@[i2]@ == p;
                if i2 < pre_items.len() {
                    assert(pre_items[i2]@ == p);
                    assert(pre.contains(p));
                } else {
                    assert(self.items@[i2]@ == copy@);
                }
            }
            assert forall|p: Seq<char>| pre.insert(path@).contains(p) implies self@.contains(
                p,
            ) by {
                if pre.contains(p) {
                    let i2 = choose|i2: int| 0 <= i2 < pre_items.len() && pre_items[i2]@ == p;
                    assert(self.items@[i2]@ == p);
                } else {
                    assert(self.items@[pre_items.len() as int]@ == path@);
                }
            }
            assert(self@ =~= pre.insert(path@));
        }
        true
    }
}

/// A path marked once stays marked: marking it makes it a member, and later
/// markings of other paths keep it a member — so a file reachable from two
/// scan roots is fresh at most once and is reported only once.
pub proof fn lemma_marked_once(s: Set<Seq<char>>, p: Seq<char>, q: Seq<char>)
    ensures
        s.insert(p).contains(p),
        s.contains(p) ==> s.insert(q).contains(p),
{
}

} // verus!
