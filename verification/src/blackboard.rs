//! The black board: named handles shared between passes.

use vstd::prelude::*;

use crate::handle::Handle;

verus! {

/// A key into the black board.
pub struct BlackBoardKey {
    pub key: String,
}

impl BlackBoardKey {
    pub fn new(key: &str) -> (r: Self)
        ensures
            r.key@ == key@,
    {
        BlackBoardKey { key: key.to_owned() }
    }
}

/// Whether the board binds `name`.
pub open spec fn board_has(s: Seq<(String, Handle)>, name: Seq<char>) -> bool {
    exists|i: int| 0 <= i < s.len() && (#[trigger] s[i]).0@ == name
}

/// The index of the binding for `name`; meaningful when `board_has` holds
/// of a well-formed board, where that binding is unique.
pub open spec fn board_index_of(s: Seq<(String, Handle)>, name: Seq<char>) -> int {
    choose|i: int| 0 <= i < s.len() && (#[trigger] s[i]).0@ == name
}

/// Global, named handles that passes may publish and look up.
pub struct BlackBoard {
    pub handles: Vec<(String, Handle)>,
}

impl Default for BlackBoard {
    fn default() -> (r: Self)
        ensures
            r.handles@.len() == 0,
    {
        BlackBoard { handles: Vec::new() }
    }
}

impl BlackBoard {
    /// A well-formed board: names are unique.
    pub open spec fn wf(self) -> bool {
        forall|i: int, j: int|
            0 <= i < j < self.handles@.len() ==> (#[trigger] self.handles@[i]).0@ != (
            #[trigger] self.handles@[j]).0@
    }

    pub fn new() -> (r: Self)
        ensures
            r.wf(),
            r.handles@.len() == 0,
    {
        BlackBoard { handles: Vec::new() }
    }

    /// Bind `key` to `handle`, replacing any previous binding.
    pub fn put(&mut self, key: &str, handle: Handle)
        requires
            old(self).wf(),
        ensures
            final(self).wf(),
            board_has(final(self).handles@, key@),
            final(self).handles@[board_index_of(final(self).handles@, key@)].1 == handle,
    {
        let ghost s = self.handles@;
        let key_owned: String = key.to_owned();
        let n = self.handles.len();
        let mut i: usize = 0;
        while i < n
            invariant
                i <= n,
                n == self.handles@.len(),
                forall|j: int| 0 <= j < i ==> (#[trigger] self.handles@[j]).0@ != key_owned@,
                self.handles@ == s,
                key_owned@ == key@,
                old(self).wf(),
                s == old(self).handles@,
            decreases n - i,
        {
            if self.handles[i].0 == key_owned {
                proof {
                    assert(board_has(s, key@));
                    let k = board_index_of(s, key@);
                    assert(0 <= k < s.len() && s[k].0@ == key@);
                    assert(k == i);
                }
                let entry = &mut self.handles[i];
                entry.1 = handle;
                proof {
                    assert(self.handles@[i as int].0@ == key@);
                    assert(board_has(self.handles@, key@));
                    let k2 = board_index_of(self.handles@, key@);
                    assert(0 <= k2 < self.handles@.len() && self.handles@[k2].0@ == key@);
                    assert forall|a: int, b: int|
                        0 <= a < b < self.handles@.len() implies (#[trigger] self.handles@[a]).0@
                        != (#[trigger] self.handles@[b]).0@ by {
                        assert(self.handles@[a].0 == s[a].0);
                        assert(self.handles@[b].0 == s[b].0);
                    }
                    assert(k2 == i);
                }
                return ;
            }
            i = i + 1;
        }
        proof {
            assert(!board_has(s, key@));
        }
        self.handles.push((key_owned, handle));
        proof {
            let s1 = self.handles@;
            assert(s1.last().0@ == key@);
            assert(board_has(s1, key@));
            let k = board_index_of(s1, key@);
            assert(0 <= k < s1.len() && s1[k].0@ == key@);
            assert forall|a: int, b: int|
                0 <= a < b < s1.len() implies (#[trigger] s1[a]).0@ != (#[trigger] s1[b]).0@ by {
                if b == s1.len() - 1 {
                    assert(s[a].0@ != key@);
                }
            }
            assert(k == s1.len() - 1);
        }
    }

    /// Look up the handle bound to `key`.
    pub fn get(&self, key: &str) -> (r: Option<&Handle>)
        requires
            self.wf(),
        ensures
            r is Some <==> board_has(self.handles@, key@),
            r matches Some(h) ==> *h == self.handles@[board_index_of(self.handles@, key@)].1,
    {
        let key_owned: String = key.to_owned();
        let n = self.handles.len();
        let mut i: usize = 0;
        while i < n
            invariant
                i <= n,
                n == self.handles@.len(),
                forall|j: int| 0 <= j < i ==> (#[trigger] self.handles@[j]).0@ != key_owned@,
                key_owned@ == key@,
                self.wf(),
            decreases n - i,
        {
            if self.handles[i].0 == key_owned {
                proof {
                    assert(board_has(self.handles@, key@));
                    let k = board_index_of(self.handles@, key@);
                    assert(0 <= k < self.handles@.len() && self.handles@[k].0@ == key@);
                    assert(k == i);
                }
                return Some(&self.handles[i].1);
            }
            i = i + 1;
        }
        proof {
            assert(!board_has(self.handles@, key@));
        }
        None
    }
}

} // verus!
