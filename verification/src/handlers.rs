use vstd::prelude::*;

use crate::attrs::{dir_attributes, Attributes, FileKind, DIR_PERM};
use crate::table::{entry_at, is_parent_of, live, wf, Entry, FsError, InodeTable, MAX_ENTRIES};

verus! {

/// One element of a directory listing: the child's identity, the 1-based
/// position at which the next call must resume, and the child's kind and
/// name.
pub struct DirEntry {
    pub ino: u64,
    pub next_offset: i64,
    pub kind: FileKind,
    pub name: String,
}

/// The first identity at or after position `i` of `kids` whose entry in
/// `s` carries `name`; `None` when no later child matches.
pub open spec fn first_match_from(
    s: Seq<Option<Entry>>,
    kids: Seq<u64>,
    name: Seq<char>,
    i: int,
) -> Option<u64>
    decreases kids.len() - i,
{
    if i < 0 || i >= kids.len() {
        None
    } else if entry_at(s, kids[i]).name@ == name {
        Some(kids[i])
    } else {
        first_match_from(s, kids, name, i + 1)
    }
}

/// Name resolution relation: the identity that resolving `name` under
/// `parent` yields — the first child of `parent` named `name`, in
/// insertion order — or `None` when the parent is not live or no child
/// matches.
pub open spec fn resolve_spec(s: Seq<Option<Entry>>, parent: u64, name: Seq<char>) -> Option<u64> {
    if live(s, parent) {
        first_match_from(s, entry_at(s, parent).children@, name, 0)
    } else {
        None
    }
}

/// Position of `kids` at which a listing with protocol offset `offset`
/// starts. Offsets are 1-based positions of already-delivered entries, so
/// the listing resumes at index `offset`; an offset outside the range of
/// positions leaves an empty remainder.
pub open spec fn listing_start(kids: Seq<u64>, offset: i64) -> int {
    if offset < 0 {
        kids.len() as int
    } else if offset as int > kids.len() {
        kids.len() as int
    } else {
        offset as int
    }
}

/// Listing element relation: `d` is what position `j` of the children
/// `kids` emits — the child's identity, the 1-based position at which the
/// next call resumes, and the child's kind and name as stored in `s`.
pub open spec fn listed_as(s: Seq<Option<Entry>>, kids: Seq<u64>, j: int, d: DirEntry) -> bool {
    &&& d.ino == kids[j]
    &&& d.next_offset == j + 1
    &&& d.kind == entry_at(s, kids[j]).attr.kind
    &&& d.name@ == entry_at(s, kids[j]).name@
}

impl InodeTable {
    /// Attribute query: the stored record for `ino`, or `NotFound` when
    /// `ino` does not name a live entry.
    pub fn getattr(&self, ino: u64) -> (r: Result<Attributes, FsError>)
        ensures
            live(self.entries@, ino) ==> r == Ok::<Attributes, FsError>(
                entry_at(self.entries@, ino).attr,
            ),
            !live(self.entries@, ino) ==> r == Err::<Attributes, FsError>(FsError::NotFound),
    {
        match self.get(ino) {
            Some(e) => Ok(e.attr),
            None => Err(FsError::NotFound),
        }
    }

    /// Open a directory: no per-open state exists, so every open succeeds
    /// with the fixed null handle and empty flags.
    pub fn opendir(&self, _ino: u64, _flags: i32) -> (r: (u64, u32))
        ensures
            r == (0u64, 0u32),
    {
        (0, 0)
    }

    /// Resolve `name` among the children of `parent`, scanning in
    /// insertion order. Returns the first matching child's attributes and
    /// a generation of 0, or `NotFound` when the parent is not live or no
    /// child carries the name.
    pub fn lookup(&self, parent: u64, name: &str) -> (r: Result<(Attributes, u64), FsError>)
        requires
            wf(self.entries@),
        ensures
            match r {
                Ok(p) => {
                    &&& resolve_spec(self.entries@, parent, name@) == Some(p.0.ino)
                    &&& live(self.entries@, p.0.ino)
                    &&& p.0 == entry_at(self.entries@, p.0.ino).attr
                    &&& p.1 == 0
                },
                Err(e) => {
                    &&& e == FsError::NotFound
                    &&& resolve_spec(self.entries@, parent, name@) is None
                },
            },
    {
        let ghost s = self.entries@;
        let target: String = name.to_owned();
        match self.get(parent) {
            None => Err(FsError::NotFound),
            Some(parent_entry) => {
                let ghost kids = parent_entry.children@;
                let n = parent_entry.children.len();
                let mut i: usize = 0;
                while i < n
                    invariant
                        wf(s),
                        s == self.entries@,
                        live(s, parent),
                        *parent_entry == entry_at(s, parent),
                        kids == parent_entry.children@,
                        n == kids.len(),
                        0 <= i <= n,
                        target@ == name@,
                        first_match_from(s, kids, name@, 0) == first_match_from(
                            s,
                            kids,
                            name@,
                            i as int,
                        ),
                    decreases n - i,
                {
                    let c = parent_entry.children[i];
                    proof {
                        assert(entry_ok_of(s, parent));
                        assert(live(s, c));
                    }
                    match self.get(c) {
                        Some(child) => {
                            if child.name == target {
                                proof {
                                    assert(first_match_from(s, kids, name@, i as int) == Some(c));
                                    assert(child.attr.ino == c);
                                }
                                return Ok((child.attr, 0));
                            }
                        },
                        None => {
                            proof {
                                assert(false);
                            }
                        },
                    }
                    i = i + 1;
                }
                Err(FsError::NotFound)
            },
        }
    }

    /// List the children of `ino` from protocol offset `offset` onward:
    /// the finite, restartable remainder of the directory stream. Each
    /// element carries the 1-based position at which a later call resumes
    /// exactly where a consumer truncated this one. Fails with `NotFound`
    /// when `ino` does not name a live entry.
    pub fn readdir(&self, ino: u64, _fh: u64, offset: i64) -> (r: Result<Vec<DirEntry>, FsError>)
        requires
            wf(self.entries@),
        ensures
            match r {
                Ok(v) => {
                    let kids = entry_at(self.entries@, ino).children@;
                    let start = listing_start(kids, offset);
                    &&& live(self.entries@, ino)
                    &&& v@.len() == kids.len() - start
                    &&& forall|j: int|
                        0 <= j < v@.len() ==> listed_as(
                            self.entries@,
                            kids,
                            start + j,
                            #[trigger] v@[j],
                        )
                },
                Err(e) => {
                    &&& e == FsError::NotFound
                    &&& !live(self.entries@, ino)
                },
            },
    {
        let ghost s = self.entries@;
        match self.get(ino) {
            None => Err(FsError::NotFound),
            Some(dir_entry) => {
                let ghost kids = dir_entry.children@;
                let n = dir_entry.children.len();
                let mut i: usize = if offset < 0 {
                    n
                } else if offset as u64 >= n as u64 {
                    n
                } else {
                    offset as usize
                };
                let ghost start = listing_start(kids, offset);
                proof {
                    assert(entry_ok_of(s, ino));
                    assert(i as int == start);
                }
                let mut v: Vec<DirEntry> = Vec::new();
                while i < n
                    invariant
                        wf(s),
                        s == self.entries@,
                        live(s, ino),
                        *dir_entry == entry_at(s, ino),
                        kids == dir_entry.children@,
                        n == kids.len(),
                        kids.len() < s.len() <= MAX_ENTRIES as int,
                        0 <= start <= i <= n,
                        v@.len() == i - start,
                        forall|j: int|
                            0 <= j < v@.len() ==> listed_as(s, kids, start + j, #[trigger] v@[j]),
                    decreases n - i,
                {
                    let c = dir_entry.children[i];
                    proof {
                        assert(entry_ok_of(s, ino));
                        assert(live(s, c));
                    }
                    match self.get(c) {
                        Some(child) => {
                            proof {
                                assert(entry_ok_of(s, c));
                            }
                            let d = DirEntry {
                                ino: child.attr.ino,
                                next_offset: (i as i64) + 1,
                                kind: child.attr.kind,
                                name: child.name.clone(),
                            };
                            v.push(d);
                        },
                        None => {
                            proof {
                                assert(false);
                            }
                        },
                    }
                    i = i + 1;
                }
                Ok(v)
            },
        }
    }

    /// Create a directory named `name` under the live directory `parent`:
    /// allocates the next identity (one past the table length), appends
    /// the new entry, registers it as the parent's newest child, and
    /// returns the new attributes with a generation of 0. `mode` and
    /// `umask` are accepted for protocol compatibility; every directory is
    /// created with permission bits 0o755.
    pub fn mkdir(&mut self, parent: u64, name: &str, _mode: u32, _umask: u32) -> (r: (
        Attributes,
        u64,
    ))
        requires
            wf(old(self).entries@),
            live(old(self).entries@, parent),
            old(self).entries@.len() < MAX_ENTRIES as int,
        ensures
            wf(final(self).entries@),
            mkdir_post(old(self).entries@, final(self).entries@, parent, name@),
            r.0 == dir_attributes((old(self).entries@.len() + 1) as u64, DIR_PERM),
            r.1 == 0,
    {
        let ghost pre = self.entries@;
        let ino = self.entries.len() as u64 + 1;
        let attr = crate::attrs::build_dir_attributes(ino, DIR_PERM);
        let entry = Entry { name: name.to_owned(), children: Vec::new(), attr };
        self.entries.push(Some(entry));
        let pidx = (parent - 1) as usize;
        match &mut self.entries[pidx] {
            Some(parent_entry) => {
                parent_entry.children.push(ino);
            },
            None => {
                proof {
                    assert(false);
                }
            },
        }
        proof {
            assert(mkdir_post(pre, self.entries@, parent, name@));
            lemma_mkdir_preserves_wf(pre, self.entries@, parent, name@);
        }
        (attr, 0)
    }
}

/// Effect of a successful create on the table: one new slot holding the
/// freshly named directory with identity `pre.len() + 1` and no children,
/// that identity appended to the parent's children, and every other slot
/// untouched.
pub open spec fn mkdir_post(
    pre: Seq<Option<Entry>>,
    post: Seq<Option<Entry>>,
    parent: u64,
    name: Seq<char>,
) -> bool {
    let ino = (pre.len() + 1) as u64;
    let pidx = parent - 1;
    let newslot = pre.len() as int;
    &&& post.len() == pre.len() + 1
    &&& post[newslot] is Some
    &&& post[newslot]->Some_0.name@ == name
    &&& post[newslot]->Some_0.children@ == Seq::<u64>::empty()
    &&& post[newslot]->Some_0.attr == dir_attributes(ino, DIR_PERM)
    &&& post[pidx] is Some
    &&& post[pidx]->Some_0.name@ == pre[pidx]->Some_0.name@
    &&& post[pidx]->Some_0.attr == pre[pidx]->Some_0.attr
    &&& post[pidx]->Some_0.children@ == pre[pidx]->Some_0.children@.push(ino)
    &&& forall|i: int| 0 <= i < pre.len() && i != pidx ==> post[i] == pre[i]
}

/// A parenthood fact of the grown table comes from the old table, except
/// for the fresh identity, whose one parent is the slot it was created
/// under.
proof fn lemma_parent_transfer(
    pre: Seq<Option<Entry>>,
    post: Seq<Option<Entry>>,
    parent: u64,
    name: Seq<char>,
    p: int,
    c: u64,
)
    requires
        wf(pre),
        live(pre, parent),
        mkdir_post(pre, post, parent, name),
        is_parent_of(post, p, c),
    ensures
        c == (pre.len() + 1) as u64 ==> p == parent - 1,
        c != (pre.len() + 1) as u64 ==> is_parent_of(pre, p, c),
{
    let ino = (pre.len() + 1) as u64;
    let pidx = parent - 1;
    let newslot = pre.len() as int;
    if p == newslot {
        // the fresh entry has no children
        assert(!post[p]->Some_0.children@.contains(c));
    } else if p == pidx {
        let old_kids = pre[pidx]->Some_0.children@;
        let new_kids = post[pidx]->Some_0.children@;
        let w = choose|w: int| 0 <= w < new_kids.len() && new_kids[w] == c;
        if w < old_kids.len() {
            assert(old_kids[w] == c);
            assert(is_parent_of(pre, p, c));
            // an old child is at most the old table length, so it is not `ino`
            assert(crate::table::entry_ok(pre, pidx));
            assert(c != ino);
        } else {
            assert(c == ino);
        }
    } else {
        assert(post[p] == pre[p]);
        assert(is_parent_of(pre, p, c));
        // children of an untouched slot lie within the old table
        assert(crate::table::entry_ok(pre, p));
        let w = choose|w: int| 0 <= w < pre[p]->Some_0.children@.len() && pre[p]->Some_0.children@[w]
            == c;
        assert((pre[p]->Some_0.children@[w] as int) <= pre.len());
        assert(c != ino);
    }
}

/// An old parenthood fact still holds of the grown table: children lists
/// only grow, and untouched slots keep their value.
proof fn lemma_parent_persists(
    pre: Seq<Option<Entry>>,
    post: Seq<Option<Entry>>,
    parent: u64,
    name: Seq<char>,
    p: int,
    c: u64,
)
    requires
        wf(pre),
        live(pre, parent),
        mkdir_post(pre, post, parent, name),
        is_parent_of(pre, p, c),
    ensures
        is_parent_of(post, p, c),
{
    let pidx = parent - 1;
    if p == pidx {
        let old_kids = pre[pidx]->Some_0.children@;
        let new_kids = post[pidx]->Some_0.children@;
        let w = choose|w: int| 0 <= w < old_kids.len() && old_kids[w] == c;
        assert(new_kids[w] == c);
    } else {
        assert(post[p] == pre[p]);
    }
}

/// Creating a directory under a live parent preserves table
/// well-formedness.
proof fn lemma_mkdir_preserves_wf(
    pre: Seq<Option<Entry>>,
    post: Seq<Option<Entry>>,
    parent: u64,
    name: Seq<char>,
)
    requires
        wf(pre),
        live(pre, parent),
        pre.len() < MAX_ENTRIES as int,
        mkdir_post(pre, post, parent, name),
    ensures
        wf(post),
{
    let ino = (pre.len() + 1) as u64;
    let pidx = parent - 1;
    let newslot = pre.len() as int;

    assert forall|i: int| 0 <= i < post.len() implies (#[trigger] post[i]) is Some
        && crate::table::entry_ok(post, i) by {
        if i == newslot {
            let e = post[i]->Some_0;
            assert(e.children@.no_duplicates());
            assert(e.children@.len() < post.len());
        } else if i == pidx {
            assert(crate::table::entry_ok(pre, pidx));
            let e_pre = pre[pidx]->Some_0;
            let e = post[pidx]->Some_0;
            assert(e.children@ == e_pre.children@.push(ino));
            assert forall|k: int| 0 <= k < e.children@.len() implies i + 1 < (
            #[trigger] e.children@[k]) as int <= post.len() by {
                if k < e_pre.children@.len() {
                    assert(e.children@[k] == e_pre.children@[k]);
                } else {
                    assert(e.children@[k] == ino);
                }
            }
            assert(e.children@.no_duplicates()) by {
                assert forall|a: int, b: int|
                    0 <= a < e.children@.len() && 0 <= b < e.children@.len() && a != b implies
                    e.children@[a] != e.children@[b] by {
                    if a < e_pre.children@.len() && b < e_pre.children@.len() {
                        assert(e_pre.children@.no_duplicates());
                    } else if a < e_pre.children@.len() {
                        assert(e.children@[b] == ino);
                        assert((e_pre.children@[a] as int) <= pre.len());
                    } else {
                        assert(e.children@[a] == ino);
                        assert((e_pre.children@[b] as int) <= pre.len());
                    }
                }
            }
        } else {
            assert(post[i] == pre[i]);
            assert(crate::table::entry_ok(pre, i));
        }
    }

    // the root keeps its name: the root slot is either the parent, whose
    // name is preserved, or an untouched slot
    assert(newslot != 0);
    assert(entry_at(post, crate::table::ROOT_INO).name@ == entry_at(
        pre,
        crate::table::ROOT_INO,
    ).name@);

    assert forall|p1: int, p2: int, c: u64|
        #[trigger] is_parent_of(post, p1, c) && #[trigger] is_parent_of(post, p2, c) implies p1
        == p2 by {
        lemma_parent_transfer(pre, post, parent, name, p1, c);
        lemma_parent_transfer(pre, post, parent, name, p2, c);
    }

    assert forall|c: u64| #[trigger] live(post, c) && c != crate::table::ROOT_INO implies exists|
        p: int,
    | is_parent_of(post, p, c) by {
        if c == ino {
            let old_kids = pre[pidx]->Some_0.children@;
            assert(post[pidx]->Some_0.children@[old_kids.len() as int] == ino);
            assert(post[pidx]->Some_0.children@.contains(ino));
            assert(is_parent_of(post, pidx, c));
        } else {
            assert(live(pre, c));
            let p = choose|p: int| is_parent_of(pre, p, c);
            lemma_parent_persists(pre, post, parent, name, p, c);
            assert(is_parent_of(post, p, c));
        }
    }
}

/// The entry named `ino` satisfies the per-entry well-formedness
/// conditions; a restatement of `entry_ok` by identity rather than slot,
/// convenient to instantiate the table-wide quantifier.
pub open spec fn entry_ok_of(s: Seq<Option<Entry>>, ino: u64) -> bool {
    crate::table::entry_ok(s, ino - 1)
}

} // verus!
