use vstd::prelude::*;

use crate::attrs::{build_dir_attributes, dir_attributes, Attributes, DIR_PERM};

verus! {

/// The one recoverable error of the protocol surface: the requested
/// identity or name does not resolve to a live entry.
#[derive(Clone, Copy, PartialEq, Eq, Structural, Debug)]
pub enum FsError {
    NotFound,
}

/// A namespace node: the name its parent sees, the identities of its
/// children in insertion order, and its attribute record.
pub struct Entry {
    pub name: String,
    pub children: Vec<u64>,
    pub attr: Attributes,
}

/// Append-only, slot-indexed store of entries. Identity `i` lives at slot
/// `i - 1`; a slot holds `None` for a retired identity (a tombstone).
/// No operation in scope produces a tombstone, but the representation
/// supports future removal.
pub struct InodeTable {
    pub entries: Vec<Option<Entry>>,
}

/// Identity of the root entry, seeded at construction.
pub const ROOT_INO: u64 = 1;

/// Cap on the number of table slots: every identity then fits `u64` and
/// every directory offset fits `i64`.
pub const MAX_ENTRIES: u64 = 0x7fff_ffff_ffff_ffff;

/// Identity `ino` names a live (non-tombstoned) entry of table `s`.
pub open spec fn live(s: Seq<Option<Entry>>, ino: u64) -> bool {
    &&& 1 <= ino as int <= s.len()
    &&& s[ino - 1] is Some
}

/// The entry stored for identity `ino` (meaningful only when live).
pub open spec fn entry_at(s: Seq<Option<Entry>>, ino: u64) -> Entry {
    s[ino - 1]->Some_0
}

/// Slot `p` holds a live entry that lists `c` among its children.
pub open spec fn is_parent_of(s: Seq<Option<Entry>>, p: int, c: u64) -> bool {
    &&& 0 <= p < s.len()
    &&& s[p] is Some
    &&& s[p]->Some_0.children@.contains(c)
}

/// What well-formedness asks of the entry at slot `i` of table `s`: its
/// stored identity matches its slot, its attributes are the canonical
/// directory record, and its children are distinct identities of strictly
/// later slots (hence never the root, and never an ancestor: the tree is
/// append-only).
pub open spec fn entry_ok(s: Seq<Option<Entry>>, i: int) -> bool {
    let e = s[i]->Some_0;
    &&& e.attr == dir_attributes((i + 1) as u64, e.attr.perm)
    &&& e.children@.no_duplicates()
    &&& e.children@.len() < s.len()
    &&& forall|k: int|
        0 <= k < e.children@.len() ==> i + 1 < (#[trigger] e.children@[k]) as int <= s.len()
}

/// Well-formed table: at least the root slot, every slot live with a
/// well-formed entry, the root named "root", and every non-root identity
/// registered as a child of exactly one entry — its unique parent.
pub open spec fn wf(s: Seq<Option<Entry>>) -> bool {
    &&& 1 <= s.len() <= MAX_ENTRIES as int
    &&& forall|i: int| 0 <= i < s.len() ==> (#[trigger] s[i]) is Some && entry_ok(s, i)
    &&& entry_at(s, ROOT_INO).name@ == "root"@
    &&& forall|p1: int, p2: int, c: u64|
        #[trigger] is_parent_of(s, p1, c) && #[trigger] is_parent_of(s, p2, c) ==> p1 == p2
    &&& forall|c: u64| #[trigger] live(s, c) && c != ROOT_INO ==> exists|p: int| is_parent_of(s, p, c)
}

impl InodeTable {
    /// Constructs the table seeded with the root entry: identity 1,
    /// name "root", no children, canonical directory attributes.
    pub fn new() -> (t: InodeTable)
        ensures
            wf(t.entries@),
            t.entries@.len() == 1,
            entry_at(t.entries@, ROOT_INO).attr == dir_attributes(ROOT_INO, DIR_PERM),
            entry_at(t.entries@, ROOT_INO).children@ == Seq::<u64>::empty(),
    {
        let mut entries: Vec<Option<Entry>> = Vec::new();
        let root = Entry {
            name: "root".to_owned(),
            children: Vec::new(),
            attr: build_dir_attributes(ROOT_INO, DIR_PERM),
        };
        entries.push(Some(root));
        let t = InodeTable { entries };
        proof {
            let s = t.entries@;
            assert(s[0] is Some && entry_ok(s, 0)) by {
                assert(s[0]->Some_0.children@.no_duplicates());
            }
            assert forall|c: u64| live(s, c) && c != ROOT_INO implies exists|p: int|
                is_parent_of(s, p, c) by {
                assert(false);
            }
        }
        t
    }

    /// Number of table slots, which is also the largest identity ever
    /// allocated.
    pub fn len(&self) -> (n: usize)
        ensures
            n == self.entries@.len(),
    {
        self.entries.len()
    }

    /// Bounds-checked accessor: the entry for `ino`, or `None` when the
    /// identity is out of range or its slot is a tombstone. All identity
    /// resolution goes through here, so out-of-range and retired
    /// identities look identical to every handler.
    pub fn get(&self, ino: u64) -> (r: Option<&Entry>)
        ensures
            match r {
                Some(e) => live(self.entries@, ino) && *e == entry_at(self.entries@, ino),
                None => !live(self.entries@, ino),
            },
    {
        if 1 <= ino && ino <= self.entries.len() as u64 {
            let idx = (ino - 1) as usize;
            match &self.entries[idx] {
                Some(e) => Some(e),
                None => None,
            }
        } else {
            None
        }
    }
}

} // verus!
