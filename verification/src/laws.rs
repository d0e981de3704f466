use vstd::prelude::*;

use crate::attrs::{dir_attributes, DIR_PERM};
use crate::handlers::{first_match_from, listed_as, mkdir_post, resolve_spec, DirEntry};
use crate::table::{entry_at, is_parent_of, live, wf, Entry, ROOT_INO};

verus! {

/// Identity monotonicity: a create allocates the identity one past the
/// table length, which is at least 2 (the root owns 1) and strictly
/// greater than every identity already live — so across any sequence of
/// creates the returned identities strictly increase, starting at 2.
pub proof fn lemma_identity_monotonic(
    pre: Seq<Option<Entry>>,
    post: Seq<Option<Entry>>,
    parent: u64,
    name: Seq<char>,
)
    requires
        wf(pre),
        mkdir_post(pre, post, parent, name),
    ensures
        2 <= pre.len() + 1,
        forall|c: u64| #[trigger] live(pre, c) ==> (c as int) < pre.len() + 1,
        live(post, (pre.len() + 1) as u64),
        post.len() == pre.len() + 1,
{
}

/// Identity `c` reaches the root of table `s` by following parents:
/// either `c` is the root, or `c` is registered as the child of a strictly
/// earlier entry that itself reaches the root.
pub open spec fn reaches_root(s: Seq<Option<Entry>>, c: u64) -> bool
    decreases c,
{
    if c == ROOT_INO {
        true
    } else {
        let p = choose|p: int| is_parent_of(s, p, c);
        &&& is_parent_of(s, p, c)
        &&& if 0 <= p && p + 1 < c as int {
            reaches_root(s, (p + 1) as u64)
        } else {
            false
        }
    }
}

/// Referential integrity: every identity appearing in some entry's
/// children is itself a live entry whose ancestor chain reaches the root.
pub proof fn lemma_referential_integrity(s: Seq<Option<Entry>>, c: u64)
    requires
        wf(s),
        exists|p: int| is_parent_of(s, p, c),
    ensures
        live(s, c),
        reaches_root(s, c),
    decreases c,
{
    let p = choose|p: int| is_parent_of(s, p, c);
    assert(crate::table::entry_ok(s, p));
    let kids = s[p]->Some_0.children@;
    let w = choose|w: int| 0 <= w < kids.len() && kids[w] == c;
    assert(p + 1 < (kids[w] as int) <= s.len());
    assert(live(s, c));
    let pp = (p + 1) as u64;
    if pp != ROOT_INO {
        assert(live(s, pp));
        lemma_referential_integrity(s, pp);
    } else {
        assert(reaches_root(s, pp));
    }
    // the parent slot `reaches_root` picks is the unique one, ours
    let q = choose|q: int| is_parent_of(s, q, c);
    assert(is_parent_of(s, q, c));
    assert(q == p);
    assert(c != ROOT_INO);
    assert((q + 1) as u64 == pp);
    assert(reaches_root(s, c));
}

/// Every live entry of a well-formed table reaches the root.
pub proof fn lemma_all_reach_root(s: Seq<Option<Entry>>)
    requires
        wf(s),
    ensures
        forall|c: u64| #[trigger] live(s, c) ==> reaches_root(s, c),
{
    assert forall|c: u64| #[trigger] live(s, c) implies reaches_root(s, c) by {
        if c != ROOT_INO {
            lemma_referential_integrity(s, c);
        }
    }
}

/// Two tables that agree on the names of the entries `kids` points at
/// agree on the first match of any scan.
proof fn lemma_first_match_same(
    s1: Seq<Option<Entry>>,
    s2: Seq<Option<Entry>>,
    kids: Seq<u64>,
    name: Seq<char>,
    i: int,
)
    requires
        forall|k: int|
            i <= k < kids.len() ==> entry_at(s1, #[trigger] kids[k]).name@ == entry_at(
                s2,
                kids[k],
            ).name@,
    ensures
        first_match_from(s1, kids, name, i) == first_match_from(s2, kids, name, i),
    decreases kids.len() - i,
{
    if 0 <= i < kids.len() {
        lemma_first_match_same(s1, s2, kids, name, i + 1);
    }
}

/// Appending a fresh child to a scan that had no match makes that child
/// decide the scan: it is the first match exactly when its name is the one
/// sought.
proof fn lemma_first_match_push(
    s: Seq<Option<Entry>>,
    kids: Seq<u64>,
    x: u64,
    name: Seq<char>,
    i: int,
)
    requires
        0 <= i <= kids.len(),
        first_match_from(s, kids, name, i) is None,
    ensures
        first_match_from(s, kids.push(x), name, i) == if entry_at(s, x).name@ == name {
            Some(x)
        } else {
            None::<u64>
        },
    decreases kids.len() - i,
{
    let grown = kids.push(x);
    if i == kids.len() {
        assert(grown[i] == x);
        assert(first_match_from(s, grown, name, i + 1) is None);
    } else {
        assert(grown[i] == kids[i]);
        lemma_first_match_push(s, kids, x, name, i + 1);
    }
}

/// Lookup correctness: when no child of `parent` already carries `name`,
/// a create of `name` under `parent` makes resolution of `name` under
/// `parent` return exactly the new identity, and the attributes stored for
/// it are the ones the create replied with.
pub proof fn lemma_lookup_after_create(
    pre: Seq<Option<Entry>>,
    post: Seq<Option<Entry>>,
    parent: u64,
    name: Seq<char>,
)
    requires
        wf(pre),
        live(pre, parent),
        mkdir_post(pre, post, parent, name),
        resolve_spec(pre, parent, name) is None,
    ensures
        resolve_spec(post, parent, name) == Some((pre.len() + 1) as u64),
        entry_at(post, (pre.len() + 1) as u64).attr == dir_attributes(
            (pre.len() + 1) as u64,
            DIR_PERM,
        ),
{
    let ino = (pre.len() + 1) as u64;
    let pidx = parent - 1;
    let old_kids = pre[pidx]->Some_0.children@;
    let new_kids = post[pidx]->Some_0.children@;
    assert(new_kids == old_kids.push(ino));
    assert(crate::table::entry_ok(pre, pidx));
    assert forall|k: int| 0 <= k < old_kids.len() implies entry_at(
        pre,
        #[trigger] old_kids[k],
    ).name@ == entry_at(post, old_kids[k]).name@ by {
        let c = old_kids[k];
        assert(pidx + 1 < (c as int) <= pre.len());
        assert(post[c - 1] == pre[c - 1]);
    }
    lemma_first_match_same(pre, post, old_kids, name, 0);
    lemma_first_match_push(post, old_kids, ino, name, 0);
    assert(entry_at(post, ino).name@ == name);
    assert(live(post, parent));
    assert(entry_at(post, parent).children@ == new_kids);
}

/// Listing completeness and resumability. Let one listing call starting at
/// position `o1` return `v1`; let its consumer truncate it after `k`
/// elements; let the next call resume at the offset the last delivered
/// element named (or at `o1` when nothing was delivered) and return `v2`.
/// Then the identities delivered by the truncated call and by the resumed
/// call concatenate to exactly the children from position `o1` on — no
/// duplicates, no omissions, however the consumer truncates. Starting at
/// position 0 this yields exactly the full child list.
pub proof fn lemma_listing_resumable(
    s: Seq<Option<Entry>>,
    ino: u64,
    o1: int,
    v1: Seq<DirEntry>,
    k: int,
    o2: int,
    v2: Seq<DirEntry>,
)
    requires
        wf(s),
        live(s, ino),
        0 <= o1 <= entry_at(s, ino).children@.len(),
        v1.len() == entry_at(s, ino).children@.len() - o1,
        forall|j: int|
            0 <= j < v1.len() ==> listed_as(s, entry_at(s, ino).children@, o1 + j, #[trigger] v1[j]),
        0 <= k <= v1.len(),
        o2 == if k == 0 {
            o1
        } else {
            v1[k - 1].next_offset as int
        },
        v2.len() == entry_at(s, ino).children@.len() - o2,
        forall|j: int|
            0 <= j < v2.len() ==> listed_as(s, entry_at(s, ino).children@, o2 + j, #[trigger] v2[j]),
    ensures
        v1.take(k).map_values(|d: DirEntry| d.ino) + v2.map_values(|d: DirEntry| d.ino)
            == entry_at(s, ino).children@.skip(o1),
        o1 == 0 ==> v1.take(k).map_values(|d: DirEntry| d.ino) + v2.map_values(
            |d: DirEntry| d.ino,
        ) == entry_at(s, ino).children@,
{
    let kids = entry_at(s, ino).children@;
    assert(o2 == o1 + k);
    let lhs = v1.take(k).map_values(|d: DirEntry| d.ino) + v2.map_values(|d: DirEntry| d.ino);
    assert(lhs =~= kids.skip(o1));
    if o1 == 0 {
        assert(kids.skip(0) =~= kids);
    }
}

} // verus!
