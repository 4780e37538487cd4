//! Bounded selection of the largest entries seen during a scan.

use vstd::prelude::*;
use crate::text::{chars_of, string_from_chars};

verus! {

/// A path with the number of bytes it holds.
#[derive(Clone, Debug, PartialEq, Eq)]
pub struct SizedPath {
    pub path: String,
    pub size: u64,
}

/// An entry as the selection sees it: its size and the characters of its path.
pub type Entry = (u64, Seq<char>);

/// The rank of a path character: separators sort before every other
/// character, so that paths order component by component. `/` always
/// separates; `\` does where the platform says so (`bs`, as on Windows), and
/// is otherwise an ordinary character.
pub open spec fn path_key(c: char, bs: bool) -> int {
    if c == '/' {
        -2
    } else if bs && c == '\\' {
        -1
    } else {
        (c as u32) as int
    }
}

/// The order of paths: lexicographic by `path_key`, a proper prefix first;
/// `bs` says whether `\` separates components.
pub open spec fn path_lt(a: Seq<char>, b: Seq<char>, bs: bool) -> bool
    decreases a.len(),
{
    if a.len() == 0 {
        b.len() > 0
    } else if b.len() == 0 {
        false
    } else if path_key(a[0], bs) != path_key(b[0], bs) {
        path_key(a[0], bs) < path_key(b[0], bs)
    } else {
        path_lt(a.skip(1), b.skip(1), bs)
    }
}

/// The order of entries: by size, then by path.
pub open spec fn entry_lt(x: Entry, y: Entry, bs: bool) -> bool {
    x.0 < y.0 || (x.0 == y.0 && path_lt(x.1, y.1, bs))
}

/// Whether `x` is listed before `y` in a report: larger first, then by path.
pub open spec fn listed_before(x: Entry, y: Entry, bs: bool) -> bool {
    x.0 > y.0 || (x.0 == y.0 && path_lt(x.1, y.1, bs))
}

/// `s` is in report order.
pub open spec fn in_report_order(s: Seq<Entry>, bs: bool) -> bool {
    forall|i: int, j: int| 0 <= i < j < s.len() ==> !listed_before(#[trigger] s[j], #[trigger] s[i], bs)
}

/// `s[i]` is a smallest entry of `s`.
pub open spec fn is_min_at(s: Seq<Entry>, i: int, bs: bool) -> bool {
    &&& 0 <= i < s.len()
    &&& forall|k: int| 0 <= k < s.len() ==> !entry_lt(#[trigger] s[k], s[i], bs)
}

/// `s[m]` is the first of the smallest entries of `s`.
pub open spec fn is_first_min(s: Seq<Entry>, m: int, bs: bool) -> bool {
    &&& is_min_at(s, m, bs)
    &&& forall|k: int| 0 <= k < m ==> !is_min_at(s, k, bs)
}

/// The index of the first smallest entry of `s`.
pub open spec fn first_min(s: Seq<Entry>, bs: bool) -> int {
    choose|m: int| is_first_min(s, m, bs)
}

/// The entries kept once `x` is offered to a selection of capacity `cap` that
/// holds `held`: kept while there is room; once full, it replaces the first
/// smallest entry if it is strictly larger than that one.
pub open spec fn topn_step(cap: nat, held: Seq<Entry>, x: Entry, bs: bool) -> Seq<Entry> {
    if cap == 0 {
        held
    } else if held.len() < cap {
        held.push(x)
    } else {
        let m = first_min(held, bs);
        if x.0 > held[m].0 {
            held.update(m, x)
        } else {
            held
        }
    }
}

pub proof fn lemma_first_min_unique(s: Seq<Entry>, m: int, bs: bool)
    requires
        is_first_min(s, m, bs),
    ensures
        first_min(s, bs) == m,
{
    let c = first_min(s, bs);
    assert(is_first_min(s, c, bs));
    if c < m {
        assert(!is_min_at(s, c, bs));
    } else if m < c {
        assert(!is_min_at(s, m, bs));
    }
}

pub proof fn lemma_path_lt_asym(a: Seq<char>, b: Seq<char>, bs: bool)
    ensures
        path_lt(a, b, bs) ==> !path_lt(b, a, bs),
    decreases a.len(),
{
    if a.len() > 0 && b.len() > 0 && path_key(a[0], bs) == path_key(b[0], bs) {
        lemma_path_lt_asym(a.skip(1), b.skip(1), bs);
    }
}

pub proof fn lemma_path_lt_irrefl(a: Seq<char>, bs: bool)
    ensures
        !path_lt(a, a, bs),
    decreases a.len(),
{
    if a.len() > 0 {
        lemma_path_lt_irrefl(a.skip(1), bs);
    }
}

pub proof fn lemma_path_lt_trans(a: Seq<char>, b: Seq<char>, c: Seq<char>, bs: bool)
    ensures
        path_lt(a, b, bs) && path_lt(b, c, bs) ==> path_lt(a, c, bs),
    decreases a.len(),
{
    if a.len() > 0 && b.len() > 0 && c.len() > 0 {
        lemma_path_lt_trans(a.skip(1), b.skip(1), c.skip(1), bs);
    }
}

pub proof fn lemma_path_lt_total(a: Seq<char>, b: Seq<char>, bs: bool)
    ensures
        a != b ==> path_lt(a, b, bs) || path_lt(b, a, bs),
    decreases a.len(),
{
    if a.len() > 0 && b.len() > 0 {
        lemma_path_lt_total(a.skip(1), b.skip(1), bs);
        if path_key(a[0], bs) == path_key(b[0], bs) && a != b {
            vstd::utf8::char_u32_cast(a[0], a[0] as u32);
            vstd::utf8::char_u32_cast(b[0], b[0] as u32);
            assert(a[0] == b[0]);
            if a.skip(1) == b.skip(1) {
                assert(a =~= seq![a[0]] + a.skip(1));
                assert(b =~= seq![b[0]] + b.skip(1));
            }
        }
    } else if a.len() == 0 && b.len() == 0 {
        assert(a =~= b);
    }
}

pub proof fn lemma_entry_order(bs: bool)
    ensures
        forall|x: Entry, y: Entry| entry_lt(x, y, bs) ==> !entry_lt(y, x, bs),
        forall|x: Entry, y: Entry, z: Entry|
            entry_lt(x, y, bs) && entry_lt(y, z, bs) ==> entry_lt(x, z, bs),
        forall|x: Entry, y: Entry| listed_before(x, y, bs) ==> !listed_before(y, x, bs),
        forall|x: Entry, y: Entry, z: Entry|
            listed_before(x, y, bs) && listed_before(y, z, bs) ==> listed_before(x, z, bs),
        forall|x: Entry| !listed_before(x, x, bs),
{
    assert forall|x: Entry, y: Entry| entry_lt(x, y, bs) implies !entry_lt(y, x, bs) by {
        lemma_path_lt_asym(x.1, y.1, bs);
    }
    assert forall|x: Entry, y: Entry, z: Entry| entry_lt(x, y, bs) && entry_lt(y, z, bs) implies entry_lt(
        x,
        z, bs,
    ) by {
        lemma_path_lt_trans(x.1, y.1, z.1, bs);
    }
    assert forall|x: Entry, y: Entry| listed_before(x, y, bs) implies !listed_before(y, x, bs) by {
        lemma_path_lt_asym(x.1, y.1, bs);
    }
    assert forall|x: Entry, y: Entry, z: Entry|
        listed_before(x, y, bs) && listed_before(y, z, bs) implies listed_before(x, z, bs) by {
        lemma_path_lt_trans(x.1, y.1, z.1, bs);
    }
    assert forall|x: Entry| !listed_before(x, x, bs) by {
        lemma_path_lt_irrefl(x.1, bs);
    }
}

/// Compares two paths by `path_lt`.
pub fn path_less(a: &Vec<char>, b: &Vec<char>, bs: bool) -> (r: bool)
    ensures
        r == path_lt(a@, b@, bs),
{
    let mut i: usize = 0;
    assert(a@.skip(0) =~= a@);
    assert(b@.skip(0) =~= b@);
    while i < a.len() && i < b.len()
        invariant
            i <= a.len(),
            i <= b.len(),
            path_lt(a@, b@, bs) == path_lt(a@.skip(i as int), b@.skip(i as int), bs),
        decreases a.len() - i,
    {
        let ca = a[i];
        let cb = b[i];
        let ka: i64 = if ca == '/' { -2 } else if bs && ca == '\\' { -1 } else { ca as u32 as i64 };
        let kb: i64 = if cb == '/' { -2 } else if bs && cb == '\\' { -1 } else { cb as u32 as i64 };
        proof {
            let sa = a@.skip(i as int);
            let sb = b@.skip(i as int);
            assert(sa[0] == ca && sb[0] == cb);
            assert(sa.skip(1) =~= a@.skip(i + 1));
            assert(sb.skip(1) =~= b@.skip(i + 1));
        }
        if ka != kb {
            return ka < kb;
        }
        i = i + 1;
    }
    proof {
        assert(a@.skip(i as int).len() == a.len() - i);
        assert(b@.skip(i as int).len() == b.len() - i);
    }
    i == a.len() && i < b.len()
}

/// An entry held by the selection.
#[derive(Clone, Debug)]
pub struct HeapItem {
    pub size: u64,
    pub path: Vec<char>,
}

impl View for HeapItem {
    type V = Entry;

    open spec fn view(&self) -> Entry {
        (self.size, self.path@)
    }
}

pub open spec fn entries(v: Seq<HeapItem>) -> Seq<Entry> {
    v.map_values(|x: HeapItem| x@)
}

/// Whether `x` comes before `y` in report order.
pub fn listed_before_exec(x: &HeapItem, y: &HeapItem, bs: bool) -> (r: bool)
    ensures
        r == listed_before(x@, y@, bs),
{
    x.size > y.size || (x.size == y.size && path_less(&x.path, &y.path, bs))
}

/// Whether `x` is smaller than `y` by size, then path.
pub fn entry_less(x: &HeapItem, y: &HeapItem, bs: bool) -> (r: bool)
    ensures
        r == entry_lt(x@, y@, bs),
{
    x.size < y.size || (x.size == y.size && path_less(&x.path, &y.path, bs))
}

/// Whether `\` separates path components on this platform, as
/// `std::path::is_separator` answers for it. Nothing is stated of the answer:
/// it depends on the platform (true on Windows).
#[verifier::external_body]
fn backslash_separates() -> (b: bool) {
    std::path::is_separator('\\')
}

/// Keeps the `capacity` largest of the entries offered to it.
pub struct TopN {
    capacity: usize,
    backslash: bool,
    heap: Vec<HeapItem>,
    offered: Ghost<Seq<Entry>>,
}

impl TopN {
    /// The most entries kept.
    pub closed spec fn capacity(&self) -> nat {
        self.capacity as nat
    }

    /// Whether `\` separates path components in the order of entries.
    pub closed spec fn backslash_separates(&self) -> bool {
        self.backslash
    }

    /// The entries kept, in no particular order.
    pub closed spec fn held(&self) -> Seq<Entry> {
        entries(self.heap@)
    }

    /// Every entry offered so far, in order.
    pub closed spec fn offered(&self) -> Seq<Entry> {
        self.offered@
    }

    /// What the selection keeps of what it was offered: only offered entries,
    /// each at most as often as it was offered; as many as the capacity allows;
    /// all of them, as often as offered, while they fit; every offered entry
    /// larger than a kept one is kept too; and no entry dropped (offered more
    /// often than kept) is larger than any kept one.
    pub open spec fn keeps_largest(&self) -> bool {
        &&& forall|i: int| 0 <= i < self.held().len() ==> self.offered().contains(#[trigger] self.held()[i])
        &&& self.held().to_multiset().subset_of(self.offered().to_multiset())
        &&& self.offered().len() <= self.capacity() ==> self.held().to_multiset() == self.offered().to_multiset()
        &&& dropped_not_larger(self.held(), self.offered())
        &&& self.held().len() == if self.offered().len() < self.capacity() {
            self.offered().len()
        } else {
            self.capacity()
        }
        &&& self.offered().len() <= self.capacity() ==> forall|i: int|
            0 <= i < self.offered().len() ==> self.held().contains(#[trigger] self.offered()[i])
        &&& forall|i: int, j: int|
            0 <= i < self.offered().len() && 0 <= j < self.held().len() && (
            #[trigger] self.offered()[i]).0 > (#[trigger] self.held()[j]).0
                ==> self.held().contains(self.offered()[i])
    }

}

/// Every entry offered more often than it is kept is no larger than any kept entry.
pub open spec fn dropped_not_larger(held: Seq<Entry>, offered: Seq<Entry>) -> bool {
    forall|o: Entry, j: int|
        0 <= j < held.len() && #[trigger] held.to_multiset().count(o) < offered.to_multiset().count(o)
            ==> o.0 <= (#[trigger] held[j]).0
}

/// While everything offered is kept, offering one more and keeping it too
/// keeps the two equal as multisets.
proof fn lemma_all_kept_push(h: Seq<Entry>, o: Seq<Entry>, x: Entry)
    requires
        h.to_multiset() == o.to_multiset(),
    ensures
        h.push(x).to_multiset() == o.push(x).to_multiset(),
        dropped_not_larger(h.push(x), o.push(x)),
{
    broadcast use vstd::seq_lib::group_to_multiset_ensures;

    assert(h.push(x).to_multiset() =~= h.to_multiset().insert(x));
    assert(o.push(x).to_multiset() =~= o.to_multiset().insert(x));
}

/// Offering an entry no larger than any kept one, and dropping it, drops
/// nothing larger than what is kept.
proof fn lemma_dropped_after_ignore(h: Seq<Entry>, o: Seq<Entry>, x: Entry)
    requires
        h.to_multiset().subset_of(o.to_multiset()),
        dropped_not_larger(h, o),
        forall|k: int| 0 <= k < h.len() ==> x.0 <= (#[trigger] h[k]).0,
    ensures
        dropped_not_larger(h, o.push(x)),
{
    broadcast use vstd::seq_lib::group_to_multiset_ensures, vstd::multiset::group_multiset_axioms;

    assert(o.push(x).to_multiset() =~= o.to_multiset().insert(x));
    assert forall|v: Entry, j: int|
        0 <= j < h.len() && #[trigger] h.to_multiset().count(v) < o.push(x).to_multiset().count(v)
            implies v.0 <= (#[trigger] h[j]).0 by {
        if v != x {
            assert(h.to_multiset().count(v) < o.to_multiset().count(v));
        }
    }
}

/// Offering an entry larger than the kept entry `h[m]`, which is no larger than
/// any other kept one, and putting it in its place drops nothing larger than
/// what is kept.
proof fn lemma_dropped_after_replace(h: Seq<Entry>, o: Seq<Entry>, x: Entry, m: int)
    requires
        h.to_multiset().subset_of(o.to_multiset()),
        dropped_not_larger(h, o),
        0 <= m < h.len(),
        forall|k: int| 0 <= k < h.len() ==> h[m].0 <= (#[trigger] h[k]).0,
        x.0 > h[m].0,
    ensures
        dropped_not_larger(h.update(m, x), o.push(x)),
{
    broadcast use vstd::seq_lib::group_to_multiset_ensures, vstd::multiset::group_multiset_axioms;

    let h2 = h.update(m, x);
    assert(o.push(x).to_multiset() =~= o.to_multiset().insert(x));
    assert(h2.to_multiset() == h.to_multiset().insert(x).remove(h[m]));
    assert forall|v: Entry, j: int|
        0 <= j < h2.len() && #[trigger] h2.to_multiset().count(v) < o.push(x).to_multiset().count(v)
            implies v.0 <= (#[trigger] h2[j]).0 by {
        assert(h.to_multiset().count(v) <= o.to_multiset().count(v));
        if v != h[m] {
            assert(h.to_multiset().count(v) < o.to_multiset().count(v));
            assert(v.0 <= h[m].0);
            if j != m {
                assert(v.0 <= h[j].0);
            }
        } else if j != m {
            assert(h2[j] == h[j]);
        }
    }
}

/// What is kept stays within what was offered, as a multiset, when an entry is
/// offered and then ignored, added, or put in the place of a kept one.
proof fn lemma_kept_within_offered(h: Seq<Entry>, o: Seq<Entry>, x: Entry)
    requires
        h.to_multiset().subset_of(o.to_multiset()),
    ensures
        h.to_multiset().subset_of(o.push(x).to_multiset()),
        h.push(x).to_multiset().subset_of(o.push(x).to_multiset()),
        forall|m: int| 0 <= m < h.len() ==> #[trigger] h.update(m, x).to_multiset().subset_of(
            o.push(x).to_multiset(),
        ),
{
    broadcast use vstd::seq_lib::group_to_multiset_ensures, vstd::multiset::group_multiset_axioms;

    assert(o.push(x).to_multiset() =~= o.to_multiset().insert(x));
    assert(h.push(x).to_multiset() =~= h.to_multiset().insert(x));
    assert forall|m: int| 0 <= m < h.len() implies #[trigger] h.update(m, x).to_multiset().subset_of(
        o.push(x).to_multiset(),
    ) by {
        assert(h.update(m, x).to_multiset() == h.to_multiset().insert(x).remove(h[m]));
        assert forall|v: Entry| #[trigger] h.update(m, x).to_multiset().count(v) <= o.push(
            x,
        ).to_multiset().count(v) by {
            assert(h.to_multiset().count(v) <= o.to_multiset().count(v));
        }
    }
    assert forall|v: Entry| #[trigger] h.to_multiset().count(v) <= o.push(x).to_multiset().count(v) by {
        assert(h.to_multiset().count(v) <= o.to_multiset().count(v));
    }
    assert forall|v: Entry| #[trigger] h.push(x).to_multiset().count(v) <= o.push(x).to_multiset().count(
        v,
    ) by {
        assert(h.to_multiset().count(v) <= o.to_multiset().count(v));
    }
}

impl TopN {
    /// An empty selection that keeps at most `capacity` entries.
    pub fn new(capacity: usize) -> (t: Self)
        ensures
            t.capacity() == capacity,
            t.held() == Seq::<Entry>::empty(),
            t.offered() == Seq::<Entry>::empty(),
            t.keeps_largest(),
    {
        let t = TopN {
            capacity,
            backslash: backslash_separates(),
            heap: Vec::new(),
            offered: Ghost(Seq::empty()),
        };
        assert(t.held() =~= Seq::<Entry>::empty());
        proof {
            broadcast use vstd::seq_lib::group_to_multiset_ensures;

            assert forall|v: Entry| #[trigger] t.held().to_multiset().count(v) <= t.offered().to_multiset().count(v) by {
                assert(!t.held().contains(v));
            }
        }
        t
    }

    fn min_index(&self) -> (m: usize)
        requires
            self.heap@.len() > 0,
        ensures
            is_first_min(self.held(), m as int, self.backslash_separates()),
    {
        let bs = self.backslash;
        proof {
            lemma_entry_order(bs);
            assert forall|x: Entry, y: Entry| x != y implies entry_lt(x, y, bs) || entry_lt(y, x, bs) by {
                lemma_path_lt_total(x.1, y.1, bs);
                if x.0 == y.0 && x.1 == y.1 {
                    assert(x =~= y);
                }
            }
        }
        let mut m: usize = 0;
        let mut k: usize = 1;
        while k < self.heap.len()
            invariant
                1 <= k <= self.heap@.len(),
                m < k,
                forall|x: Entry, y: Entry, z: Entry|
                    entry_lt(x, y, bs) && entry_lt(y, z, bs) ==> entry_lt(x, z, bs),
                forall|x: Entry, y: Entry| entry_lt(x, y, bs) ==> !entry_lt(y, x, bs),
                forall|x: Entry, y: Entry| x != y ==> entry_lt(x, y, bs) || entry_lt(y, x, bs),
                forall|i: int| 0 <= i < k ==> !entry_lt(#[trigger] self.held()[i], self.held()[m as int], bs),
                forall|i: int| 0 <= i < m ==> entry_lt(self.held()[m as int], #[trigger] self.held()[i], bs),
            decreases self.heap@.len() - k,
        {
            if entry_less(&self.heap[k], &self.heap[m], bs) {
                m = k;
            }
            k = k + 1;
        }
        proof {
            assert forall|i: int| 0 <= i < m implies !is_min_at(self.held(), i, bs) by {
                assert(entry_lt(self.held()[m as int], self.held()[i], bs));
            }
        }
        m
    }

    /// Offers an entry: kept while there is room; once full, it takes the place
    /// of a smallest kept entry if it is strictly larger than that one.
    pub fn consider(&mut self, path: String, size: u64)
        requires
            old(self).keeps_largest(),
        ensures
            final(self).capacity() == old(self).capacity(),
            final(self).offered() == old(self).offered().push((size, path@)),
            old(self).capacity() == 0 ==> final(self).held() == old(self).held(),
            final(self).backslash_separates() == old(self).backslash_separates(),
            final(self).held() == topn_step(
                old(self).capacity(),
                old(self).held(),
                (size, path@),
                old(self).backslash_separates(),
            ),
            final(self).keeps_largest(),
    {
        let bs = self.backslash;
        let ghost old_held = self.held();
        let ghost old_offered = self.offered();
        let ghost x: Entry = (size, path@);
        proof {
            lemma_entry_order(bs);
            lemma_kept_within_offered(old_held, old_offered, x);
        }
        self.offered = Ghost(self.offered@.push(x));
        if self.capacity == 0 {
            assert(self.held() == old_held);
            assert(old_held.len() == 0);
            return;
        }
        let item = HeapItem { size, path: chars_of(path.as_str()) };
        if self.heap.len() < self.capacity {
            self.heap.push(item);
            assert(self.held() =~= old_held.push(x));
            proof {
                lemma_all_kept_push(old_held, old_offered, x);
                assert forall|i: int| 0 <= i < self.offered().len() implies self.held().contains(
                    #[trigger] self.offered()[i],
                ) by {
                    if i < old_offered.len() {
                        let j = choose|j: int| 0 <= j < old_held.len() && old_held[j] == old_offered[i];
                        assert(self.held()[j] == self.offered()[i]);
                    } else {
                        assert(self.held()[old_held.len() as int] == x);
                    }
                }
                assert forall|i: int| 0 <= i < self.held().len() implies self.offered().contains(
                    #[trigger] self.held()[i],
                ) by {
                    if i < old_held.len() {
                        let j = choose|j: int| 0 <= j < old_offered.len() && old_offered[j] == old_held[i];
                        assert(self.offered()[j] == self.held()[i]);
                    } else {
                        assert(self.offered()[old_offered.len() as int] == x);
                    }
                }
            }
            return;
        }
        let m = self.min_index();
        proof {
            lemma_first_min_unique(old_held, m as int, bs);
        }
        if size > self.heap[m].size {
            self.heap.set(m, item);
            assert(self.held() =~= old_held.update(m as int, x));
            proof {
                assert(old_held.update(m as int, x).to_multiset().subset_of(old_offered.push(x).to_multiset()));
                let mm = old_held[m as int];
                assert forall|k: int| 0 <= k < old_held.len() implies mm.0 <= (#[trigger] old_held[k]).0 by {
                    assert(!entry_lt(old_held[k], mm, bs));
                }
                lemma_dropped_after_replace(old_held, old_offered, x, m as int);
                assert forall|i: int| 0 <= i < self.held().len() implies self.offered().contains(
                    #[trigger] self.held()[i],
                ) by {
                    if i != m {
                        let j = choose|j: int| 0 <= j < old_offered.len() && old_offered[j] == old_held[i];
                        assert(self.offered()[j] == self.held()[i]);
                    } else {
                        assert(self.offered()[old_offered.len() as int] == x);
                    }
                }
                assert forall|i: int, j: int|
                    0 <= i < self.offered().len() && 0 <= j < self.held().len() && (
                    #[trigger] self.offered()[i]).0 > (#[trigger] self.held()[j]).0 implies self.held().contains(
                    self.offered()[i],
                ) by {
                    let o = self.offered()[i];
                    // every kept entry is at least as large as the one replaced
                    assert(self.held()[j].0 >= mm.0) by {
                        if j != m {
                            assert(!entry_lt(old_held[j], mm, bs));
                        }
                    }
                    if i == old_offered.len() {
                        assert(self.held()[m as int] == x);
                    } else {
                        assert(o == old_offered[i]);
                        if o.0 > mm.0 {
                            assert(old_held.contains(o));
                            let k = choose|k: int| 0 <= k < old_held.len() && old_held[k] == o;
                            assert(k != m);
                            assert(self.held()[k] == o);
                        }
                    }
                }
            }
        } else {
            proof {
                let mm = old_held[m as int];
                assert forall|k: int| 0 <= k < old_held.len() implies x.0 <= (#[trigger] old_held[k]).0 by {
                    assert(!entry_lt(old_held[k], mm, bs));
                }
                lemma_dropped_after_ignore(old_held, old_offered, x);
                assert forall|i: int, j: int|
                    0 <= i < self.offered().len() && 0 <= j < self.held().len() && (
                    #[trigger] self.offered()[i]).0 > (#[trigger] self.held()[j]).0 implies self.held().contains(
                    self.offered()[i],
                ) by {
                    if i == old_offered.len() {
                        assert(!entry_lt(old_held[j], mm, bs));
                    } else {
                        assert(self.offered()[i] == old_offered[i]);
                    }
                }
                assert forall|i: int| 0 <= i < self.held().len() implies self.offered().contains(
                    #[trigger] self.held()[i],
                ) by {
                    let j = choose|j: int| 0 <= j < old_offered.len() && old_offered[j] == old_held[i];
                    assert(self.offered()[j] == self.held()[i]);
                }
            }
        }
    }

    /// The kept entries, largest first (equal sizes by path).
    pub fn into_sorted_desc(self) -> (out: Vec<SizedPath>)
        requires
            self.keeps_largest(),
        ensures
            in_report_order(sized_entries(out@), self.backslash_separates()),
            sized_entries(out@).to_multiset() == self.held().to_multiset(),
            sized_entries(out@).to_multiset().subset_of(self.offered().to_multiset()),
            dropped_not_larger(sized_entries(out@), self.offered()),
            out@.len() == if self.offered().len() < self.capacity() {
                self.offered().len()
            } else {
                self.capacity()
            },
            forall|j: int| 0 <= j < out@.len() ==> self.offered().contains(#[trigger] sized_entries(out@)[j]),
            forall|i: int, j: int|
                0 <= i < self.offered().len() && 0 <= j < out@.len() && (
                #[trigger] self.offered()[i]).0 > (#[trigger] out@[j]).size
                    ==> sized_entries(out@).contains(self.offered()[i]),
    {
        broadcast use vstd::seq_lib::group_to_multiset_ensures;
        let bs = self.backslash;
        proof {
            lemma_entry_order(bs);
        }
        let ghost held = self.held();
        let mut rest = self.heap;
        let mut sorted: Vec<HeapItem> = Vec::new();
        assert(entries(sorted@) =~= Seq::<Entry>::empty());
        assert(entries(rest@) == held);
        while rest.len() > 0
            invariant
                entries(rest@).to_multiset().add(entries(sorted@).to_multiset()) == held.to_multiset(),
                in_report_order(entries(sorted@), bs),
                forall|x: Entry, y: Entry| listed_before(x, y, bs) ==> !listed_before(y, x, bs),
                forall|x: Entry, y: Entry, z: Entry|
                    listed_before(x, y, bs) && listed_before(y, z, bs) ==> listed_before(x, z, bs),
            decreases rest@.len(),
        {
            let ghost before_rest = entries(rest@);
            let x = rest.pop().unwrap();
            assert(before_rest =~= entries(rest@).push(x@));
            proof {
                entries(rest@).to_multiset_ensures();
                assert(before_rest.to_multiset() =~= entries(rest@).to_multiset().insert(x@));
            }
            let mut pos: usize = 0;
            while pos < sorted.len() && !listed_before_exec(&x, &sorted[pos], bs)
                invariant
                    pos <= sorted@.len(),
                    forall|i: int| 0 <= i < pos ==> !listed_before(x@, #[trigger] entries(sorted@)[i], bs),
                decreases sorted@.len() - pos,
            {
                pos = pos + 1;
            }
            let ghost s0 = entries(sorted@);
            sorted.insert(pos, x);
            proof {
                assert(entries(sorted@) =~= s0.insert(pos as int, x@));
                vstd::seq_lib::to_multiset_insert(s0, pos as int, x@);
                let s1 = entries(sorted@);
                assert forall|i: int, j: int| 0 <= i < j < s1.len() implies !listed_before(
                    #[trigger] s1[j],
                    #[trigger] s1[i], bs,
                ) by {
                    if j < pos {
                        assert(s1[i] == s0[i] && s1[j] == s0[j]);
                    } else if j == pos {
                        assert(s1[i] == s0[i]);
                    } else if i == pos {
                        assert(s1[j] == s0[j - 1]);
                        if pos < s0.len() {
                            assert(listed_before(x@, s0[pos as int], bs));
                            if j - 1 > pos {
                                assert(!listed_before(s0[j - 1], s0[pos as int], bs));
                            }
                        }
                    } else if i < pos {
                        assert(s1[i] == s0[i] && s1[j] == s0[j - 1]);
                    } else {
                        assert(s1[i] == s0[i - 1] && s1[j] == s0[j - 1]);
                    }
                }
                assert(s1.to_multiset() =~= s0.to_multiset().insert(x@));
                assert(entries(rest@).to_multiset().add(s1.to_multiset()) =~= before_rest.to_multiset().add(
                    s0.to_multiset(),
                ));
            }
        }
        assert(entries(rest@) =~= Seq::<Entry>::empty());
        assert(entries(sorted@).to_multiset() =~= held.to_multiset());
        let mut out: Vec<SizedPath> = Vec::new();
        let mut k: usize = 0;
        while k < sorted.len()
            invariant
                k <= sorted@.len(),
                sized_entries(out@) =~= entries(sorted@).take(k as int),
            decreases sorted@.len() - k,
        {
            let p = string_from_chars(&sorted[k].path);
            let ghost before = sized_entries(out@);
            out.push(SizedPath { path: p, size: sorted[k].size });
            assert(sized_entries(out@) =~= before.push(entries(sorted@)[k as int]));
            assert(entries(sorted@).take(k + 1) =~= entries(sorted@).take(k as int).push(
                entries(sorted@)[k as int],
            ));
            k = k + 1;
        }
        assert(entries(sorted@).take(sorted@.len() as int) =~= entries(sorted@));
        proof {
            let o = sized_entries(out@);
            o.to_multiset_ensures();
            held.to_multiset_ensures();
            assert(o =~= entries(sorted@));
            assert(o.to_multiset() == held.to_multiset());
            assert forall|j: int| 0 <= j < out@.len() implies self.offered().contains(
                #[trigger] sized_entries(out@)[j],
            ) by {
                assert(o.contains(o[j]));
                assert(o.to_multiset().count(o[j]) > 0);
                assert(held.to_multiset().count(o[j]) > 0);
                assert(held.contains(o[j]));
                let i = choose|i: int| 0 <= i < held.len() && held[i] == o[j];
            }
            assert forall|i: int, j: int|
                0 <= i < self.offered().len() && 0 <= j < out@.len() && (
                #[trigger] self.offered()[i]).0 > (#[trigger] out@[j]).size implies o.contains(
                self.offered()[i],
            ) by {
                assert(o[j].0 == out@[j].size);
                assert(o.contains(o[j]));
                assert(o.to_multiset().count(o[j]) > 0);
                assert(held.to_multiset().count(o[j]) > 0);
                assert(held.contains(o[j]));
                let h = choose|h: int| 0 <= h < held.len() && held[h] == o[j];
                assert(self.offered()[i].0 > self.held()[h].0);
                assert(held.contains(self.offered()[i]));
                assert(held.to_multiset().count(self.offered()[i]) > 0);
                assert(o.to_multiset().count(self.offered()[i]) > 0);
            }
            assert forall|v: Entry, j: int|
                0 <= j < o.len() && #[trigger] o.to_multiset().count(v) < self.offered().to_multiset().count(v)
                    implies v.0 <= (#[trigger] o[j]).0 by {
                assert(o.contains(o[j]));
                assert(held.to_multiset().count(o[j]) > 0);
                assert(held.contains(o[j]));
                let h = choose|h: int| 0 <= h < held.len() && held[h] == o[j];
                assert(held.to_multiset().count(v) < self.offered().to_multiset().count(v));
                assert(v.0 <= held[h].0);
            }
        }
        out
    }
}

impl View for SizedPath {
    type V = Entry;

    open spec fn view(&self) -> Entry {
        (self.size, self.path@)
    }
}

pub open spec fn sized_entries(v: Seq<SizedPath>) -> Seq<Entry> {
    v.map_values(|x: SizedPath| x@)
}

} // verus!
