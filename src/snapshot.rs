use vstd::multiset::Multiset;
use crate::object::{bytes_eq_at, copy_range, object_id, Kind, Object};
use crate::order::{lemma_sorted_unique_names, names_unique, sort_entries, sorted_by_name};
use crate::tree::{encode_tree, tree_payload, views, EntryView, Mode, TreeEntry};
use vstd::prelude::*;
use vstd::seq_lib::lemma_multiset_commutative;

verus! {

broadcast use vstd::seq_lib::group_to_multiset_ensures, vstd::multiset::group_multiset_axioms;

/// One entry of a directory listing, after its child was stored: a file's
/// blob identifier, or a subdirectory's tree identifier, or `None` for a
/// subdirectory that held nothing to store.
#[derive(Debug, Clone)]
pub struct DirEntry {
    pub name: Vec<u8>,
    pub mode: Mode,
    pub hash: Option<Vec<u8>>,
}

pub struct DirEntryView {
    pub name: Seq<u8>,
    pub mode: Mode,
    pub hash: Option<Seq<u8>>,
}

impl View for DirEntry {
    type V = DirEntryView;

    open spec fn view(&self) -> DirEntryView {
        DirEntryView {
            name: self.name@,
            mode: self.mode,
            hash: match self.hash {
                Some(h) => Some(h@),
                None => None,
            },
        }
    }
}

pub open spec fn listing_view(l: Seq<DirEntry>) -> Seq<DirEntryView> {
    l.map_values(|d: DirEntry| d@)
}

pub open spec fn names_view(ignore: Seq<Vec<u8>>) -> Seq<Seq<u8>> {
    ignore.map_values(|v: Vec<u8>| v@)
}

/// A listed entry goes into the tree: it has an identifier and its name is
/// not ignored.
pub open spec fn keeps(d: DirEntryView, ignore: Seq<Seq<u8>>) -> bool {
    d.hash is Some && !ignore.contains(d.name)
}

/// The tree entry for a listed entry that has an identifier.
pub open spec fn entry_of(d: DirEntryView) -> EntryView {
    EntryView { mode: d.mode, name: d.name, hash: d.hash->Some_0 }
}

/// The tree entries for the kept entries of a listing, in listing order.
pub open spec fn kept(l: Seq<DirEntryView>, ignore: Seq<Seq<u8>>) -> Seq<EntryView>
    decreases l.len(),
{
    if l.len() == 0 {
        Seq::empty()
    } else if keeps(l.last(), ignore) {
        kept(l.drop_last(), ignore).push(entry_of(l.last()))
    } else {
        kept(l.drop_last(), ignore)
    }
}

/// `p` is the payload of the kept entries in ascending name order.
pub open spec fn canonical_payload(entries: Seq<EntryView>, p: Seq<u8>) -> bool {
    exists|es: Seq<EntryView>|
        sorted_by_name(es) && es.to_multiset() == entries.to_multiset() && #[trigger] tree_payload(es)
            == p
}

/// Whether `name` is one of `ignore`.
pub fn is_ignored(name: &Vec<u8>, ignore: &Vec<Vec<u8>>) -> (r: bool)
    ensures
        r == names_view(ignore@).contains(name@),
{
    let mut j: usize = 0;
    while j < ignore.len()
        invariant
            j <= ignore@.len(),
            forall|i: int| 0 <= i < j ==> ignore@[i]@ != name@,
        decreases ignore@.len() - j,
    {
        if bytes_eq_at(ignore[j].as_slice(), 0, ignore[j].len(), name.as_slice()) {
            assert(ignore@[j as int]@.subrange(0, ignore@[j as int]@.len() as int) =~= ignore@[j as int]@);
            assert(names_view(ignore@)[j as int] == name@);
            return true;
        }
        assert(ignore@[j as int]@.subrange(0, ignore@[j as int]@.len() as int) =~= ignore@[j as int]@);
        j = j + 1;
    }
    assert(!names_view(ignore@).contains(name@)) by {
        if names_view(ignore@).contains(name@) {
            let i = choose|i: int| 0 <= i < names_view(ignore@).len() && names_view(ignore@)[i] == name@;
            assert(ignore@[i]@ == name@);
        }
    }
    false
}

/// The tree entries of a listing: those with an identifier and a name that
/// is not ignored, in listing order.
pub fn select_entries(listing: &Vec<DirEntry>, ignore: &Vec<Vec<u8>>) -> (r: Vec<TreeEntry>)
    ensures
        views(r@) == kept(listing_view(listing@), names_view(ignore@)),
{
    let ghost ig = names_view(ignore@);
    let mut out: Vec<TreeEntry> = Vec::new();
    let mut i: usize = 0;
    assert(views(out@) =~= kept(listing_view(listing@).take(0), ig));
    while i < listing.len()
        invariant
            i <= listing@.len(),
            ig == names_view(ignore@),
            views(out@) == kept(listing_view(listing@).take(i as int), ig),
        decreases listing@.len() - i,
    {
        let d = &listing[i];
        let ghost lv = listing_view(listing@);
        assert(lv.take(i + 1).drop_last() =~= lv.take(i as int));
        assert(lv.take(i + 1).last() == d@);
        match &d.hash {
            Some(h) => {
                if !is_ignored(&d.name, ignore) {
                    let ghost before = out@;
                    let name = copy_range(d.name.as_slice(), 0, d.name.len());
                    let hash = copy_range(h.as_slice(), 0, h.len());
                    assert(name@ =~= d.name@);
                    assert(hash@ =~= h@);
                    out.push(TreeEntry { mode: d.mode, name, hash });
                    assert(views(out@) =~= views(before).push(entry_of(d@)));
                }
            },
            None => {},
        }
        i = i + 1;
    }
    assert(listing_view(listing@).take(listing@.len() as int) =~= listing_view(listing@));
    out
}

/// The tree object for one directory level, built from its listing: the kept
/// entries sorted by name and encoded; `None` where no entry is kept, so that
/// an empty directory is left out of its parent.
pub fn build_tree(listing: &Vec<DirEntry>, ignore: &Vec<Vec<u8>>) -> (r: Option<Object>)
    ensures
        r is None <==> kept(listing_view(listing@), names_view(ignore@)).len() == 0,
        r matches Some(o) ==> o@.kind == Kind::Tree && canonical_payload(
            kept(listing_view(listing@), names_view(ignore@)),
            o@.payload,
        ),
{
    let selected = select_entries(listing, ignore);
    if selected.len() == 0 {
        return None;
    }
    let ghost before = views(selected@);
    let sorted = sort_entries(selected);
    let payload = encode_tree(&sorted);
    let o = Object::from_bytes(Kind::Tree, payload.as_slice());
    assert(canonical_payload(before, o@.payload)) by {
        assert(tree_payload(views(sorted@)) == o@.payload);
    }
    Some(o)
}

/// Entries presented in any order give the same tree: when two lists hold the
/// same entries, no two of them sharing a name, their canonical payloads, and
/// so the identifiers of their tree objects, are equal.
pub proof fn lemma_canonical_order(a: Seq<EntryView>, b: Seq<EntryView>, pa: Seq<u8>, pb: Seq<u8>)
    requires
        a.to_multiset() == b.to_multiset(),
        names_unique(a.to_multiset()),
        canonical_payload(a, pa),
        canonical_payload(b, pb),
    ensures
        pa == pb,
        object_id(Kind::Tree, pa) == object_id(Kind::Tree, pb),
{
    let x = choose|es: Seq<EntryView>|
        sorted_by_name(es) && es.to_multiset() == a.to_multiset() && #[trigger] tree_payload(es) == pa;
    let y = choose|es: Seq<EntryView>|
        sorted_by_name(es) && es.to_multiset() == b.to_multiset() && #[trigger] tree_payload(es) == pb;
    lemma_sorted_unique_names(x, y);
}

/// A directory whose every entry is a subdirectory that held nothing keeps no
/// entry, so its tree is `None`; and an entry without an identifier never
/// reaches a tree: every kept entry comes from a listed entry that has one.
pub proof fn lemma_empty_subtree_elision(l: Seq<DirEntryView>, ignore: Seq<Seq<u8>>)
    ensures
        (forall|i: int| 0 <= i < l.len() ==> (#[trigger] l[i]).hash is None) ==> kept(l, ignore).len()
            == 0,
        forall|j: int|
            0 <= j < kept(l, ignore).len() ==> exists|i: int|
                0 <= i < l.len() && (#[trigger] l[i]).hash is Some && entry_of(l[i]) == #[trigger] kept(
                    l,
                    ignore,
                )[j],
    decreases l.len(),
{
    if l.len() > 0 {
        let p = l.drop_last();
        lemma_empty_subtree_elision(p, ignore);
        assert forall|i: int| 0 <= i < p.len() implies #[trigger] p[i] == l[i] by {}
        if forall|i: int| 0 <= i < l.len() ==> (#[trigger] l[i]).hash is None {
            assert(l.last() == l[l.len() - 1]);
            assert forall|i: int| 0 <= i < p.len() implies (#[trigger] p[i]).hash is None by {
                assert(l[i].hash is None);
            }
        }
        assert forall|j: int| 0 <= j < kept(l, ignore).len() implies exists|i: int|
            0 <= i < l.len() && (#[trigger] l[i]).hash is Some && entry_of(l[i]) == #[trigger] kept(
                l,
                ignore,
            )[j] by {
            if j < kept(p, ignore).len() {
                assert(kept(l, ignore)[j] == kept(p, ignore)[j]);
                let i = choose|i: int|
                    0 <= i < p.len() && (#[trigger] p[i]).hash is Some && entry_of(p[i]) == #[trigger] kept(
                        p,
                        ignore,
                    )[j];
                assert(l[i] == p[i]);
            } else {
                assert(l[l.len() - 1] == l.last());
            }
        }
    }
}

/// No two entries of a listing share a name, as in one directory.
pub open spec fn listing_names_unique(l: Seq<DirEntryView>) -> bool {
    forall|i: int, j: int| 0 <= i < j < l.len() ==> #[trigger] l[i].name != #[trigger] l[j].name
}

/// In a directory without repeated names, a subdirectory that held nothing
/// leaves no entry of its name in the directory's tree.
pub proof fn lemma_elided_name_absent(l: Seq<DirEntryView>, ignore: Seq<Seq<u8>>, c: int)
    requires
        listing_names_unique(l),
        0 <= c < l.len(),
        l[c].hash is None,
    ensures
        forall|j: int| 0 <= j < kept(l, ignore).len() ==> #[trigger] kept(l, ignore)[j].name != l[c].name,
{
    lemma_empty_subtree_elision(l, ignore);
    assert forall|j: int| 0 <= j < kept(l, ignore).len() implies #[trigger] kept(l, ignore)[j].name
        != l[c].name by {
        let i = choose|i: int|
            0 <= i < l.len() && (#[trigger] l[i]).hash is Some && entry_of(l[i]) == kept(l, ignore)[j];
        if i < c {
            assert(l[i].name != l[c].name);
        }
        if c < i {
            assert(l[c].name != l[i].name);
        }
    }
}

/// Entries in strictly ascending order of their names.
pub open spec fn strictly_sorted_by_name(es: Seq<EntryView>) -> bool {
    &&& sorted_by_name(es)
    &&& forall|i: int, j: int| 0 <= i < j < es.len() ==> #[trigger] es[i].name != #[trigger] es[j].name
}

/// Some listed entry is kept and gives tree entry `e`.
pub open spec fn keeps_entry(l: Seq<DirEntryView>, ignore: Seq<Seq<u8>>, e: EntryView) -> bool {
    exists|i: int| 0 <= i < l.len() && #[trigger] keeps(l[i], ignore) && entry_of(l[i]) == e
}

proof fn lemma_kept_count(l: Seq<DirEntryView>, ignore: Seq<Seq<u8>>, e: EntryView)
    requires
        listing_names_unique(l),
    ensures
        kept(l, ignore).to_multiset().count(e) == (if keeps_entry(l, ignore, e) {
            1nat
        } else {
            0nat
        }),
    decreases l.len(),
{
    if l.len() == 0 {
        assert(kept(l, ignore) =~= Seq::<EntryView>::empty());
        assert(kept(l, ignore).to_multiset() =~= Multiset::<EntryView>::empty());
    } else {
        let p = l.drop_last();
        let n = l.len() - 1;
        assert forall|i: int, j: int| 0 <= i < j < p.len() implies #[trigger] p[i].name
            != #[trigger] p[j].name by {
            assert(l[i].name != l[j].name);
        }
        lemma_kept_count(p, ignore, e);
        assert(l.last() == l[n]);
        if keeps_entry(p, ignore, e) {
            let i = choose|i: int| 0 <= i < p.len() && #[trigger] keeps(p[i], ignore) && entry_of(p[i]) == e;
            assert(l[i] == p[i]);
            assert(keeps(l[i], ignore));
        }
        if keeps_entry(l, ignore, e) && !keeps_entry(p, ignore, e) {
            let i = choose|i: int| 0 <= i < l.len() && #[trigger] keeps(l[i], ignore) && entry_of(l[i]) == e;
            if i < n {
                assert(p[i] == l[i]);
                assert(keeps(p[i], ignore));
            }
            assert(i == n);
        }
        if keeps(l.last(), ignore) {
            assert(kept(l, ignore) == kept(p, ignore).push(entry_of(l.last())));
            if entry_of(l.last()) == e {
                assert(keeps(l[n], ignore));
                assert(keeps_entry(l, ignore, e));
                if keeps_entry(p, ignore, e) {
                    let i = choose|i: int| 0 <= i < p.len() && #[trigger] keeps(p[i], ignore) && entry_of(p[i]) == e;
                    assert(l[i] == p[i]);
                    assert(l[i].name != l[n].name);
                }
            }
        }
    }
}

proof fn lemma_kept_names_unique(l: Seq<DirEntryView>, ignore: Seq<Seq<u8>>)
    requires
        listing_names_unique(l),
    ensures
        names_unique(kept(l, ignore).to_multiset()),
{
    let m = kept(l, ignore).to_multiset();
    assert forall|x: EntryView, y: EntryView|
        #[trigger] m.count(x) > 0 && #[trigger] m.count(y) > 0 && x.name == y.name implies x == y
            && m.count(x) == 1 by {
        lemma_kept_count(l, ignore, x);
        lemma_kept_count(l, ignore, y);
        let i = choose|i: int| 0 <= i < l.len() && #[trigger] keeps(l[i], ignore) && entry_of(l[i]) == x;
        let j = choose|j: int| 0 <= j < l.len() && #[trigger] keeps(l[j], ignore) && entry_of(l[j]) == y;
        if i < j {
            assert(l[i].name != l[j].name);
        }
        if j < i {
            assert(l[j].name != l[i].name);
        }
    }
}

/// A directory listed in any order gives the same tree: two listings that
/// hold the same entries, each listing without repeated names, give equal
/// canonical payloads and so equal tree identifiers.
pub proof fn lemma_listing_order(
    l1: Seq<DirEntryView>,
    l2: Seq<DirEntryView>,
    ignore: Seq<Seq<u8>>,
    pa: Seq<u8>,
    pb: Seq<u8>,
)
    requires
        l1.to_multiset() == l2.to_multiset(),
        listing_names_unique(l1),
        listing_names_unique(l2),
        canonical_payload(kept(l1, ignore), pa),
        canonical_payload(kept(l2, ignore), pb),
    ensures
        pa == pb,
        object_id(Kind::Tree, pa) == object_id(Kind::Tree, pb),
{
    let k1 = kept(l1, ignore);
    let k2 = kept(l2, ignore);
    assert forall|e: EntryView| k1.to_multiset().count(e) == k2.to_multiset().count(e) by {
        lemma_kept_count(l1, ignore, e);
        lemma_kept_count(l2, ignore, e);
        if keeps_entry(l1, ignore, e) {
            let i = choose|i: int| 0 <= i < l1.len() && #[trigger] keeps(l1[i], ignore) && entry_of(l1[i]) == e;
            assert(l1.contains(l1[i]));
            assert(l2.to_multiset().count(l1[i]) > 0);
            assert(l2.contains(l1[i]));
            let j = choose|j: int| 0 <= j < l2.len() && l2[j] == l1[i];
            assert(keeps(l2[j], ignore));
        }
        if keeps_entry(l2, ignore, e) {
            let j = choose|j: int| 0 <= j < l2.len() && #[trigger] keeps(l2[j], ignore) && entry_of(l2[j]) == e;
            assert(l2.contains(l2[j]));
            assert(l1.to_multiset().count(l2[j]) > 0);
            assert(l1.contains(l2[j]));
            let i = choose|i: int| 0 <= i < l1.len() && l1[i] == l2[j];
            assert(keeps(l1[i], ignore));
        }
    }
    assert(k1.to_multiset() =~= k2.to_multiset());
    lemma_kept_names_unique(l1, ignore);
    lemma_canonical_order(k1, k2, pa, pb);
}

/// The tree of a listing without repeated names holds one entry per kept
/// listed entry, in strictly ascending order of names.
pub proof fn lemma_strictly_sorted(l: Seq<DirEntryView>, ignore: Seq<Seq<u8>>, p: Seq<u8>)
    requires
        listing_names_unique(l),
        canonical_payload(kept(l, ignore), p),
    ensures
        exists|es: Seq<EntryView>|
            strictly_sorted_by_name(es) && es.to_multiset() == kept(l, ignore).to_multiset()
                && #[trigger] tree_payload(es) == p,
{
    let k = kept(l, ignore);
    let es = choose|es: Seq<EntryView>|
        sorted_by_name(es) && es.to_multiset() == k.to_multiset() && #[trigger] tree_payload(es) == p;
    lemma_kept_names_unique(l, ignore);
    let m = es.to_multiset();
    assert forall|i: int, j: int| 0 <= i < j < es.len() implies #[trigger] es[i].name
        != #[trigger] es[j].name by {
        if es[i].name == es[j].name {
            assert(es.contains(es[i]));
            assert(es.contains(es[j]));
            assert(m == k.to_multiset());
            assert(m.count(es[i]) > 0 && m.count(es[j]) > 0);
            assert(es[i] == es[j] && m.count(es[i]) == 1);
            let a = es.take(j);
            let b = es.skip(j);
            assert(es =~= a + b);
            lemma_multiset_commutative(a, b);
            assert(a[i] == es[i]);
            assert(a.contains(es[i]));
            assert(b[0] == es[j]);
            assert(b.contains(es[i]));
            assert(a.to_multiset().count(es[i]) > 0);
            assert(b.to_multiset().count(es[i]) > 0);
        }
    }
    assert(strictly_sorted_by_name(es));
}

} // verus!
