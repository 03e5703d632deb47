use crate::tree::{views, EntryView, TreeEntry};
use vstd::multiset::Multiset;
use vstd::prelude::*;

verus! {

broadcast use vstd::seq_lib::group_to_multiset_ensures, vstd::multiset::group_multiset_axioms;

/// Byte-wise lexicographic order on names: `a` is no greater than `b`.
pub open spec fn name_le(a: Seq<u8>, b: Seq<u8>) -> bool
    decreases a.len(),
{
    if a.len() == 0 {
        true
    } else if b.len() == 0 {
        false
    } else if a[0] != b[0] {
        a[0] < b[0]
    } else {
        name_le(a.drop_first(), b.drop_first())
    }
}

pub proof fn lemma_name_le_total(a: Seq<u8>, b: Seq<u8>)
    ensures
        name_le(a, b) || name_le(b, a),
    decreases a.len(),
{
    if a.len() > 0 && b.len() > 0 && a[0] == b[0] {
        lemma_name_le_total(a.drop_first(), b.drop_first());
    }
}

pub proof fn lemma_name_le_antisymmetric(a: Seq<u8>, b: Seq<u8>)
    requires
        name_le(a, b),
        name_le(b, a),
    ensures
        a == b,
    decreases a.len(),
{
    if a.len() > 0 {
        lemma_name_le_antisymmetric(a.drop_first(), b.drop_first());
        assert(a =~= seq![a[0]] + a.drop_first());
        assert(b =~= seq![b[0]] + b.drop_first());
    } else {
        assert(b.len() == 0);
        assert(a =~= b);
    }
}

pub proof fn lemma_name_le_transitive(a: Seq<u8>, b: Seq<u8>, c: Seq<u8>)
    requires
        name_le(a, b),
        name_le(b, c),
    ensures
        name_le(a, c),
    decreases a.len(),
{
    if a.len() > 0 && b.len() > 0 && c.len() > 0 && a[0] == b[0] && b[0] == c[0] {
        lemma_name_le_transitive(a.drop_first(), b.drop_first(), c.drop_first());
    }
}

/// Entries in ascending order of their names.
pub open spec fn sorted_by_name(es: Seq<EntryView>) -> bool {
    forall|i: int, j: int| 0 <= i < j < es.len() ==> name_le(#[trigger] es[i].name, #[trigger] es[j].name)
}

/// No two entries of `m` share a name, and none occurs twice.
pub open spec fn names_unique(m: Multiset<EntryView>) -> bool {
    forall|x: EntryView, y: EntryView|
        #[trigger] m.count(x) > 0 && #[trigger] m.count(y) > 0 && x.name == y.name ==> x == y && m.count(x)
            == 1
}

/// Two name-sorted sequences of the same entries, no two of which share a
/// name, are equal.
pub proof fn lemma_sorted_unique_names(x: Seq<EntryView>, y: Seq<EntryView>)
    requires
        sorted_by_name(x),
        sorted_by_name(y),
        x.to_multiset() == y.to_multiset(),
        names_unique(x.to_multiset()),
    ensures
        x == y,
    decreases x.len(),
{
    if x.len() == 0 || y.len() == 0 {
        assert(x.to_multiset().len() == x.len());
        assert(y.to_multiset().len() == y.len());
        assert(x.len() == y.len());
        assert(x =~= y);
    } else {
        let m = x.to_multiset();
        assert(x.contains(x[0]));
        assert(y.contains(y[0]));
        assert(x.to_multiset().count(x[0]) > 0);
        assert(y.to_multiset().count(y[0]) > 0);
        assert(y.contains(x[0]));
        assert(x.contains(y[0]));
        let j = choose|j: int| 0 <= j < y.len() && y[j] == x[0];
        let i = choose|i: int| 0 <= i < x.len() && x[i] == y[0];
        if j > 0 {
            assert(name_le(y[0].name, y[j].name));
        } else {
            lemma_name_le_total(y[0].name, y[0].name);
        }
        if i > 0 {
            assert(name_le(x[0].name, x[i].name));
        } else {
            lemma_name_le_total(x[0].name, x[0].name);
        }
        lemma_name_le_antisymmetric(x[0].name, y[0].name);
        assert(m.count(x[0]) > 0 && m.count(y[0]) > 0);
        assert(x[0] == y[0]);
        assert(x.remove(0) =~= x.drop_first());
        assert(y.remove(0) =~= y.drop_first());
        let m2 = x.drop_first().to_multiset();
        assert(m2 == m.remove(x[0]));
        assert forall|a: EntryView, b: EntryView|
            #[trigger] m2.count(a) > 0 && #[trigger] m2.count(b) > 0 && a.name == b.name implies a == b
                && m2.count(a) == 1 by {
            assert(m.count(a) > 0 && m.count(b) > 0);
        }
        assert forall|p: int, q: int| 0 <= p < q < x.drop_first().len() implies name_le(
            #[trigger] x.drop_first()[p].name,
            #[trigger] x.drop_first()[q].name,
        ) by {
            assert(name_le(x[p + 1].name, x[q + 1].name));
        }
        assert forall|p: int, q: int| 0 <= p < q < y.drop_first().len() implies name_le(
            #[trigger] y.drop_first()[p].name,
            #[trigger] y.drop_first()[q].name,
        ) by {
            assert(name_le(y[p + 1].name, y[q + 1].name));
        }
        lemma_sorted_unique_names(x.drop_first(), y.drop_first());
        assert(x =~= y) by {
            assert forall|k: int| 0 <= k < x.len() implies x[k] == y[k] by {
                if k > 0 {
                    assert(x[k] == x.drop_first()[k - 1]);
                    assert(y[k] == y.drop_first()[k - 1]);
                }
            }
        }
    }
}

/// Whether name `a` is no greater than name `b`, byte by byte.
pub fn name_le_exec(a: &[u8], b: &[u8]) -> (r: bool)
    ensures
        r == name_le(a@, b@),
{
    let mut i: usize = 0;
    assert(a@.skip(0) =~= a@);
    assert(b@.skip(0) =~= b@);
    loop
        invariant
            i <= a@.len(),
            i <= b@.len(),
            name_le(a@, b@) == name_le(a@.skip(i as int), b@.skip(i as int)),
        decreases a@.len() - i,
    {
        if i == a.len() {
            return true;
        }
        if i == b.len() {
            return false;
        }
        if a[i] != b[i] {
            return a[i] < b[i];
        }
        assert(a@.skip(i as int).drop_first() =~= a@.skip(i + 1));
        assert(b@.skip(i as int).drop_first() =~= b@.skip(i + 1));
        i = i + 1;
    }
}

/// Sorts entries by name, ascending; the result holds the same entries.
pub fn sort_entries(entries: Vec<TreeEntry>) -> (r: Vec<TreeEntry>)
    ensures
        sorted_by_name(views(r@)),
        views(r@).to_multiset() == views(entries@).to_multiset(),
{
    let ghost all = views(entries@).to_multiset();
    let mut rest = entries;
    let mut out: Vec<TreeEntry> = Vec::new();
    assert(views(out@) =~= Seq::<EntryView>::empty());
    assert(views(out@).to_multiset().add(views(rest@).to_multiset()) =~= all);
    while rest.len() > 0
        invariant
            sorted_by_name(views(out@)),
            views(out@).to_multiset().add(views(rest@).to_multiset()) == all,
            forall|i: int, j: int|
                0 <= i < out@.len() && 0 <= j < rest@.len() ==> name_le(
                    #[trigger] out@[i].name@,
                    #[trigger] rest@[j].name@,
                ),
        decreases rest@.len(),
    {
        let mut m: usize = 0;
        let mut k: usize = 1;
        proof {
            lemma_name_le_total(rest@[0].name@, rest@[0].name@);
        }
        while k < rest.len()
            invariant
                m < k <= rest@.len(),
                forall|j: int| 0 <= j < k ==> name_le(rest@[m as int].name@, #[trigger] rest@[j].name@),
            decreases rest@.len() - k,
        {
            if name_le_exec(rest[k].name.as_slice(), rest[m].name.as_slice()) {
                proof {
                    assert forall|j: int| 0 <= j < k + 1 implies name_le(
                        rest@[k as int].name@,
                        #[trigger] rest@[j].name@,
                    ) by {
                        if j < k {
                            lemma_name_le_transitive(
                                rest@[k as int].name@,
                                rest@[m as int].name@,
                                rest@[j].name@,
                            );
                        } else {
                            lemma_name_le_total(rest@[j].name@, rest@[j].name@);
                        }
                    }
                }
                m = k;
            } else {
                proof {
                    lemma_name_le_total(rest@[k as int].name@, rest@[m as int].name@);
                }
            }
            k = k + 1;
        }
        let ghost old_rest = rest@;
        let ghost old_out = out@;
        let e = rest.remove(m);
        proof {
            assert(views(rest@) =~= views(old_rest).remove(m as int));
            assert(views(old_rest)[m as int] == e@);
        }
        out.push(e);
        proof {
            assert(views(out@) =~= views(old_out).push(e@));
            assert(views(out@).to_multiset().add(views(rest@).to_multiset()) =~= all);
            assert forall|i: int, j: int| 0 <= i < j < views(out@).len() implies name_le(
                #[trigger] views(out@)[i].name,
                #[trigger] views(out@)[j].name,
            ) by {
                if j < old_out.len() {
                    assert(views(old_out)[i] == views(out@)[i]);
                    assert(views(old_out)[j] == views(out@)[j]);
                } else {
                    assert(name_le(old_out[i].name@, old_rest[m as int].name@));
                }
            }
            assert forall|i: int, j: int|
                0 <= i < out@.len() && 0 <= j < rest@.len() implies name_le(
                #[trigger] out@[i].name@,
                #[trigger] rest@[j].name@,
            ) by {
                let jj = if j < m { j } else { j + 1 };
                assert(rest@[j] == old_rest[jj]);
                if i < old_out.len() {
                    assert(name_le(old_out[i].name@, old_rest[jj].name@));
                } else {
                    assert(name_le(old_rest[m as int].name@, old_rest[jj].name@));
                }
            }
        }
    }
    assert(views(rest@) =~= Seq::<EntryView>::empty());
    out
}

} // verus!
