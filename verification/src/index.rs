//! The index reconciler's core: a deduplicating, deterministically ordered
//! set of entries, its merge under set semantics, and the laws the merge
//! obeys (idempotence, order-independence, sortedness, uniqueness).

use vstd::prelude::*;
use crate::entry::EntryModel;
use crate::entry::IndexEntry;
use crate::entry::entry_eq_exec;
use crate::entry::entry_lt;
use crate::entry::entry_lt_exec;
use crate::entry::lemma_entry_lt_asymmetric;
use crate::entry::lemma_entry_lt_connected;
use crate::entry::lemma_entry_lt_transitive;
use crate::entry::models;
use crate::order::lex_lt;

verus! {

broadcast use vstd::set::group_set_axioms, vstd::seq_lib::lemma_seq_concat_contains_all_elements;

/// Every pair of positions is strictly ordered: the sequence is sorted under
/// the table order and holds no duplicate triple.
pub open spec fn entries_ordered(s: Seq<EntryModel>) -> bool {
    forall|i: int, j: int| 0 <= i < j < s.len() ==> entry_lt(s[i], s[j])
}

/// Insertion of one entry into an ordered sequence under set semantics: a
/// duplicate triple collapses silently, anything else lands at its slot.
pub open spec fn spec_insert(s: Seq<EntryModel>, m: EntryModel) -> Seq<EntryModel>
    decreases s.len(),
{
    if s.len() == 0 {
        seq![m]
    } else if entry_lt(m, s[0]) {
        seq![m] + s
    } else if m == s[0] {
        s
    } else {
        seq![s[0]] + spec_insert(s.drop_first(), m)
    }
}

/// Merge of newly discovered entries into an ordered sequence, one at a
/// time in discovery order.
pub open spec fn spec_merge(s: Seq<EntryModel>, ns: Seq<EntryModel>) -> Seq<EntryModel>
    decreases ns.len(),
{
    if ns.len() == 0 {
        s
    } else {
        spec_insert(spec_merge(s, ns.drop_last()), ns.last())
    }
}

pub proof fn lemma_ordered_drop_first(s: Seq<EntryModel>)
    requires
        entries_ordered(s),
        s.len() > 0,
    ensures
        entries_ordered(s.drop_first()),
{
    assert forall|i: int, j: int|
        0 <= i < j < s.drop_first().len() implies entry_lt(
        s.drop_first()[i],
        s.drop_first()[j],
    ) by {
        assert(s.drop_first()[i] == s[i + 1]);
        assert(s.drop_first()[j] == s[j + 1]);
    }
}

/// Inserting preserves order and acts as set insertion on the contents.
pub proof fn lemma_insert_props(s: Seq<EntryModel>, m: EntryModel)
    requires
        entries_ordered(s),
    ensures
        entries_ordered(spec_insert(s, m)),
        spec_insert(s, m).to_set() == s.to_set().insert(m),
    decreases s.len(),
{
    let r = spec_insert(s, m);
    if s.len() == 0 {
        assert(r.contains(m));
        assert(r.to_set() =~= s.to_set().insert(m));
    } else if entry_lt(m, s[0]) {
        assert forall|i: int, j: int| 0 <= i < j < r.len() implies entry_lt(r[i], r[j]) by {
            if i == 0 {
                assert(r[0] == m);
                assert(r[j] == s[j - 1]);
                if j > 1 {
                    assert(entry_lt(s[0], s[j - 1]));
                    lemma_entry_lt_transitive(m, s[0], s[j - 1]);
                }
            } else {
                assert(r[i] == s[i - 1]);
                assert(r[j] == s[j - 1]);
            }
        }
        assert forall|x: EntryModel| r.to_set().contains(x) implies s.to_set().insert(m).contains(
            x,
        ) by {
            assert(r.contains(x));
            assert(seq![m].contains(x) || s.contains(x));
            if seq![m].contains(x) {
                assert(x == m);
            }
        }
        assert forall|x: EntryModel| s.to_set().insert(m).contains(x) implies r.to_set().contains(
            x,
        ) by {
            if x == m {
                assert(seq![m].contains(x));
            } else {
                assert(s.contains(x));
            }
            assert(r.contains(x));
        }
        assert(r.to_set() =~= s.to_set().insert(m));
    } else if m == s[0] {
        assert(s.contains(m));
        assert(r.to_set() =~= s.to_set().insert(m));
    } else {
        lemma_entry_lt_connected(m, s[0]);
        assert(entry_lt(s[0], m));
        let t = s.drop_first();
        lemma_ordered_drop_first(s);
        lemma_insert_props(t, m);
        let rt = spec_insert(t, m);
        assert(r == seq![s[0]] + rt);
        assert forall|i: int, j: int| 0 <= i < j < r.len() implies entry_lt(r[i], r[j]) by {
            if i == 0 {
                assert(r[j] == rt[j - 1]);
                assert(rt.contains(rt[j - 1]));
                assert(rt.to_set().contains(rt[j - 1]));
                assert(t.to_set().insert(m).contains(rt[j - 1]));
                if rt[j - 1] == m {
                } else {
                    assert(t.contains(rt[j - 1]));
                    let k = choose|k: int| 0 <= k < t.len() && t[k] == rt[j - 1];
                    assert(t[k] == s[k + 1]);
                    assert(entry_lt(s[0], s[k + 1]));
                }
            } else {
                assert(r[i] == rt[i - 1]);
                assert(r[j] == rt[j - 1]);
            }
        }
        assert forall|x: EntryModel| r.to_set().contains(x) implies s.to_set().insert(m).contains(
            x,
        ) by {
            assert(r.contains(x));
            if seq![s[0]].contains(x) {
                assert(s.contains(x));
            } else {
                assert(rt.contains(x));
                assert(rt.to_set().contains(x));
                assert(t.to_set().insert(m).contains(x));
                if x != m {
                    assert(t.contains(x));
                    let k = choose|k: int| 0 <= k < t.len() && t[k] == x;
                    assert(s[k + 1] == x);
                    assert(s.contains(x));
                }
            }
        }
        assert forall|x: EntryModel| s.to_set().insert(m).contains(x) implies r.to_set().contains(
            x,
        ) by {
            if x == m {
                assert(t.to_set().insert(m).contains(x));
                assert(rt.to_set().contains(x));
                assert(rt.contains(x));
            } else {
                assert(s.contains(x));
                let k = choose|k: int| 0 <= k < s.len() && s[k] == x;
                if k == 0 {
                    assert(seq![s[0]].contains(x));
                } else {
                    assert(t[k - 1] == x);
                    assert(t.contains(x));
                    assert(rt.to_set().contains(x));
                    assert(rt.contains(x));
                }
            }
            assert(r.contains(x));
        }
        assert(r.to_set() =~= s.to_set().insert(m));
    }
}

/// Merging preserves order and acts as set union on the contents.
pub proof fn lemma_merge_props(s: Seq<EntryModel>, ns: Seq<EntryModel>)
    requires
        entries_ordered(s),
    ensures
        entries_ordered(spec_merge(s, ns)),
        spec_merge(s, ns).to_set() == s.to_set() + ns.to_set(),
    decreases ns.len(),
{
    if ns.len() == 0 {
        assert(spec_merge(s, ns).to_set() =~= s.to_set() + ns.to_set());
    } else {
        let h = ns.drop_last();
        lemma_merge_props(s, h);
        lemma_insert_props(spec_merge(s, h), ns.last());
        assert(ns =~= h + seq![ns.last()]);
        assert forall|x: EntryModel|
            ns.to_set().contains(x) <==> h.to_set().insert(ns.last()).contains(x) by {
            if ns.to_set().contains(x) {
                assert(ns.contains(x));
                let k = choose|k: int| 0 <= k < ns.len() && ns[k] == x;
                if k < ns.len() - 1 {
                    assert(h[k] == x);
                    assert(h.contains(x));
                }
            }
            if h.to_set().insert(ns.last()).contains(x) {
                if x == ns.last() {
                    assert(ns.contains(x));
                } else {
                    assert(h.contains(x));
                    let k = choose|k: int| 0 <= k < h.len() && h[k] == x;
                    assert(ns[k] == x);
                    assert(ns.contains(x));
                }
            }
        }
        assert(spec_merge(s, ns).to_set() =~= s.to_set() + ns.to_set());
    }
}

/// An ordered sequence is determined by its contents: the sort is canonical.
pub proof fn lemma_ordered_same_set_equal(a: Seq<EntryModel>, b: Seq<EntryModel>)
    requires
        entries_ordered(a),
        entries_ordered(b),
        a.to_set() == b.to_set(),
    ensures
        a == b,
    decreases a.len(),
{
    if a.len() == 0 {
        if b.len() > 0 {
            assert(b.contains(b[0]));
            assert(a.to_set().contains(b[0]));
            assert(a.contains(b[0]));
        }
        assert(a =~= b);
    } else if b.len() == 0 {
        assert(a.contains(a[0]));
        assert(b.to_set().contains(a[0]));
        assert(b.contains(a[0]));
    } else {
        assert(a.contains(a[0]));
        assert(b.contains(b[0]));
        if a[0] != b[0] {
            assert(b.to_set().contains(a[0]));
            assert(b.contains(a[0]));
            let i = choose|i: int| 0 <= i < b.len() && b[i] == a[0];
            assert(a.to_set().contains(b[0]));
            assert(a.contains(b[0]));
            let j = choose|j: int| 0 <= j < a.len() && a[j] == b[0];
            assert(i > 0 && j > 0);
            assert(entry_lt(b[0], b[i]));
            assert(entry_lt(a[0], a[j]));
            lemma_entry_lt_asymmetric(b[0], a[0]);
        }
        let at = a.drop_first();
        let bt = b.drop_first();
        lemma_ordered_drop_first(a);
        lemma_ordered_drop_first(b);
        assert forall|x: EntryModel| at.to_set().contains(x) implies bt.to_set().contains(x) by {
            assert(at.contains(x));
            let k = choose|k: int| 0 <= k < at.len() && at[k] == x;
            assert(a[k + 1] == x);
            assert(a.contains(x));
            assert(entry_lt(a[0], x));
            assert(b.to_set().contains(x));
            assert(b.contains(x));
            let l = choose|l: int| 0 <= l < b.len() && b[l] == x;
            lemma_entry_lt_asymmetric(a[0], x);
            assert(l > 0);
            assert(bt[l - 1] == x);
            assert(bt.contains(x));
        }
        assert forall|x: EntryModel| bt.to_set().contains(x) implies at.to_set().contains(x) by {
            assert(bt.contains(x));
            let k = choose|k: int| 0 <= k < bt.len() && bt[k] == x;
            assert(b[k + 1] == x);
            assert(b.contains(x));
            assert(entry_lt(b[0], x));
            assert(a.to_set().contains(x));
            assert(a.contains(x));
            let l = choose|l: int| 0 <= l < a.len() && a[l] == x;
            lemma_entry_lt_asymmetric(b[0], x);
            assert(l > 0);
            assert(at[l - 1] == x);
            assert(at.contains(x));
        }
        assert(at.to_set() =~= bt.to_set());
        lemma_ordered_same_set_equal(at, bt);
        assert forall|i: int| 0 <= i < a.len() implies a[i] == b[i] by {
            if i > 0 {
                assert(a[i] == at[i - 1]);
                assert(b[i] == bt[i - 1]);
            }
        }
        assert(a =~= b);
    }
}

/// Two positions of an ordered sequence never hold the same triple: the
/// output of reconciliation is duplicate-free.
pub proof fn lemma_ordered_distinct(s: Seq<EntryModel>, i: int, j: int)
    requires
        entries_ordered(s),
        0 <= i < j < s.len(),
    ensures
        s[i] != s[j],
{
    lemma_entry_lt_asymmetric(s[i], s[j]);
}

/// In an ordered sequence, adjacent rows are sorted by file and, on equal
/// files, by name.
pub proof fn lemma_ordered_adjacent_rows(s: Seq<EntryModel>, i: int)
    requires
        entries_ordered(s),
        0 <= i,
        i + 1 < s.len(),
    ensures
        lex_lt(s[i].file, s[i + 1].file) || s[i].file == s[i + 1].file,
        s[i].file == s[i + 1].file ==> lex_lt(s[i].name, s[i + 1].name) || s[i].name == s[i
            + 1].name,
{
    assert(entry_lt(s[i], s[i + 1]));
    crate::order::lemma_lex_lt_irreflexive(s[i].file);
}

/// Running the same merge against its own result changes nothing: with no
/// source changes, reconciliation is idempotent.
pub proof fn lemma_merge_idempotent(prior: Seq<EntryModel>, new: Seq<EntryModel>)
    requires
        entries_ordered(prior),
    ensures
        spec_merge(spec_merge(prior, new), new) == spec_merge(prior, new),
{
    let r = spec_merge(prior, new);
    lemma_merge_props(prior, new);
    lemma_merge_props(r, new);
    assert(spec_merge(r, new).to_set() =~= r.to_set());
    lemma_ordered_same_set_equal(spec_merge(r, new), r);
}

/// Merging two batches of entries yields the same index in either order:
/// the union is commutative.
pub proof fn lemma_merge_commutes(prior: Seq<EntryModel>, e1: Seq<EntryModel>, e2: Seq<EntryModel>)
    requires
        entries_ordered(prior),
    ensures
        spec_merge(spec_merge(prior, e1), e2) == spec_merge(spec_merge(prior, e2), e1),
{
    lemma_merge_props(prior, e1);
    lemma_merge_props(spec_merge(prior, e1), e2);
    lemma_merge_props(prior, e2);
    lemma_merge_props(spec_merge(prior, e2), e1);
    assert(spec_merge(spec_merge(prior, e1), e2).to_set() =~= spec_merge(
        spec_merge(prior, e2),
        e1,
    ).to_set());
    lemma_ordered_same_set_equal(
        spec_merge(spec_merge(prior, e1), e2),
        spec_merge(spec_merge(prior, e2), e1),
    );
}

proof fn lemma_spec_insert_at(s: Seq<EntryModel>, m: EntryModel, pos: int)
    requires
        entries_ordered(s),
        0 <= pos <= s.len(),
        forall|k: int| 0 <= k < pos ==> entry_lt(s[k], m),
        pos < s.len() ==> !entry_lt(s[pos], m),
    ensures
        pos < s.len() && s[pos] == m ==> spec_insert(s, m) == s,
        !(pos < s.len() && s[pos] == m) ==> spec_insert(s, m) =~= s.take(pos) + seq![m] + s.skip(
            pos,
        ),
    decreases s.len(),
{
    if s.len() == 0 {
        assert(spec_insert(s, m) =~= s.take(pos) + seq![m] + s.skip(pos));
    } else if pos == 0 {
        if entry_lt(m, s[0]) {
            assert(spec_insert(s, m) == seq![m] + s);
            assert(spec_insert(s, m) =~= s.take(0) + seq![m] + s.skip(0));
        } else if m == s[0] {
            assert(spec_insert(s, m) == s);
        } else {
            lemma_entry_lt_connected(m, s[0]);
        }
    } else {
        assert(entry_lt(s[0], m));
        lemma_entry_lt_asymmetric(s[0], m);
        let t = s.drop_first();
        lemma_ordered_drop_first(s);
        assert forall|k: int| 0 <= k < pos - 1 implies entry_lt(t[k], m) by {
            assert(t[k] == s[k + 1]);
        }
        assert(pos - 1 < t.len() ==> !entry_lt(t[pos - 1], m)) by {
            if pos - 1 < t.len() {
                assert(t[pos - 1] == s[pos]);
            }
        }
        lemma_spec_insert_at(t, m, pos - 1);
        assert(spec_insert(s, m) == seq![s[0]] + spec_insert(t, m));
        if pos < s.len() && s[pos] == m {
            assert(t[pos - 1] == m);
            assert(spec_insert(t, m) == t);
            assert(seq![s[0]] + t =~= s);
        } else {
            assert(spec_insert(t, m) =~= t.take(pos - 1) + seq![m] + t.skip(pos - 1));
            assert forall|x: int|
                0 <= x < (seq![s[0]] + (t.take(pos - 1) + seq![m] + t.skip(pos - 1))).len() implies
                (seq![s[0]] + (t.take(pos - 1) + seq![m] + t.skip(pos - 1)))[x] == (s.take(pos)
                    + seq![m] + s.skip(pos))[x] by {
                if 1 <= x && x < pos {
                    assert(t[x - 1] == s[x]);
                } else if x > pos {
                    assert(t[x - 2] == s[x - 1]);
                }
            }
            assert(spec_insert(s, m) =~= s.take(pos) + seq![m] + s.skip(pos));
        }
    }
}

/// The reconciled index: a deduplicated set of entries held in the table
/// order, ready to be persisted.
pub struct Index {
    entries: Vec<IndexEntry>,
}

impl View for Index {
    type V = Seq<EntryModel>;

    closed spec fn view(&self) -> Seq<EntryModel> {
        models(self.entries@)
    }
}

fn find_slot(entries: &Vec<IndexEntry>, e: &IndexEntry) -> (r: (usize, bool))
    requires
        entries_ordered(models(entries@)),
    ensures
        r.0 <= entries@.len(),
        forall|k: int| 0 <= k < r.0 ==> entry_lt(models(entries@)[k], e@),
        r.0 < entries@.len() ==> !entry_lt(models(entries@)[r.0 as int], e@),
        r.1 == (r.0 < entries@.len() && models(entries@)[r.0 as int] == e@),
{
    let n = entries.len();
    let mut pos: usize = 0;
    loop
        invariant
            pos <= n,
            n == entries@.len(),
            entries_ordered(models(entries@)),
            forall|k: int| 0 <= k < pos ==> entry_lt(models(entries@)[k], e@),
        decreases n - pos,
    {
        if pos == n {
            return (pos, false);
        }
        if !entry_lt_exec(&entries[pos], e) {
            let dup = entry_eq_exec(&entries[pos], e);
            return (pos, dup);
        }
        pos += 1;
    }
}

impl Index {
    /// The sequence is sorted under the table order and duplicate-free.
    pub open spec fn wf(&self) -> bool {
        entries_ordered(self@)
    }

    /// The empty index, used when no prior table exists.
    pub fn new() -> (r: Index)
        ensures
            r.wf(),
            r@ == Seq::<EntryModel>::empty(),
    {
        let r = Index { entries: Vec::new() };
        proof {
            assert(r@ =~= Seq::<EntryModel>::empty());
        }
        r
    }

    pub fn len(&self) -> (n: usize)
        ensures
            n == self@.len(),
    {
        self.entries.len()
    }

    pub fn entry_at(&self, i: usize) -> (e: &IndexEntry)
        requires
            i < self@.len(),
        ensures
            e@ == self@[i as int],
    {
        &self.entries[i]
    }

    /// Inserts one entry under set semantics, keeping the table order.
    pub fn insert(&mut self, e: IndexEntry)
        requires
            old(self).wf(),
        ensures
            final(self).wf(),
            final(self)@ == spec_insert(old(self)@, e@),
    {
        let ghost s = self@;
        let (pos, dup) = find_slot(&self.entries, &e);
        proof {
            lemma_spec_insert_at(s, e@, pos as int);
            lemma_insert_props(s, e@);
        }
        if !dup {
            proof {
                assert(models(self.entries@.insert(pos as int, e)) =~= s.take(pos as int) + seq![
                    e@,
                ] + s.skip(pos as int));
            }
            self.entries.insert(pos, e);
        }
    }

    /// Merges a batch of newly discovered entries, one at a time in
    /// discovery order; duplicates collapse silently.
    pub fn merge(&mut self, new_entries: &Vec<IndexEntry>)
        requires
            old(self).wf(),
        ensures
            final(self).wf(),
            final(self)@ == spec_merge(old(self)@, models(new_entries@)),
    {
        let ghost orig = self@;
        let ghost ns = models(new_entries@);
        let mut i: usize = 0;
        proof {
            assert(ns.take(0) =~= Seq::<EntryModel>::empty());
        }
        while i < new_entries.len()
            invariant
                i <= new_entries.len(),
                ns == models(new_entries@),
                entries_ordered(orig),
                self.wf(),
                self@ == spec_merge(orig, ns.take(i as int)),
            decreases new_entries.len() - i,
        {
            let e = new_entries[i].clone();
            self.insert(e);
            proof {
                assert(ns.take(i + 1).drop_last() =~= ns.take(i as int));
                assert(ns.take(i + 1).last() == ns[i as int]);
            }
            i += 1;
        }
        proof {
            assert(ns.take(ns.len() as int) =~= ns);
        }
    }
}

/// Combines a prior persisted index (or none) with newly extracted entries
/// under set semantics, in the deterministic table order.
pub fn reconcile(prior: Option<Index>, new_entries: &Vec<IndexEntry>) -> (ix: Index)
    requires
        prior matches Some(p) ==> p.wf(),
    ensures
        ix.wf(),
        prior matches Some(p) ==> ix@ == spec_merge(p@, models(new_entries@)),
        prior is None ==> ix@ == spec_merge(Seq::<EntryModel>::empty(), models(new_entries@)),
{
    let mut ix = match prior {
        Some(p) => p,
        None => Index::new(),
    };
    ix.merge(new_entries);
    ix
}

} // verus!
