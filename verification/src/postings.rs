//! The term dictionary of a segment: terms in lexicographic order, each with
//! the list of documents it occurs in and the places where it occurs.

use vstd::prelude::*;
use vstd::slice::slice_to_vec;

verus! {

/// A place in a document: which of its entries, and the token position in
/// that entry.
#[derive(Clone, Copy, PartialEq, Eq, Debug, Structural)]
pub struct Slot {
    pub entry: usize,
    pub position: usize,
}

/// The occurrences of one term in one document. The term frequency is the
/// number of slots.
#[derive(Debug, PartialEq, Eq)]
pub struct Posting {
    pub doc: usize,
    pub slots: Vec<Slot>,
}

/// The mathematical value of a [`Posting`].
pub struct PostingView {
    pub doc: int,
    pub slots: Seq<Slot>,
}

impl View for Posting {
    type V = PostingView;

    open spec fn view(&self) -> PostingView {
        PostingView { doc: self.doc as int, slots: self.slots@ }
    }
}

/// The values of a postings list.
pub open spec fn posting_views(postings: Seq<Posting>) -> Seq<PostingView> {
    Seq::new(postings.len(), |i: int| postings[i]@)
}

/// One term of the dictionary with its postings list.
pub struct TermEntry {
    pub field: usize,
    pub term: Vec<u8>,
    pub postings: Vec<Posting>,
}

/// `a` and `b` agree before index `i`, and from there on `a` comes first in
/// lexicographic order.
pub open spec fn before_from(a: Seq<u8>, b: Seq<u8>, i: int) -> bool
    decreases a.len() - i,
{
    if i < 0 || i >= b.len() {
        false
    } else if i >= a.len() {
        true
    } else if a[i] != b[i] {
        a[i] < b[i]
    } else {
        before_from(a, b, i + 1)
    }
}

/// `a` comes strictly before `b` in lexicographic byte order.
pub open spec fn bytes_before(a: Seq<u8>, b: Seq<u8>) -> bool {
    before_from(a, b, 0)
}

/// The order of the dictionary: by field number, then by term bytes.
pub open spec fn key_before(f1: int, t1: Seq<u8>, f2: int, t2: Seq<u8>) -> bool {
    f1 < f2 || (f1 == f2 && bytes_before(t1, t2))
}

/// The entry holds the term `term` of field `field`.
pub open spec fn has_key(entry: TermEntry, field: int, term: Seq<u8>) -> bool {
    entry.field == field && entry.term@ == term
}

proof fn lemma_before_transitive(a: Seq<u8>, b: Seq<u8>, c: Seq<u8>, i: int)
    requires
        before_from(a, b, i),
        before_from(b, c, i),
    ensures
        before_from(a, c, i),
    decreases a.len() - i,
{
    if i < a.len() && a[i] == b[i] && b[i] == c[i] {
        lemma_before_transitive(a, b, c, i + 1);
    }
}

proof fn lemma_before_irreflexive(a: Seq<u8>, i: int)
    ensures
        !before_from(a, a, i),
    decreases a.len() - i,
{
    if 0 <= i < a.len() {
        lemma_before_irreflexive(a, i + 1);
    }
}

/// The dictionary order is transitive.
pub proof fn lemma_key_before_transitive(
    f1: int,
    t1: Seq<u8>,
    f2: int,
    t2: Seq<u8>,
    f3: int,
    t3: Seq<u8>,
)
    requires
        key_before(f1, t1, f2, t2),
        key_before(f2, t2, f3, t3),
    ensures
        key_before(f1, t1, f3, t3),
{
    if f1 == f2 && f2 == f3 {
        lemma_before_transitive(t1, t2, t3, 0);
    }
}

/// No key comes before itself.
pub proof fn lemma_key_before_irreflexive(f: int, t: Seq<u8>)
    ensures
        !key_before(f, t, f, t),
{
    lemma_before_irreflexive(t, 0);
}

/// How one key stands to another in the dictionary order.
#[derive(Clone, Copy, PartialEq, Eq, Debug, Structural)]
pub enum KeyOrder {
    Before,
    Same,
    After,
}

/// Compares two byte strings lexicographically.
pub fn order_bytes(a: &[u8], b: &[u8]) -> (r: KeyOrder)
    ensures
        match r {
            KeyOrder::Before => bytes_before(a@, b@),
            KeyOrder::Same => a@ == b@,
            KeyOrder::After => bytes_before(b@, a@),
        },
{
    let mut i: usize = 0;
    while i < a.len() && i < b.len()
        invariant
            i <= a.len(),
            i <= b.len(),
            forall|k: int| 0 <= k < i ==> a@[k] == b@[k],
            bytes_before(a@, b@) == before_from(a@, b@, i as int),
            bytes_before(b@, a@) == before_from(b@, a@, i as int),
        decreases a.len() - i,
    {
        if a[i] < b[i] {
            return KeyOrder::Before;
        }
        if a[i] > b[i] {
            return KeyOrder::After;
        }
        i = i + 1;
    }
    if i < b.len() {
        KeyOrder::Before
    } else if i < a.len() {
        KeyOrder::After
    } else {
        KeyOrder::Same
    }
}

/// Compares two dictionary keys.
pub fn order_keys(f1: usize, t1: &[u8], f2: usize, t2: &[u8]) -> (r: KeyOrder)
    ensures
        match r {
            KeyOrder::Before => key_before(f1 as int, t1@, f2 as int, t2@),
            KeyOrder::Same => f1 == f2 && t1@ == t2@,
            KeyOrder::After => key_before(f2 as int, t2@, f1 as int, t1@),
        },
{
    if f1 < f2 {
        KeyOrder::Before
    } else if f1 > f2 {
        KeyOrder::After
    } else {
        order_bytes(t1, t2)
    }
}

/// The entries stand in strictly ascending dictionary order.
pub open spec fn terms_sorted(entries: Seq<TermEntry>) -> bool {
    forall|i: int, j: int|
        0 <= i < j < entries.len() ==> key_before(
            (#[trigger] entries[i]).field as int,
            entries[i].term@,
            (#[trigger] entries[j]).field as int,
            entries[j].term@,
        )
}

/// A postings list is in order: documents strictly ascending and below
/// `doc_count`, each with at least one slot.
pub open spec fn postings_ordered(postings: Seq<PostingView>, doc_count: int) -> bool {
    &&& forall|i: int, j: int|
        0 <= i < j < postings.len() ==> (#[trigger] postings[i]).doc < (#[trigger] postings[j]).doc
    &&& forall|i: int|
        0 <= i < postings.len() ==> 0 <= (#[trigger] postings[i]).doc < doc_count
            && postings[i].slots.len() > 0
}

/// A well-formed dictionary: sorted terms, each with a non-empty postings
/// list in order.
pub open spec fn dictionary_wf(entries: Seq<TermEntry>, doc_count: int) -> bool {
    &&& terms_sorted(entries)
    &&& forall|i: int|
        0 <= i < entries.len() ==> (#[trigger] entries[i]).postings.len() > 0 && postings_ordered(
            posting_views(entries[i].postings@),
            doc_count,
        )
}

/// The postings list of a term: that of its entry, or the empty list when
/// the dictionary does not hold the term.
pub open spec fn lookup(entries: Seq<TermEntry>, field: int, term: Seq<u8>) -> Seq<PostingView> {
    if exists|i: int| 0 <= i < entries.len() && has_key(#[trigger] entries[i], field, term) {
        let i = choose|i: int| 0 <= i < entries.len() && has_key(#[trigger] entries[i], field, term);
        posting_views(entries[i].postings@)
    } else {
        Seq::empty()
    }
}

/// In a sorted dictionary the entry of a term is the only one with its key.
pub proof fn lemma_lookup_at(entries: Seq<TermEntry>, i: int)
    requires
        terms_sorted(entries),
        0 <= i < entries.len(),
    ensures
        lookup(entries, entries[i].field as int, entries[i].term@) == posting_views(
            entries[i].postings@,
        ),
{
    let field = entries[i].field as int;
    let term = entries[i].term@;
    lemma_key_before_irreflexive(field, term);
}

/// Finds the place of a key in a sorted dictionary: the index of its entry,
/// or the index at which it would have to be inserted.
pub fn locate(entries: &Vec<TermEntry>, field: usize, term: &[u8]) -> (r: (usize, bool))
    requires
        terms_sorted(entries@),
    ensures
        r.0 <= entries.len(),
        r.1 ==> r.0 < entries.len() && has_key(entries[r.0 as int], field as int, term@),
        forall|k: int|
            0 <= k < r.0 ==> key_before(
                (#[trigger] entries[k]).field as int,
                entries[k].term@,
                field as int,
                term@,
            ),
        !r.1 ==> forall|k: int|
            r.0 <= k < entries.len() ==> key_before(
                field as int,
                term@,
                (#[trigger] entries[k]).field as int,
                entries[k].term@,
            ),
{
    let mut low: usize = 0;
    let mut high: usize = entries.len();
    while low < high
        invariant
            low <= high <= entries.len(),
            terms_sorted(entries@),
            forall|k: int|
                0 <= k < low ==> key_before(
                    (#[trigger] entries[k]).field as int,
                    entries[k].term@,
                    field as int,
                    term@,
                ),
            forall|k: int|
                high <= k < entries.len() ==> key_before(
                    field as int,
                    term@,
                    (#[trigger] entries[k]).field as int,
                    entries[k].term@,
                ),
        decreases high - low,
    {
        let mid = low + (high - low) / 2;
        let entry = &entries[mid];
        match order_keys(entry.field, entry.term.as_slice(), field, term) {
            KeyOrder::Before => {
                assert forall|k: int| 0 <= k < mid + 1 implies key_before(
                    (#[trigger] entries[k]).field as int,
                    entries[k].term@,
                    field as int,
                    term@,
                ) by {
                    if k < mid {
                        lemma_key_before_transitive(
                            entries[k].field as int,
                            entries[k].term@,
                            entries[mid as int].field as int,
                            entries[mid as int].term@,
                            field as int,
                            term@,
                        );
                    }
                }
                low = mid + 1;
            },
            KeyOrder::Same => {
                return (mid, true);
            },
            KeyOrder::After => {
                assert forall|k: int| mid <= k < entries.len() implies key_before(
                    field as int,
                    term@,
                    (#[trigger] entries[k]).field as int,
                    entries[k].term@,
                ) by {
                    if k > mid {
                        lemma_key_before_transitive(
                            field as int,
                            term@,
                            entries[mid as int].field as int,
                            entries[mid as int].term@,
                            entries[k].field as int,
                            entries[k].term@,
                        );
                    }
                }
                high = mid;
            },
        }
    }
    (low, false)
}

/// One occurrence of a term: the document, the field, the term's bytes and
/// the place in the document.
pub struct Occurrence {
    pub doc: int,
    pub field: int,
    pub term: Seq<u8>,
    pub slot: Slot,
}

/// A postings list after one more occurrence in document `doc`: the slot
/// joins the last posting when that is the posting of `doc`, and opens a new
/// posting otherwise.
pub open spec fn add_slot(postings: Seq<PostingView>, doc: int, slot: Slot) -> Seq<PostingView> {
    if postings.len() > 0 && postings.last().doc == doc {
        postings.update(
            postings.len() - 1,
            PostingView { doc, slots: postings.last().slots.push(slot) },
        )
    } else {
        postings.push(PostingView { doc, slots: seq![slot] })
    }
}

/// The postings list of a term over a sequence of occurrences: the term's
/// own occurrences in order, grouped by document.
pub open spec fn postings_of(occurrences: Seq<Occurrence>, field: int, term: Seq<u8>) -> Seq<
    PostingView,
>
    decreases occurrences.len(),
{
    if occurrences.len() == 0 {
        Seq::empty()
    } else {
        let earlier = postings_of(occurrences.drop_last(), field, term);
        let last = occurrences.last();
        if last.field == field && last.term == term {
            add_slot(earlier, last.doc, last.slot)
        } else {
            earlier
        }
    }
}

proof fn lemma_lookup_found(entries: Seq<TermEntry>, i: int, field: int, term: Seq<u8>)
    requires
        terms_sorted(entries),
        0 <= i < entries.len(),
        has_key(entries[i], field, term),
    ensures
        lookup(entries, field, term) == posting_views(entries[i].postings@),
{
    lemma_lookup_at(entries, i);
}

proof fn lemma_lookup_after_change(before: Seq<TermEntry>, after: Seq<TermEntry>, at: int)
    requires
        terms_sorted(before),
        0 <= at < before.len(),
        after.len() == before.len(),
        forall|k: int|
            0 <= k < before.len() ==> (#[trigger] after[k]).field == before[k].field && after[k].term@
                == before[k].term@,
        forall|k: int|
            0 <= k < before.len() && k != at ==> posting_views((#[trigger] after[k]).postings@)
                == posting_views(before[k].postings@),
    ensures
        terms_sorted(after),
        forall|f: int, t: Seq<u8>|
            #[trigger] lookup(after, f, t) == if has_key(before[at], f, t) {
                posting_views(after[at].postings@)
            } else {
                lookup(before, f, t)
            },
{
    assert forall|f: int, t: Seq<u8>|
        #[trigger] lookup(after, f, t) == if has_key(before[at], f, t) {
            posting_views(after[at].postings@)
        } else {
            lookup(before, f, t)
        } by {
        if exists|i: int| 0 <= i < before.len() && has_key(#[trigger] before[i], f, t) {
            let i = choose|i: int| 0 <= i < before.len() && has_key(#[trigger] before[i], f, t);
            lemma_lookup_found(after, i, f, t);
            if has_key(before[at], f, t) {
                lemma_lookup_found(after, at, f, t);
            }
        }
    }
}

proof fn lemma_lookup_after_insert(before: Seq<TermEntry>, entry: TermEntry, at: int)
    requires
        terms_sorted(before),
        0 <= at <= before.len(),
        forall|k: int|
            0 <= k < at ==> key_before(
                (#[trigger] before[k]).field as int,
                before[k].term@,
                entry.field as int,
                entry.term@,
            ),
        forall|k: int|
            at <= k < before.len() ==> key_before(
                entry.field as int,
                entry.term@,
                (#[trigger] before[k]).field as int,
                before[k].term@,
            ),
    ensures
        terms_sorted(before.insert(at, entry)),
        lookup(before, entry.field as int, entry.term@) == Seq::<PostingView>::empty(),
        forall|f: int, t: Seq<u8>|
            #[trigger] lookup(before.insert(at, entry), f, t) == if has_key(entry, f, t) {
                posting_views(entry.postings@)
            } else {
                lookup(before, f, t)
            },
{
    let after = before.insert(at, entry);
    let ef = entry.field as int;
    let et = entry.term@;
    lemma_key_before_irreflexive(ef, et);
    assert forall|f: int, t: Seq<u8>|
        #[trigger] lookup(after, f, t) == if has_key(entry, f, t) {
            posting_views(entry.postings@)
        } else {
            lookup(before, f, t)
        } by {
        if has_key(entry, f, t) {
            assert(after[at] == entry);
        } else if exists|i: int| 0 <= i < before.len() && has_key(#[trigger] before[i], f, t) {
            let i = choose|i: int| 0 <= i < before.len() && has_key(#[trigger] before[i], f, t);
            let ai = if i < at { i } else { i + 1 };
            lemma_lookup_found(after, ai, f, t);
        }
    }
}

/// Enters one occurrence of a term in document `doc` into the dictionary.
/// Occurrences have to arrive document by document, in ascending order.
pub fn record(entries: &mut Vec<TermEntry>, field: usize, term: &[u8], doc: usize, slot: Slot)
    requires
        dictionary_wf(old(entries)@, doc + 1),
    ensures
        dictionary_wf(final(entries)@, doc + 1),
        forall|f: int, t: Seq<u8>|
            #[trigger] lookup(final(entries)@, f, t) == if f == field && t == term@ {
                add_slot(lookup(old(entries)@, f, t), doc as int, slot)
            } else {
                lookup(old(entries)@, f, t)
            },
{
    let (at, found) = locate(entries, field, term);
    if found {
        let ghost before = entries@;
        let ghost earlier = posting_views(before[at as int].postings@);
        let n = entries[at].postings.len();
        proof {
            lemma_lookup_found(before, at as int, field as int, term@);
        }
        if entries[at].postings[n - 1].doc == doc {
            entries[at].postings[n - 1].slots.push(slot);
            assert(posting_views(entries[at as int].postings@) =~= add_slot(
                earlier,
                doc as int,
                slot,
            ));
        } else {
            let slots = vec![slot];
            assert(slots@ =~= seq![slot]);
            entries[at].postings.push(Posting { doc, slots });
            assert(posting_views(entries[at as int].postings@) =~= add_slot(
                earlier,
                doc as int,
                slot,
            ));
        }
        proof {
            lemma_lookup_after_change(before, entries@, at as int);
        }
    } else {
        let ghost before = entries@;
        let slots = vec![slot];
        assert(slots@ =~= seq![slot]);
        let entry = TermEntry {
            field,
            term: slice_to_vec(term),
            postings: vec![Posting { doc, slots }],
        };
        proof {
            lemma_lookup_after_insert(before, entry, at as int);
        }
        entries.insert(at, entry);
    }
}

} // verus!
