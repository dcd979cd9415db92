//! The deduplicating string pool that owns the merged string-table buffer.
//!
//! The pool is modelled by the sequence of distinct strings it holds, in
//! first-insertion order.  `pool_bytes` gives the merged buffer those
//! strings produce — each string followed by one terminator byte, with no
//! gaps — and `pool_offset` gives the byte offset assigned to a string:
//! the offset of its first occurrence.  `insert_view` is the effect of one
//! insertion on the model; the public lemmas state the pool's laws —
//! idempotent insertion, insertion-order offsets, and that every assigned
//! offset decodes to the very string that was interned.

use indexmap::IndexSet;
use vstd::prelude::*;
use vstd::slice::slice_to_vec;

use crate::cstr::cstr_from;
use crate::cstr::lemma_cstr_append;
use crate::cstr::lemma_cstr_exact;
use crate::cstr::no_nul;
use crate::iset::iset_elems;
use crate::iset::iset_insert_full;
use crate::iset::iset_new;

verus! {

/// A byte offset into the merged string-table buffer at which a string's
/// bytes begin; stable for the lifetime of the pool.
#[derive(Clone, Copy, Debug, PartialEq, Eq, Structural)]
pub struct PackageStringOffset(pub usize);

/// No two strings of the sequence are equal.
pub open spec fn distinct_strs(v: Seq<Seq<u8>>) -> bool {
    forall|i: int, j: int| 0 <= i < j < v.len() ==> v[i] != v[j]
}

/// Every string of the sequence is terminator-free.
pub open spec fn all_no_nul(v: Seq<Seq<u8>>) -> bool {
    forall|i: int| 0 <= i < v.len() ==> no_nul(#[trigger] v[i])
}

/// The merged buffer produced by the strings: each followed by one
/// terminator byte, in order, with no gaps.
pub open spec fn pool_bytes(v: Seq<Seq<u8>>) -> Seq<u8>
    decreases v.len(),
{
    if v.len() == 0 {
        Seq::empty()
    } else {
        pool_bytes(v.drop_last()) + v.last() + seq![0u8]
    }
}

/// The byte offset at which the `i`-th string of the pool begins.
pub open spec fn str_offset(v: Seq<Seq<u8>>, i: int) -> int {
    pool_bytes(v.take(i)).len() as int
}

/// The position of the first occurrence of `s` in `v`.
pub open spec fn first_index(v: Seq<Seq<u8>>, s: Seq<u8>) -> int
    decreases v.len(),
{
    if v.len() == 0 {
        0
    } else if v[0] == s {
        0
    } else {
        1 + first_index(v.drop_first(), s)
    }
}

/// The byte offset assigned to string `s`: that of its first occurrence.
pub open spec fn pool_offset(v: Seq<Seq<u8>>, s: Seq<u8>) -> int {
    str_offset(v, first_index(v, s))
}

/// The effect of inserting `s`: a no-op when present, appended otherwise.
pub open spec fn insert_view(v: Seq<Seq<u8>>, s: Seq<u8>) -> Seq<Seq<u8>> {
    if v.contains(s) {
        v
    } else {
        v.push(s)
    }
}

pub proof fn lemma_first_index_char(v: Seq<Seq<u8>>, s: Seq<u8>, i: int)
    requires
        0 <= i < v.len(),
        v[i] == s,
        forall|j: int| 0 <= j < i ==> v[j] != s,
    ensures
        first_index(v, s) == i,
    decreases v.len(),
{
    if i != 0 {
        let vd = v.drop_first();
        assert(vd[i - 1] == s);
        assert forall|j: int| 0 <= j < i - 1 implies vd[j] != s by {
            assert(vd[j] == v[j + 1]);
        }
        lemma_first_index_char(vd, s, i - 1);
    }
}

pub proof fn lemma_first_index_contains(v: Seq<Seq<u8>>, s: Seq<u8>)
    requires
        v.contains(s),
    ensures
        0 <= first_index(v, s) < v.len(),
        v[first_index(v, s)] == s,
        forall|j: int| 0 <= j < first_index(v, s) ==> v[j] != s,
    decreases v.len(),
{
    if v[0] == s {
    } else {
        let i = choose|i: int| 0 <= i < v.len() && v[i] == s;
        let vd = v.drop_first();
        assert(vd[i - 1] == s);
        assert(vd.contains(s));
        lemma_first_index_contains(vd, s);
        let f = first_index(vd, s);
        assert(v[1 + f] == vd[f]);
        assert forall|j: int| 0 <= j < 1 + f implies v[j] != s by {
            if j > 0 {
                assert(vd[j - 1] == v[j]);
            }
        }
    }
}

/// The length of the buffer only grows along the pool, and the `i`-th
/// string (with its terminator) lies inside it.
pub proof fn lemma_str_offset_bound(v: Seq<Seq<u8>>, i: int)
    requires
        0 <= i <= v.len(),
    ensures
        pool_bytes(v.take(i)).len() <= pool_bytes(v).len(),
        i < v.len() ==> str_offset(v, i) + v[i].len() + 1 <= pool_bytes(v).len(),
    decreases v.len() - i,
{
    if i == v.len() {
        assert(v.take(i) =~= v);
    } else {
        assert(v.take(i + 1) =~= v.take(i).push(v[i]));
        lemma_pool_bytes_push(v.take(i), v[i]);
        lemma_str_offset_bound(v, i + 1);
    }
}

pub proof fn lemma_pool_bytes_push(v: Seq<Seq<u8>>, s: Seq<u8>)
    ensures
        pool_bytes(v.push(s)) == pool_bytes(v) + s + seq![0u8],
{
    assert(v.push(s).drop_last() =~= v);
    assert(v.push(s).last() == s);
}

/// Offsets already assigned are stable when the pool grows at the end.
pub proof fn lemma_pool_offset_prefix(v1: Seq<Seq<u8>>, v2: Seq<Seq<u8>>, s: Seq<u8>)
    requires
        v1.is_prefix_of(v2),
        v1.contains(s),
    ensures
        v2.contains(s),
        pool_offset(v2, s) == pool_offset(v1, s),
{
    lemma_first_index_contains(v1, s);
    let f = first_index(v1, s);
    assert(v2[f] == v1[f]);
    assert(v2.contains(s));
    assert forall|j: int| 0 <= j < f implies v2[j] != s by {
        assert(v2[j] == v1[j]);
    }
    lemma_first_index_char(v2, s, f);
    assert(v2.take(f) =~= v1.take(f));
}

proof fn lemma_pool_lookup_at(v: Seq<Seq<u8>>, i: int)
    requires
        all_no_nul(v),
        0 <= i < v.len(),
    ensures
        cstr_from(pool_bytes(v), str_offset(v, i)) == Some(v[i]),
    decreases v.len(),
{
    let vd = v.drop_last();
    if i == v.len() - 1 {
        assert(v.take(i) =~= vd);
        lemma_cstr_exact(pool_bytes(vd), v.last());
    } else {
        assert(all_no_nul(vd)) by {
            assert forall|j: int| 0 <= j < vd.len() implies no_nul(#[trigger] vd[j]) by {
                assert(vd[j] == v[j]);
            }
        }
        assert(v.take(i) =~= vd.take(i));
        lemma_pool_lookup_at(vd, i);
        let off = str_offset(vd, i);
        lemma_cstr_append(pool_bytes(vd), v.last() + seq![0u8], off);
        assert(pool_bytes(vd) + (v.last() + seq![0u8]) =~= pool_bytes(vd) + v.last() + seq![0u8]);
        assert(vd[i] == v[i]);
    }
}

/// Positional fidelity at the pool: the offset assigned to an interned
/// string decodes, in the merged buffer, to exactly that string.
pub proof fn lemma_pool_locates(v: Seq<Seq<u8>>, s: Seq<u8>)
    requires
        all_no_nul(v),
        v.contains(s),
    ensures
        0 <= pool_offset(v, s) < pool_bytes(v).len(),
        cstr_from(pool_bytes(v), pool_offset(v, s)) == Some(s),
{
    lemma_first_index_contains(v, s);
    let f = first_index(v, s);
    lemma_pool_lookup_at(v, f);
    lemma_str_offset_bound(v, f);
}

/// Being a prefix is transitive.
pub proof fn lemma_prefix_trans<T>(a: Seq<T>, b: Seq<T>, c: Seq<T>)
    requires
        a.is_prefix_of(b),
        b.is_prefix_of(c),
    ensures
        a.is_prefix_of(c),
{
    assert forall|i: int| 0 <= i < a.len() implies a[i] == c.subrange(0, a.len() as int)[i] by {
        assert(a[i] == b[i]);
        assert(b[i] == c[i]);
    }
    assert(a =~= c.subrange(0, a.len() as int));
}

/// One insertion keeps the pool's invariants, contains the inserted
/// string, and only ever extends the pool at the end.
pub proof fn lemma_insert_view_props(v: Seq<Seq<u8>>, s: Seq<u8>)
    requires
        distinct_strs(v),
        all_no_nul(v),
        no_nul(s),
    ensures
        distinct_strs(insert_view(v, s)),
        all_no_nul(insert_view(v, s)),
        insert_view(v, s).contains(s),
        v.is_prefix_of(insert_view(v, s)),
{
    let r = insert_view(v, s);
    if v.contains(s) {
        assert(v =~= v.subrange(0, v.len() as int));
    } else {
        assert(r[v.len() as int] == s);
        assert(r.contains(s));
        assert forall|i: int, j: int| 0 <= i < j < r.len() implies r[i] != r[j] by {
            if j == v.len() {
                if v[i] == s {
                    assert(v.contains(s));
                }
            }
        }
        assert forall|i: int| 0 <= i < r.len() implies no_nul(#[trigger] r[i]) by {
            if i < v.len() {
                assert(r[i] == v[i]);
            }
        }
        assert(v =~= r.subrange(0, v.len() as int));
    }
}

/// Inserting a string a second time changes nothing: the pool's model, its
/// buffer, and the offset the insertion yields are those of the first
/// insertion.
pub proof fn lemma_insert_idempotent(v: Seq<Seq<u8>>, s: Seq<u8>)
    ensures
        insert_view(insert_view(v, s), s) == insert_view(v, s),
        pool_offset(insert_view(insert_view(v, s), s), s) == pool_offset(insert_view(v, s), s),
        pool_bytes(insert_view(insert_view(v, s), s)).len() == pool_bytes(insert_view(v, s)).len(),
{
    let v1 = insert_view(v, s);
    if v.contains(s) {
        assert(v1.contains(s));
    } else {
        assert(v1[v.len() as int] == s);
        assert(v1.contains(s));
    }
}

/// Insertion-order offsets: starting from an empty pool, three pairwise
/// distinct strings are assigned the offsets 0, L1 + 1 and L1 + L2 + 2.
pub proof fn lemma_insertion_order_offsets(s1: Seq<u8>, s2: Seq<u8>, s3: Seq<u8>)
    requires
        s1 != s2,
        s1 != s3,
        s2 != s3,
    ensures
        ({
            let v1 = insert_view(Seq::empty(), s1);
            let v2 = insert_view(v1, s2);
            let v3 = insert_view(v2, s3);
            &&& pool_offset(v1, s1) == 0
            &&& pool_offset(v2, s2) == s1.len() + 1
            &&& pool_offset(v3, s3) == s1.len() + s2.len() + 2
        }),
{
    let e = Seq::<Seq<u8>>::empty();
    let v1 = insert_view(e, s1);
    let v2 = insert_view(v1, s2);
    let v3 = insert_view(v2, s3);
    assert(!e.contains(s1));
    assert(v1 =~= seq![s1]);
    assert(!v1.contains(s2)) by {
        if v1.contains(s2) {
            let i = choose|i: int| 0 <= i < v1.len() && v1[i] == s2;
            assert(v1[i] == s1);
        }
    }
    assert(v2 =~= seq![s1, s2]);
    assert(!v2.contains(s3)) by {
        if v2.contains(s3) {
            let i = choose|i: int| 0 <= i < v2.len() && v2[i] == s3;
        }
    }
    assert(v3 =~= seq![s1, s2, s3]);
    lemma_first_index_char(v1, s1, 0);
    lemma_first_index_char(v2, s2, 1);
    lemma_first_index_char(v3, s3, 2);
    assert(v1.take(0) =~= e);
    assert(pool_offset(v1, s1) == 0);
    assert(v2.take(1) =~= v1);
    lemma_pool_bytes_push(e, s1);
    assert(pool_bytes(e) =~= Seq::<u8>::empty());
    assert(pool_bytes(v1) =~= s1 + seq![0u8]);
    assert(pool_offset(v2, s2) == s1.len() + 1);
    assert(v3.take(2) =~= v2);
    lemma_pool_bytes_push(v1, s2);
    assert(pool_bytes(v2).len() == s1.len() + s2.len() + 2);
}

/// Appends a borrowed byte slice to an owned buffer.
fn push_bytes(out: &mut Vec<u8>, b: &[u8])
    ensures
        final(out)@ == old(out)@ + b@,
{
    let mut owned = slice_to_vec(b);
    out.append(&mut owned);
}

/// An append-only, deduplicating interner for the merged string-table
/// section.  Strings from many objects are inserted in turn; each distinct
/// string is stored once, followed by one terminator byte, and keeps the
/// byte offset assigned at its first insertion.
pub struct PackageStringTable {
    data: Vec<u8>,
    strings: IndexSet<Vec<u8>>,
    offsets: Vec<usize>,
}

impl View for PackageStringTable {
    type V = Seq<Seq<u8>>;

    closed spec fn view(&self) -> Seq<Seq<u8>> {
        iset_elems(self.strings)
    }
}

impl PackageStringTable {
    /// The pool's invariant: distinct terminator-free strings, a buffer
    /// that is exactly their terminated concatenation, and one cached
    /// offset per string, equal to where its bytes begin.
    pub closed spec fn wf(&self) -> bool {
        &&& distinct_strs(self@)
        &&& all_no_nul(self@)
        &&& self.offsets@.len() == self@.len()
        &&& self.data@ == pool_bytes(self@)
        &&& forall|i: int|
            0 <= i < self@.len() ==> (#[trigger] self.offsets@[i]) as int == str_offset(self@, i)
    }

    /// A well-formed pool holds distinct, terminator-free strings.
    pub proof fn lemma_wf_props(&self)
        requires
            self.wf(),
        ensures
            distinct_strs(self@),
            all_no_nul(self@),
    {
    }

    /// Creates an empty pool.
    pub fn new() -> (r: Self)
        ensures
            r.wf(),
            r@ == Seq::<Seq<u8>>::empty(),
    {
        let r = Self { data: Vec::new(), strings: iset_new(), offsets: Vec::new() };
        proof {
            assert(pool_bytes(r@) =~= Seq::<u8>::empty());
        }
        r
    }

    /// Inserts a terminator-free string and returns its byte offset in the
    /// merged buffer.  A string already present is not stored again: its
    /// previously assigned offset is returned unchanged.
    pub fn get_or_insert(&mut self, bytes: &[u8]) -> (r: PackageStringOffset)
        requires
            old(self).wf(),
            no_nul(bytes@),
        ensures
            final(self).wf(),
            final(self)@ == insert_view(old(self)@, bytes@),
            r.0 as int == pool_offset(final(self)@, bytes@),
    {
        let ghost v = self@;
        let owned = slice_to_vec(bytes);
        let (index, is_new) = iset_insert_full(&mut self.strings, owned);
        proof {
            lemma_insert_view_props(v, bytes@);
        }
        if !is_new {
            proof {
                lemma_first_index_char(v, bytes@, index as int);
            }
            PackageStringOffset(self.offsets[index])
        } else {
            let off = self.data.len();
            self.offsets.push(off);
            push_bytes(&mut self.data, bytes);
            self.data.push(0u8);
            proof {
                let nv = v.push(bytes@);
                lemma_pool_bytes_push(v, bytes@);
                assert(self.data@ =~= pool_bytes(v) + bytes@ + seq![0u8]);
                assert(nv.take(v.len() as int) =~= v);
                assert forall|i: int|
                    0 <= i < nv.len() implies (#[trigger] self.offsets@[i]) as int == str_offset(
                    nv,
                    i,
                ) by {
                    if i < v.len() {
                        assert(nv.take(i) =~= v.take(i));
                        assert(self.offsets@[i] == old(self).offsets@[i]);
                    } else {
                        assert(self.offsets@[i] == off);
                    }
                }
                lemma_first_index_char(nv, bytes@, v.len() as int);
            }
            PackageStringOffset(off)
        }
    }

    /// The current length of the merged buffer.
    pub fn buffer_len(&self) -> (r: usize)
        requires
            self.wf(),
        ensures
            r as int == pool_bytes(self@).len(),
    {
        self.data.len()
    }

    /// Consumes the pool and returns the accumulated merged string-table
    /// buffer.
    pub fn finish(self) -> (r: Vec<u8>)
        requires
            self.wf(),
        ensures
            r@ == pool_bytes(self@),
    {
        self.data
    }
}

} // verus!
