//! Decoding of NUL-terminated strings out of a string-table byte buffer.
//!
//! `cstr_from` is the mathematical reading: the bytes from a given offset up
//! to (and excluding) the first terminator, or `None` when the offset is out
//! of range or no terminator follows it.  `read_cstr` is the verified
//! executable reader, and the lemmas relate decoding to buffer extension and
//! to freshly appended strings — the facts the string pool needs to show
//! that every offset it hands out locates the very bytes that were interned.

use vstd::prelude::*;

verus! {

/// The string holds no terminator byte.
pub open spec fn no_nul(s: Seq<u8>) -> bool {
    forall|i: int| 0 <= i < s.len() ==> s[i] != 0
}

/// The NUL-terminated string starting at byte offset `pos` of `b`:
/// `None` when `pos` is out of range or no terminator follows it.
pub open spec fn cstr_from(b: Seq<u8>, pos: int) -> Option<Seq<u8>>
    decreases b.len() - pos,
{
    if pos < 0 || pos >= b.len() {
        None
    } else if b[pos] == 0 {
        Some(Seq::empty())
    } else {
        match cstr_from(b, pos + 1) {
            Some(s) => Some(seq![b[pos]] + s),
            None => None,
        }
    }
}

/// A decoded string never contains the terminator byte.
pub proof fn lemma_cstr_no_nul(b: Seq<u8>, pos: int)
    ensures
        cstr_from(b, pos) matches Some(s) ==> no_nul(s),
    decreases b.len() - pos,
{
    if 0 <= pos < b.len() && b[pos] != 0 {
        lemma_cstr_no_nul(b, pos + 1);
    }
}

/// Appending bytes after the terminator does not change what is decoded.
pub proof fn lemma_cstr_append(b: Seq<u8>, ext: Seq<u8>, pos: int)
    requires
        cstr_from(b, pos) is Some,
    ensures
        cstr_from(b + ext, pos) == cstr_from(b, pos),
    decreases b.len() - pos,
{
    assert(0 <= pos < b.len());
    assert((b + ext)[pos] == b[pos]);
    if b[pos] != 0 {
        lemma_cstr_append(b, ext, pos + 1);
    }
}

/// A terminator-free string appended with its terminator decodes exactly.
pub proof fn lemma_cstr_exact(pre: Seq<u8>, s: Seq<u8>)
    requires
        no_nul(s),
    ensures
        cstr_from(pre + s + seq![0u8], pre.len() as int) == Some(s),
    decreases s.len(),
{
    let b = pre + s + seq![0u8];
    let pos = pre.len() as int;
    if s.len() == 0 {
        assert(b[pos] == 0);
        assert(cstr_from(b, pos) == Some(Seq::<u8>::empty()));
        assert(Seq::<u8>::empty() =~= s);
    } else {
        assert(b[pos] == s[0]);
        let pre2 = pre + seq![s[0]];
        let s2 = s.drop_first();
        assert(no_nul(s2));
        lemma_cstr_exact(pre2, s2);
        assert(pre2 + s2 + seq![0u8] =~= b);
        assert(cstr_from(b, pos + 1) == Some(s2));
        assert(seq![s[0]] + s2 =~= s);
    }
}

/// What prepending a prefix does to an optional decoded tail.
pub open spec fn opt_prepend(p: Seq<u8>, o: Option<Seq<u8>>) -> Option<Seq<u8>> {
    match o {
        Some(s) => Some(p + s),
        None => None,
    }
}

proof fn lemma_opt_prepend_assoc(p1: Seq<u8>, p2: Seq<u8>, o: Option<Seq<u8>>)
    ensures
        opt_prepend(p1, opt_prepend(p2, o)) == opt_prepend(p1 + p2, o),
{
    match o {
        Some(s) => {
            assert(p1 + (p2 + s) =~= (p1 + p2) + s);
        },
        None => {},
    }
}

/// Reads the NUL-terminated string starting at byte offset `pos` of `b`;
/// `None` when the offset is out of range or no terminator follows it.
pub fn read_cstr(b: &[u8], pos: u64) -> (r: Option<Vec<u8>>)
    ensures
        match cstr_from(b@, pos as int) {
            Some(s) => r matches Some(v) && v@ == s,
            None => r is None,
        },
{
    if pos >= b.len() as u64 {
        return None;
    }
    let mut j: usize = pos as usize;
    let mut acc: Vec<u8> = Vec::new();
    proof {
        assert(acc@ + cstr_from(b@, j as int).unwrap() =~= cstr_from(b@, j as int).unwrap());
    }
    while j < b.len()
        invariant
            pos as int <= j as int <= b@.len(),
            acc@ == b@.subrange(pos as int, j as int),
            cstr_from(b@, pos as int) == opt_prepend(acc@, cstr_from(b@, j as int)),
        decreases b@.len() - j,
    {
        let c = b[j];
        if c == 0 {
            proof {
                assert(cstr_from(b@, j as int) == Some(Seq::<u8>::empty()));
                assert(acc@ + Seq::<u8>::empty() =~= acc@);
            }
            return Some(acc);
        }
        acc.push(c);
        j = j + 1;
        proof {
            let jp = j as int - 1;
            assert(cstr_from(b@, jp) == opt_prepend(seq![b@[jp]], cstr_from(b@, jp + 1)));
            lemma_opt_prepend_assoc(acc@.drop_last(), seq![b@[jp]], cstr_from(b@, jp + 1));
            assert(acc@.drop_last() + seq![b@[jp]] =~= acc@);
            assert(acc@ =~= b@.subrange(pos as int, j as int));
        }
    }
    proof {
        assert(cstr_from(b@, j as int) is None);
    }
    None
}

/// Whether the bytes are valid UTF-8; a property of the bytes alone.
pub uninterp spec fn is_utf8(s: Seq<u8>) -> bool;

/// Relies on core::str::from_utf8: returns `Ok` exactly when the bytes are
/// valid UTF-8.
#[verifier::external_body]
pub(crate) fn utf8_ok(b: &[u8]) -> (r: bool)
    ensures
        r == is_utf8(b@),
{
    core::str::from_utf8(b).is_ok()
}

} // verus!
