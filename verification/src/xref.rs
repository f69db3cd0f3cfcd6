//! The cross-reference table: sorting the offset table by identifier and
//! emitting the fixed-width entries, together with the lemmas that let a
//! reader look an identifier's entry up and decode its byte offset.

use vstd::prelude::*;

use crate::num::{dec_rep, pad_rep, push_padded10};
use crate::writer::{pair_view, pairs_view};

verus! {

/// Ordering of offset-table pairs: by identifier, ties broken by offset.
pub open spec fn pair_le(a: (int, int), b: (int, int)) -> bool {
    a.0 < b.0 || (a.0 == b.0 && a.1 <= b.1)
}

/// Insert `p` into the sorted sequence `s`, keeping it sorted: scan from
/// the end past every element greater than `p`.
pub open spec fn insert_sorted(s: Seq<(int, int)>, p: (int, int)) -> Seq<(int, int)>
    decreases s.len(),
{
    if s.len() == 0 {
        seq![p]
    } else if pair_le(s.last(), p) {
        s.push(p)
    } else {
        insert_sorted(s.drop_last(), p).push(s.last())
    }
}

/// Sort a sequence of offset-table pairs by identifier (ties broken by
/// offset), by repeated insertion.
pub open spec fn sort_pairs(s: Seq<(int, int)>) -> Seq<(int, int)>
    decreases s.len(),
{
    if s.len() == 0 {
        Seq::<(int, int)>::empty()
    } else {
        insert_sorted(sort_pairs(s.drop_last()), s.last())
    }
}

/// No two pairs carry the same identifier.
pub open spec fn ids_distinct(s: Seq<(int, int)>) -> bool {
    forall|i: int, j: int| 0 <= i < j < s.len() ==> s[i].0 != s[j].0
}

/// Identifiers are strictly ascending.
pub open spec fn strictly_by_id(s: Seq<(int, int)>) -> bool {
    forall|i: int, j: int| 0 <= i < j < s.len() ==> s[i].0 < s[j].0
}

/// Some pair of `s` carries identifier `id`.
pub open spec fn has_id(s: Seq<(int, int)>, id: int) -> bool {
    exists|k: int| 0 <= k < s.len() && s[k].0 == id
}

/// The fixed-width entry of a free identifier: a ten-digit zero offset,
/// the sentinel generation 65535, the marker `f`, and CRLF.
pub open spec fn free_entry_bytes() -> Seq<u8> {
    seq![
        0x30u8, 0x30, 0x30, 0x30, 0x30, 0x30, 0x30, 0x30, 0x30, 0x30, 0x20, 0x36, 0x35, 0x35,
        0x33, 0x35, 0x20, 0x66, 0x0d, 0x0a,
    ]
}

/// The fixed-width entry of a used identifier: the ten-digit zero-padded
/// byte offset, generation 00000, the marker `n`, and CRLF.
pub open spec fn used_entry_bytes(off: int) -> Seq<u8> {
    pad_rep(if off < 0 { 0nat } else { off as nat }, 10) + seq![
        0x20u8, 0x30, 0x30, 0x30, 0x30, 0x30, 0x20, 0x6e, 0x0d, 0x0a,
    ]
}

/// `k` consecutive free entries.
pub open spec fn free_entries(k: int) -> Seq<u8>
    decreases k,
{
    if k <= 0 {
        Seq::<u8>::empty()
    } else {
        free_entry_bytes() + free_entries(k - 1)
    }
}

/// The entries that the sorted offset table produces, starting from the
/// next expected identifier: free entries for every skipped identifier,
/// then the used entry, and after each pair the next expected identifier
/// is one past the pair's own.
pub open spec fn xref_entries(s: Seq<(int, int)>, next: int) -> Seq<u8>
    decreases s.len(),
{
    if s.len() == 0 {
        Seq::<u8>::empty()
    } else {
        free_entries(s[0].0 - next) + used_entry_bytes(s[0].1) + xref_entries(
            s.drop_first(),
            s[0].0 + 1,
        )
    }
}

/// The table length: one entry for every identifier from zero up to the
/// highest used one, so one more than the highest identifier, or one for
/// an empty table.
pub open spec fn xref_size(sorted: Seq<(int, int)>) -> int {
    if sorted.len() == 0 {
        1
    } else {
        1 + sorted.last().0
    }
}

/// The two lines that head the table: the keyword `xref` and the
/// subsection line `0 <size>`.
pub open spec fn xref_head(sorted: Seq<(int, int)>) -> Seq<u8> {
    seq![0x78u8, 0x72, 0x65, 0x66, 0x0a, 0x30, 0x20] + dec_rep(xref_size(sorted) as nat) + seq![
        0x0au8,
    ]
}

/// The whole cross-reference table produced from a sorted offset table:
/// the head, the permanent free sentinel for identifier zero, and the
/// entries of identifiers one and up.
pub open spec fn xref_bytes(sorted: Seq<(int, int)>) -> Seq<u8> {
    xref_head(sorted) + free_entry_bytes() + xref_entries(sorted, 1)
}

/// Append one free entry to `buf`.
pub(crate) fn push_free_entry(buf: &mut Vec<u8>)
    ensures
        final(buf)@ == old(buf)@ + free_entry_bytes(),
{
    let mut i: usize = 0;
    while i < 10
        invariant
            i <= 10,
            buf@ == old(buf)@ + crate::num::zeros(i as int),
        decreases 10 - i,
    {
        buf.push(0x30);
        proof {
            assert(buf@ =~= old(buf)@ + crate::num::zeros(i + 1));
        }
        i = i + 1;
    }
    buf.push(0x20);
    buf.push(0x36);
    buf.push(0x35);
    buf.push(0x35);
    buf.push(0x33);
    buf.push(0x35);
    buf.push(0x20);
    buf.push(0x66);
    buf.push(0x0d);
    buf.push(0x0a);
    proof {
        assert(buf@ =~= old(buf)@ + free_entry_bytes());
    }
}

/// Append the used entry of the given byte offset to `buf`.
pub(crate) fn push_used_entry(buf: &mut Vec<u8>, off: u64)
    ensures
        final(buf)@ == old(buf)@ + used_entry_bytes(off as int),
{
    push_padded10(buf, off);
    buf.push(0x20);
    buf.push(0x30);
    buf.push(0x30);
    buf.push(0x30);
    buf.push(0x30);
    buf.push(0x30);
    buf.push(0x20);
    buf.push(0x6e);
    buf.push(0x0d);
    buf.push(0x0a);
    proof {
        assert(buf@ =~= old(buf)@ + used_entry_bytes(off as int));
    }
}

/// A run of free entries grows at its end one entry at a time.
pub proof fn lemma_free_entries_snoc(k: int)
    requires
        0 <= k,
    ensures
        free_entries(k + 1) == free_entries(k) + free_entry_bytes(),
    decreases k,
{
    if k == 0 {
        assert(free_entries(k + 1) =~= free_entries(k) + free_entry_bytes()) by {
            reveal_with_fuel(free_entries, 3);
        }
    } else {
        lemma_free_entries_snoc(k - 1);
        assert(free_entries(k + 1) == free_entry_bytes() + free_entries(k));
        assert(free_entries(k) == free_entry_bytes() + free_entries(k - 1));
        assert(free_entry_bytes() + (free_entries(k - 1) + free_entry_bytes()) =~= (
        free_entry_bytes() + free_entries(k - 1)) + free_entry_bytes());
    }
}

/// Inserting into a sorted sequence keeps exactly the old pairs plus the
/// new one.
pub proof fn lemma_insert_sorted_props(s: Seq<(int, int)>, p: (int, int))
    ensures
        insert_sorted(s, p).len() == s.len() + 1,
        forall|q: (int, int)| #[trigger]
            insert_sorted(s, p).contains(q) <==> (s.contains(q) || q == p),
    decreases s.len(),
{
    if s.len() == 0 {
        assert(insert_sorted(s, p) =~= Seq::<(int, int)>::empty().push(p));
        assert forall|q: (int, int)| #[trigger]
            insert_sorted(s, p).contains(q) <==> (s.contains(q) || q == p) by {
            seq_push_contains(Seq::<(int, int)>::empty(), p, q);
        }
    } else if pair_le(s.last(), p) {
        assert forall|q: (int, int)| #[trigger]
            insert_sorted(s, p).contains(q) <==> (s.contains(q) || q == p) by {
            seq_push_contains(s, p, q);
        }
    } else {
        lemma_insert_sorted_props(s.drop_last(), p);
        assert forall|q: (int, int)| #[trigger]
            insert_sorted(s, p).contains(q) <==> (s.contains(q) || q == p) by {
            seq_push_contains(insert_sorted(s.drop_last(), p), s.last(), q);
            seq_push_contains(s.drop_last(), s.last(), q);
            assert(s.drop_last().push(s.last()) =~= s);
        }
    }
}

proof fn seq_push_contains(s: Seq<(int, int)>, v: (int, int), q: (int, int))
    ensures
        s.push(v).contains(q) <==> (s.contains(q) || q == v),
{
    if s.contains(q) {
        let k = choose|k: int| 0 <= k < s.len() && s[k] == q;
        assert(s.push(v)[k] == q);
    }
    if q == v {
        assert(s.push(v)[s.len() as int] == q);
    }
    if s.push(v).contains(q) {
        let k = choose|k: int| 0 <= k < s.push(v).len() && s.push(v)[k] == q;
        if k < s.len() {
            assert(s[k] == q);
        }
    }
}

/// Sorting keeps exactly the pairs of the input.
pub proof fn lemma_sort_pairs_props(s: Seq<(int, int)>)
    ensures
        sort_pairs(s).len() == s.len(),
        forall|q: (int, int)| #[trigger] sort_pairs(s).contains(q) <==> s.contains(q),
    decreases s.len(),
{
    if s.len() > 0 {
        lemma_sort_pairs_props(s.drop_last());
        lemma_insert_sorted_props(sort_pairs(s.drop_last()), s.last());
        assert forall|q: (int, int)| #[trigger] sort_pairs(s).contains(q) <==> s.contains(q) by {
            seq_push_contains(s.drop_last(), s.last(), q);
            assert(s.drop_last().push(s.last()) =~= s);
        }
    }
}

fn pair_after(a: (i32, usize), b: (i32, usize)) -> (r: bool)
    ensures
        r == !pair_le(pair_view(a), pair_view(b)),
{
    a.0 > b.0 || (a.0 == b.0 && a.1 > b.1)
}

/// `insert_sorted` splits the sequence at the first position, counted
/// from the end, whose predecessor is not greater than the new pair.
proof fn lemma_insert_at(s: Seq<(int, int)>, p: (int, int), j: int)
    requires
        0 <= j <= s.len(),
        forall|k: int| j <= k < s.len() ==> !pair_le(#[trigger] s[k], p),
        j > 0 ==> pair_le(s[j - 1], p),
    ensures
        insert_sorted(s, p) == s.subrange(0, j) + seq![p] + s.subrange(j, s.len() as int),
    decreases s.len(),
{
    if j == s.len() {
        if s.len() == 0 {
            assert(insert_sorted(s, p) =~= s.subrange(0, j) + seq![p] + s.subrange(
                j,
                s.len() as int,
            ));
        } else {
            assert(pair_le(s.last(), p));
            assert(insert_sorted(s, p) == s.push(p));
            assert(s.push(p) =~= s.subrange(0, j) + seq![p] + s.subrange(j, s.len() as int));
        }
    } else {
        assert(!pair_le(s[s.len() - 1], p));
        assert(insert_sorted(s, p) == insert_sorted(s.drop_last(), p).push(s.last()));
        lemma_insert_at(s.drop_last(), p, j);
        assert(insert_sorted(s.drop_last(), p).push(s.last()) =~= s.subrange(0, j) + seq![p]
            + s.subrange(j, s.len() as int));
    }
}

fn insert_offset(v: &mut Vec<(i32, usize)>, p: (i32, usize))
    ensures
        pairs_view(final(v)@) == insert_sorted(pairs_view(old(v)@), pair_view(p)),
{
    let mut j: usize = v.len();
    let mut go = true;
    while go
        invariant
            j <= v.len(),
            v@ == old(v)@,
            forall|k: int| j <= k < v@.len() ==> !pair_le(#[trigger] pairs_view(v@)[k], pair_view(p)),
            !go ==> (j == 0 || pair_le(pairs_view(v@)[j - 1], pair_view(p))),
        decreases 2 * j + (if go { 1int } else { 0int }),
    {
        if j == 0 {
            go = false;
        } else {
            let q = v[j - 1];
            if pair_after(q, p) {
                j = j - 1;
            } else {
                go = false;
            }
        }
    }
    v.insert(j, p);
    proof {
        lemma_insert_at(pairs_view(old(v)@), pair_view(p), j as int);
        assert(pairs_view(v@) =~= pairs_view(old(v)@).subrange(0, j as int) + seq![pair_view(p)]
            + pairs_view(old(v)@).subrange(j as int, old(v)@.len() as int));
    }
}

/// Sort the stored offset table by identifier, ties broken by offset.
pub(crate) fn sort_offsets(v: &mut Vec<(i32, usize)>)
    ensures
        pairs_view(final(v)@) == sort_pairs(pairs_view(old(v)@)),
{
    let mut out: Vec<(i32, usize)> = Vec::new();
    let mut i: usize = 0;
    proof {
        assert(pairs_view(out@) =~= Seq::<(int, int)>::empty());
        assert(pairs_view(v@.subrange(0, 0)) =~= Seq::<(int, int)>::empty());
    }
    while i < v.len()
        invariant
            i <= v.len(),
            v@ == old(v)@,
            pairs_view(out@) == sort_pairs(pairs_view(v@.subrange(0, i as int))),
        decreases v.len() - i,
    {
        let p = v[i];
        insert_offset(&mut out, p);
        proof {
            let pre = pairs_view(v@.subrange(0, i as int));
            let cur = pairs_view(v@.subrange(0, i + 1));
            assert(cur.drop_last() =~= pre);
            assert(cur.last() == pair_view(p));
        }
        i = i + 1;
    }
    proof {
        assert(v@.subrange(0, v@.len() as int) =~= v@);
    }
    *v = out;
}

} // verus!

verus! {

use crate::num::{dec_val, lemma_dec_rep_len_le, lemma_dec_val_of_pad, lemma_dec_val_zeros, pow10,
    zeros};

/// Identifiers bounded below, offsets in range for ten digits.
pub open spec fn entries_in_range(s: Seq<(int, int)>, next: int) -> bool {
    forall|k: int| 0 <= k < s.len() ==> next <= (#[trigger] s[k]).0 && 0 <= s[k].1 < pow10(10)
}

/// A used entry is exactly twenty bytes wide when its offset fits in ten
/// digits.
pub proof fn lemma_used_entry_len(off: int)
    requires
        0 <= off < pow10(10),
    ensures
        used_entry_bytes(off).len() == 20,
        used_entry_bytes(off).subrange(0, 10) == pad_rep(off as nat, 10),
{
    lemma_dec_rep_len_le(off as nat, 10);
    assert(used_entry_bytes(off).subrange(0, 10) =~= pad_rep(off as nat, 10));
}

/// A run of free entries is twenty bytes per entry.
pub proof fn lemma_free_entries_len(k: int)
    ensures
        free_entries(k).len() == 20 * (if k < 0 { 0int } else { k }),
    decreases k,
{
    if k > 0 {
        lemma_free_entries_len(k - 1);
    }
}

/// Every twenty-byte block of a run of free entries is one free entry.
pub proof fn lemma_free_entries_at(k: int, m: int)
    requires
        0 <= m < k,
    ensures
        free_entries(k).subrange(20 * m, 20 * m + 20) == free_entry_bytes(),
    decreases m,
{
    lemma_free_entries_len(k - 1);
    if m == 0 {
        assert(free_entries(k).subrange(0, 20) =~= free_entry_bytes());
    } else {
        lemma_free_entries_at(k - 1, m - 1);
        assert(free_entries(k).subrange(20 * m, 20 * m + 20) =~= free_entries(k - 1).subrange(
            20 * (m - 1),
            20 * (m - 1) + 20,
        ));
    }
}

/// The entries of a sorted table cover exactly the identifiers from the
/// next expected one up to the last used one, twenty bytes each.
pub proof fn lemma_entries_len(s: Seq<(int, int)>, next: int)
    requires
        strictly_by_id(s),
        entries_in_range(s, next),
    ensures
        xref_entries(s, next).len() == if s.len() == 0 {
            0int
        } else {
            20 * (s.last().0 + 1 - next)
        },
    decreases s.len(),
{
    if s.len() > 0 {
        let t = s.drop_first();
        assert(strictly_by_id(t) && entries_in_range(t, s[0].0 + 1)) by {
            assert(forall|k: int| 0 <= k < t.len() ==> #[trigger] t[k] == s[k + 1]);
        }
        lemma_entries_len(t, s[0].0 + 1);
        lemma_free_entries_len(s[0].0 - next);
        lemma_used_entry_len(s[0].1);
        if t.len() > 0 {
            assert(t.last() == s.last());
        }
    }
}

/// The twenty-byte block of an identifier within the entries of a sorted
/// table: the used entry with the identifier's recorded offset where the
/// identifier is used, a free entry where it is not.
pub proof fn lemma_entries_at(s: Seq<(int, int)>, next: int, id: int)
    requires
        strictly_by_id(s),
        entries_in_range(s, next),
        1 <= next <= id,
        s.len() > 0,
        id <= s.last().0,
    ensures
        forall|off: int| #[trigger]
            s.contains((id, off)) ==> xref_entries(s, next).subrange(
                20 * (id - next),
                20 * (id - next) + 20,
            ) == used_entry_bytes(off),
        !has_id(s, id) ==> xref_entries(s, next).subrange(
            20 * (id - next),
            20 * (id - next) + 20,
        ) == free_entry_bytes(),
    decreases s.len(),
{
    let id0 = s[0].0;
    let off0 = s[0].1;
    let fc = id0 - next;
    let t = s.drop_first();
    let blob = xref_entries(s, next);
    let rest = xref_entries(t, id0 + 1);
    let pos = 20 * (id - next);
    assert(blob == free_entries(fc) + used_entry_bytes(off0) + rest);
    lemma_free_entries_len(fc);
    lemma_used_entry_len(off0);
    assert(strictly_by_id(t) && entries_in_range(t, id0 + 1)) by {
        assert(forall|k: int| 0 <= k < t.len() ==> #[trigger] t[k] == s[k + 1]);
    }
    if t.len() > 0 {
        assert(t.last() == s.last());
        lemma_entries_len(t, id0 + 1);
    }
    if id < id0 {
        assert forall|off: int| !(#[trigger] s.contains((id, off))) by {
            if s.contains((id, off)) {
                let k = choose|k: int| 0 <= k < s.len() && s[k] == (id, off);
                if k > 0 {
                    assert(s[0].0 < s[k].0);
                }
            }
        }
        assert(!has_id(s, id));
        lemma_free_entries_at(fc, id - next);
        assert(blob.subrange(pos, pos + 20) =~= free_entries(fc).subrange(pos, pos + 20));
    } else if id == id0 {
        assert(has_id(s, id));
        assert(blob.subrange(pos, pos + 20) =~= used_entry_bytes(off0));
        assert forall|off: int| #[trigger] s.contains((id, off)) implies off == off0 by {
            let k = choose|k: int| 0 <= k < s.len() && s[k] == (id, off);
            if k > 0 {
                assert(s[0].0 < s[k].0);
            }
        }
    } else {
        assert(t.len() > 0) by {
            if s.len() == 1 {
                assert(s.last() == s[0]);
            }
        }
        lemma_entries_at(t, id0 + 1, id);
        let pos2 = 20 * (id - id0 - 1);
        assert(blob.subrange(pos, pos + 20) =~= rest.subrange(pos2, pos2 + 20)) by {
            lemma_entries_len(t, id0 + 1);
        }
        assert forall|off: int| #[trigger] s.contains((id, off)) implies t.contains((id, off)) by {
            let k = choose|k: int| 0 <= k < s.len() && s[k] == (id, off);
            assert(k > 0);
            assert(t[k - 1] == (id, off));
        }
        assert(has_id(s, id) ==> has_id(t, id)) by {
            if has_id(s, id) {
                let k = choose|k: int| 0 <= k < s.len() && s[k].0 == id;
                assert(k > 0);
                assert(t[k - 1].0 == id);
            }
        }
        assert(has_id(t, id) ==> has_id(s, id)) by {
            if has_id(t, id) {
                let k = choose|k: int| 0 <= k < t.len() && t[k].0 == id;
                assert(s[k + 1].0 == id);
            }
        }
    }
}

} // verus!

verus! {

/// Inserting a pair whose identifier is fresh keeps identifiers strictly
/// ascending.
proof fn lemma_insert_sorted_strict(s: Seq<(int, int)>, p: (int, int))
    requires
        strictly_by_id(s),
        forall|k: int| 0 <= k < s.len() ==> (#[trigger] s[k]).0 != p.0,
    ensures
        strictly_by_id(insert_sorted(s, p)),
    decreases s.len(),
{
    if s.len() == 0 {
    } else if pair_le(s.last(), p) {
        let r = s.push(p);
        assert forall|i: int, j: int| 0 <= i < j < r.len() implies r[i].0 < r[j].0 by {
            if j == s.len() {
                assert(s.last().0 < p.0);
                if i < s.len() - 1 {
                    assert(s[i].0 < s[s.len() - 1].0);
                }
            }
        }
    } else {
        let inner = insert_sorted(s.drop_last(), p);
        assert(strictly_by_id(s.drop_last()) && (forall|k: int|
            0 <= k < s.drop_last().len() ==> (#[trigger] s.drop_last()[k]).0 != p.0)) by {
            assert(forall|k: int|
                0 <= k < s.drop_last().len() ==> #[trigger] s.drop_last()[k] == s[k]);
        }
        lemma_insert_sorted_strict(s.drop_last(), p);
        lemma_insert_sorted_props(s.drop_last(), p);
        let r = inner.push(s.last());
        assert(p.0 < s.last().0);
        assert forall|i: int, j: int| 0 <= i < j < r.len() implies r[i].0 < r[j].0 by {
            if j == inner.len() {
                assert(inner.contains(inner[i]));
                if s.drop_last().contains(inner[i]) {
                    let k = choose|k: int|
                        0 <= k < s.drop_last().len() && s.drop_last()[k] == inner[i];
                    assert(s[k] == inner[i]);
                    assert(s[k].0 < s[s.len() - 1].0);
                }
            }
        }
    }
}

/// Sorting a table of distinct identifiers yields strictly ascending
/// identifiers.
pub proof fn lemma_sort_pairs_strict(s: Seq<(int, int)>)
    requires
        ids_distinct(s),
    ensures
        strictly_by_id(sort_pairs(s)),
    decreases s.len(),
{
    if s.len() > 0 {
        let t = s.drop_last();
        assert(ids_distinct(t)) by {
            assert(forall|k: int| 0 <= k < t.len() ==> #[trigger] t[k] == s[k]);
        }
        lemma_sort_pairs_strict(t);
        lemma_sort_pairs_props(t);
        assert forall|k: int|
            0 <= k < sort_pairs(t).len() implies (#[trigger] sort_pairs(t)[k]).0
            != s.last().0 by {
            assert(sort_pairs(t).contains(sort_pairs(t)[k]));
            assert(t.contains(sort_pairs(t)[k]));
            let j = choose|j: int| 0 <= j < t.len() && t[j] == sort_pairs(t)[k];
            assert(s[j] == sort_pairs(t)[k]);
            assert(s[j].0 != s[s.len() - 1].0);
        }
        lemma_insert_sorted_strict(sort_pairs(t), s.last());
    }
}

/// The recorded table in the writer's model: identifiers positive,
/// offsets in range for the fixed-width entries, no identifier recorded
/// twice.
pub open spec fn recorded_ok(rec: Seq<(int, int)>) -> bool {
    &&& ids_distinct(rec)
    &&& forall|k: int| 0 <= k < rec.len() ==> 1 <= (#[trigger] rec[k]).0 && 0 <= rec[k].1 < pow10(
        10,
    )
}

/// Law: in the finished cross-reference table, the entry of every used
/// identifier is the fixed-width used entry of its recorded byte offset,
/// and its first ten bytes decode back to that offset. The entry of
/// identifier `id` stands `20 * id` bytes past the table's head, entry
/// zero being the permanent free sentinel.
pub proof fn lemma_xref_lookup(rec: Seq<(int, int)>, id: int, off: int)
    requires
        recorded_ok(rec),
        rec.contains((id, off)),
    ensures
        ({
            let sorted = sort_pairs(rec);
            let table = xref_bytes(sorted);
            let pos = xref_head(sorted).len() + 20 * id;
            &&& 1 <= id < xref_size(sorted)
            &&& pos + 20 <= table.len()
            &&& table.subrange(pos, pos + 20) == used_entry_bytes(off)
            &&& dec_val(table.subrange(pos, pos + 10)) == off
        }),
{
    let sorted = sort_pairs(rec);
    let table = xref_bytes(sorted);
    lemma_sort_pairs_props(rec);
    lemma_sort_pairs_strict(rec);
    assert(sorted.contains((id, off)));
    let k = choose|k: int| 0 <= k < sorted.len() && sorted[k] == (id, off);
    assert(entries_in_range(sorted, 1) && 1 <= id && 0 <= off < pow10(10)) by {
        assert forall|m: int|
            0 <= m < sorted.len() implies 1 <= (#[trigger] sorted[m]).0 && 0 <= sorted[m].1
            < pow10(10) by {
            assert(sorted.contains(sorted[m]));
            assert(rec.contains(sorted[m]));
            let j = choose|j: int| 0 <= j < rec.len() && rec[j] == sorted[m];
            assert(1 <= rec[j].0 && 0 <= rec[j].1 < pow10(10));
        }
    }
    assert(id <= sorted.last().0) by {
        if k < sorted.len() - 1 {
            assert(sorted[k].0 < sorted[sorted.len() - 1].0);
        }
    }
    lemma_entries_at(sorted, 1, id);
    lemma_entries_len(sorted, 1);
    lemma_used_entry_len(off);
    let pos = xref_head(sorted).len() + 20 * id;
    assert(table.subrange(pos, pos + 20) =~= xref_entries(sorted, 1).subrange(
        20 * (id - 1),
        20 * (id - 1) + 20,
    ));
    assert(table.subrange(pos, pos + 10) =~= used_entry_bytes(off).subrange(0, 10));
    lemma_dec_val_of_pad(off as nat, 10);
}

/// Law: an identifier between one and the highest used one that was never
/// opened gets a free entry, whose offset field is all zeros and decodes
/// to zero.
pub proof fn lemma_xref_free(rec: Seq<(int, int)>, id: int)
    requires
        recorded_ok(rec),
        1 <= id < xref_size(sort_pairs(rec)),
        !has_id(rec, id),
    ensures
        ({
            let sorted = sort_pairs(rec);
            let table = xref_bytes(sorted);
            let pos = xref_head(sorted).len() + 20 * id;
            &&& pos + 20 <= table.len()
            &&& table.subrange(pos, pos + 20) == free_entry_bytes()
            &&& dec_val(table.subrange(pos, pos + 10)) == 0
        }),
{
    let sorted = sort_pairs(rec);
    let table = xref_bytes(sorted);
    lemma_sort_pairs_props(rec);
    lemma_sort_pairs_strict(rec);
    assert(entries_in_range(sorted, 1)) by {
        assert forall|m: int|
            0 <= m < sorted.len() implies 1 <= (#[trigger] sorted[m]).0 && 0 <= sorted[m].1
            < pow10(10) by {
            assert(sorted.contains(sorted[m]));
            assert(rec.contains(sorted[m]));
            let j = choose|j: int| 0 <= j < rec.len() && rec[j] == sorted[m];
            assert(1 <= rec[j].0 && 0 <= rec[j].1 < pow10(10));
        }
    }
    assert(!has_id(sorted, id)) by {
        if has_id(sorted, id) {
            let k = choose|k: int| 0 <= k < sorted.len() && sorted[k].0 == id;
            assert(sorted.contains(sorted[k]));
            assert(rec.contains(sorted[k]));
            let j = choose|j: int| 0 <= j < rec.len() && rec[j] == sorted[k];
            assert(rec[j].0 == id);
        }
    }
    assert(sorted.len() > 0);
    lemma_entries_at(sorted, 1, id);
    lemma_entries_len(sorted, 1);
    let pos = xref_head(sorted).len() + 20 * id;
    assert(table.subrange(pos, pos + 20) =~= xref_entries(sorted, 1).subrange(
        20 * (id - 1),
        20 * (id - 1) + 20,
    ));
    assert(table.subrange(pos, pos + 10) =~= free_entry_bytes().subrange(0, 10));
    assert(free_entry_bytes().subrange(0, 10) =~= zeros(10));
    lemma_dec_val_zeros(10);
}

/// Law: the finished table has exactly one entry for every identifier
/// from zero up to the highest used one — `xref_size` entries of twenty
/// bytes each after the head, even when some identifiers are unused.
pub proof fn lemma_xref_table_len(rec: Seq<(int, int)>)
    requires
        recorded_ok(rec),
    ensures
        xref_bytes(sort_pairs(rec)).len() == xref_head(sort_pairs(rec)).len() + 20 * xref_size(
            sort_pairs(rec),
        ),
{
    let sorted = sort_pairs(rec);
    lemma_sort_pairs_props(rec);
    lemma_sort_pairs_strict(rec);
    assert(entries_in_range(sorted, 1)) by {
        assert forall|m: int|
            0 <= m < sorted.len() implies 1 <= (#[trigger] sorted[m]).0 && 0 <= sorted[m].1
            < pow10(10) by {
            assert(sorted.contains(sorted[m]));
            assert(rec.contains(sorted[m]));
            let j = choose|j: int| 0 <= j < rec.len() && rec[j] == sorted[m];
            assert(1 <= rec[j].0 && 0 <= rec[j].1 < pow10(10));
        }
    }
    lemma_entries_len(sorted, 1);
}

} // verus!
